//! Basic chess and tablebase value types.

use vstd::prelude::*;

verus! {

/// The side to move, or the side owning a piece.
#[derive(Clone, Copy, PartialEq, Eq, Structural, Debug)]
pub enum Color {
    White,
    Black,
}

impl Color {
    /// The opposite color.
    pub fn flip(self) -> (r: Color)
        ensures
            r == self.spec_flip(),
    {
        match self {
            Color::White => Color::Black,
            Color::Black => Color::White,
        }
    }

    /// What `flip` returns.
    pub open spec fn spec_flip(self) -> Color {
        match self {
            Color::White => Color::Black,
            Color::Black => Color::White,
        }
    }
}

/// The kind of a chess piece, without its color.
#[derive(Clone, Copy, PartialEq, Eq, Structural, Debug)]
pub enum Role {
    Pawn,
    Knight,
    Bishop,
    Rook,
    Queen,
    King,
}

/// A colored piece.
#[derive(Clone, Copy, PartialEq, Eq, Structural, Debug)]
pub struct Piece {
    pub color: Color,
    pub role: Role,
}

impl Piece {
    /// The same piece for the other side.
    pub fn flip_color(self) -> (r: Piece)
        ensures
            r == self.spec_flip_color(),
    {
        Piece { color: self.color.flip(), role: self.role }
    }

    /// What `flip_color` returns.
    pub open spec fn spec_flip_color(self) -> Piece {
        Piece { color: self.color.spec_flip(), role: self.role }
    }
}

/// Which table metric a probe asks for.
#[derive(Clone, Copy, PartialEq, Eq, Structural, Debug)]
pub enum Metric {
    Wdl,
    Dtz,
}

/// The outcome of a finished game.
#[derive(Clone, Copy, PartialEq, Eq, Structural, Debug)]
pub enum Outcome {
    Decisive { winner: Color },
    Draw,
}

/// A win/draw/loss value from the point of view of the side to move,
/// refined by the 50-move rule.
#[derive(Clone, Copy, PartialEq, Eq, Structural, Debug, Hash)]
pub enum Wdl {
    /// An unconditional loss.
    Loss,
    /// A loss that the 50-move rule turns into a draw.
    BlessedLoss,
    /// A draw.
    Draw,
    /// A win that the 50-move rule turns into a draw.
    CursedWin,
    /// An unconditional win.
    Win,
}

impl Wdl {
    /// The value for the given side when the game ends with `outcome`.
    pub fn from_outcome(outcome: Outcome, pov: Color) -> (r: Wdl)
        ensures
            outcome == Outcome::Draw ==> r == Wdl::Draw,
            outcome == (Outcome::Decisive { winner: pov }) ==> r == Wdl::Win,
            outcome != Outcome::Draw && outcome != (Outcome::Decisive { winner: pov })
                ==> r == Wdl::Loss,
    {
        match outcome {
            Outcome::Draw => Wdl::Draw,
            Outcome::Decisive { winner } => {
                if winner == pov {
                    Wdl::Win
                } else {
                    Wdl::Loss
                }
            },
        }
    }

    /// The value of the same position from the other side's point of view.
    pub fn negate(self) -> (r: Wdl)
        ensures
            r == self.spec_negate(),
    {
        match self {
            Wdl::Loss => Wdl::Win,
            Wdl::BlessedLoss => Wdl::CursedWin,
            Wdl::Draw => Wdl::Draw,
            Wdl::CursedWin => Wdl::BlessedLoss,
            Wdl::Win => Wdl::Loss,
        }
    }

    /// What `negate` returns.
    pub open spec fn spec_negate(self) -> Wdl {
        match self {
            Wdl::Loss => Wdl::Win,
            Wdl::BlessedLoss => Wdl::CursedWin,
            Wdl::Draw => Wdl::Draw,
            Wdl::CursedWin => Wdl::BlessedLoss,
            Wdl::Win => Wdl::Loss,
        }
    }

    /// The conventional signed value: −2 for `Loss` up to 2 for `Win`.
    pub fn signum(self) -> (r: i8)
        ensures
            r == self.spec_signum(),
    {
        match self {
            Wdl::Loss => -2,
            Wdl::BlessedLoss => -1,
            Wdl::Draw => 0,
            Wdl::CursedWin => 1,
            Wdl::Win => 2,
        }
    }

    /// The byte a WDL table stores for this value.
    pub open spec fn spec_byte(self) -> u8 {
        match self {
            Wdl::Loss => 0u8,
            Wdl::BlessedLoss => 1u8,
            Wdl::Draw => 2u8,
            Wdl::CursedWin => 3u8,
            Wdl::Win => 4u8,
        }
    }

    /// What `signum` returns.
    pub open spec fn spec_signum(self) -> i8 {
        match self {
            Wdl::Loss => -2i8,
            Wdl::BlessedLoss => -1i8,
            Wdl::Draw => 0i8,
            Wdl::CursedWin => 1i8,
            Wdl::Win => 2i8,
        }
    }

    /// Negating a value twice gives it back, and negation flips the sign
    /// of the conventional signed value.
    pub proof fn lemma_negate_involution(self)
        ensures
            self.spec_negate().spec_negate() == self,
            self.spec_negate().spec_signum() == -self.spec_signum(),
    {
    }
}

/// A chess variant with Syzygy support: the constants that fix its table
/// file format.
pub trait Syzygy {
    const WDL_SUFFIX: &'static str;

    const DTZ_SUFFIX: &'static str;

    const WDL_MAGIC: [u8; 4];

    const DTZ_MAGIC: [u8; 4];

    const ONE_KING: bool;

    const CONNECTED_KINGS: bool;

    const CAPTURES_COMPULSORY: bool;
}

} // verus!
