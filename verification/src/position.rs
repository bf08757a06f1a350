//! A plain board model: what the probe reads from a chess position.
//!
//! The probe needs only the side to move, whether any castling rights
//! remain, and which piece stands on which square. A `Position` holds
//! exactly that, as plain values; the move generator a caller uses is
//! converted to this form at the library's edge.

use vstd::prelude::*;

use crate::geometry::{spec_mirror_h, sq_file, sq_rank};
use crate::material::Material;
use crate::types::{Color, Piece, Syzygy};

verus! {

/// A chess position reduced to what tables index.
pub struct Position {
    /// The side to move.
    pub turn: Color,
    /// Whether any castling rights remain.
    pub castling: bool,
    /// The piece on each of the 64 squares, square = rank · 8 + file.
    pub board: Vec<Option<Piece>>,
}

/// How many of the first `n` squares hold the piece `p`.
pub open spec fn count_piece_upto(s: Seq<Option<Piece>>, p: Piece, n: int) -> int
    decreases n,
{
    if n <= 0 {
        0
    } else {
        count_piece_upto(s, p, n - 1) + if s[n - 1] == Some(p) {
            1int
        } else {
            0int
        }
    }
}

/// How many of the first `n` squares are occupied.
pub open spec fn count_occupied_upto(s: Seq<Option<Piece>>, n: int) -> int
    decreases n,
{
    if n <= 0 {
        0
    } else {
        count_occupied_upto(s, n - 1) + if s[n - 1] is Some {
            1int
        } else {
            0int
        }
    }
}

/// The material of the first `n` squares.
pub open spec fn material_upto(s: Seq<Option<Piece>>, n: int) -> Material
    decreases n,
{
    if n <= 0 {
        Material::spec_empty()
    } else {
        match s[n - 1] {
            Some(p) => material_upto(s, n - 1).spec_add(p),
            None => material_upto(s, n - 1),
        }
    }
}

impl Position {
    /// A position's board always has one slot per square.
    pub open spec fn wf(self) -> bool {
        self.board@.len() == 64
    }

    /// The number of pieces on the board.
    pub open spec fn spec_piece_count(self) -> int {
        count_occupied_upto(self.board@, 64)
    }

    /// The material on the board.
    pub open spec fn spec_material(self) -> Material {
        material_upto(self.board@, 64)
    }

    /// An empty board with the given side to move and castling state.
    pub fn new(turn: Color, castling: bool) -> (r: Position)
        ensures
            r.wf(),
            r.turn == turn,
            r.castling == castling,
            forall|i: int| 0 <= i < 64 ==> r.board@[i] is None,
    {
        let mut board: Vec<Option<Piece>> = Vec::new();
        let mut i: usize = 0;
        while i < 64
            invariant
                i <= 64,
                board@.len() == i,
                forall|j: int| 0 <= j < i ==> board@[j] is None,
            decreases 64 - i,
        {
            board.push(None);
            i = i + 1;
        }
        Position { turn, castling, board }
    }

    /// Put a piece on a square, replacing whatever stood there.
    pub fn set_piece(&mut self, sq: u8, piece: Piece)
        requires
            old(self).wf(),
            sq < 64,
        ensures
            final(self).wf(),
            final(self).turn == old(self).turn,
            final(self).castling == old(self).castling,
            final(self).board@ == old(self).board@.update(sq as int, Some(piece)),
    {
        self.board.set(sq as usize, Some(piece));
    }

    /// The side to move.
    pub fn turn(&self) -> (r: Color)
        ensures
            r == self.turn,
    {
        self.turn
    }

    /// Whether any castling rights remain.
    pub fn has_castling_rights(&self) -> (r: bool)
        ensures
            r == self.castling,
    {
        self.castling
    }

    /// The piece on a square.
    pub fn piece_at(&self, sq: u8) -> (r: Option<Piece>)
        requires
            self.wf(),
            sq < 64,
        ensures
            r == self.board@[sq as int],
    {
        self.board[sq as usize]
    }

    /// The number of pieces on the board.
    pub fn piece_count(&self) -> (r: u32)
        requires
            self.wf(),
        ensures
            r == self.spec_piece_count(),
    {
        let mut c: u32 = 0;
        let mut i: usize = 0;
        while i < 64
            invariant
                self.wf(),
                i <= 64,
                c == count_occupied_upto(self.board@, i as int),
                c <= i,
            decreases 64 - i,
        {
            if self.board[i].is_some() {
                c = c + 1;
            }
            i = i + 1;
        }
        c
    }

    /// The material on the board.
    pub fn material(&self) -> (r: Material)
        requires
            self.wf(),
        ensures
            r == self.spec_material(),
    {
        let mut m = Material::empty();
        let mut i: usize = 0;
        while i < 64
            invariant
                self.wf(),
                i <= 64,
                m == material_upto(self.board@, i as int),
            decreases 64 - i,
        {
            match self.board[i] {
                Some(p) => m.add(p),
                None => (),
            }
            i = i + 1;
        }
        m
    }

    /// The square holding the `k`-th copy, in square order, of piece
    /// `p`, or `None` when the board has no more than `k` copies.
    pub fn nth_square(&self, p: Piece, k: u32) -> (r: Option<u8>)
        requires
            self.wf(),
        ensures
            match r {
                Some(sq) => sq < 64 && self.board@[sq as int] == Some(p) && count_piece_upto(
                    self.board@,
                    p,
                    sq as int,
                ) == k,
                None => count_piece_upto(self.board@, p, 64) <= k,
            },
    {
        let mut c: u32 = 0;
        let mut i: usize = 0;
        while i < 64
            invariant
                self.wf(),
                i <= 64,
                c == count_piece_upto(self.board@, p, i as int),
                c <= k,
            decreases 64 - i,
        {
            match self.board[i] {
                Some(q) => {
                    if q == p {
                        if c == k {
                            return Some(i as u8);
                        }
                        c = c + 1;
                    }
                },
                None => (),
            }
            i = i + 1;
        }
        None
    }

    /// The same position with every piece's color exchanged and the
    /// other side to move.
    pub fn swap_colors(&self) -> (r: Position)
        requires
            self.wf(),
        ensures
            r.wf(),
            r.turn == self.turn.spec_flip(),
            r.castling == self.castling,
            forall|i: int|
                0 <= i < 64 ==> r.board@[i] == match self.board@[i] {
                    Some(p) => Some(p.spec_flip_color()),
                    None => None::<Piece>,
                },
    {
        let mut board: Vec<Option<Piece>> = Vec::new();
        let mut i: usize = 0;
        while i < 64
            invariant
                self.wf(),
                i <= 64,
                board@.len() == i,
                forall|j: int|
                    0 <= j < i ==> board@[j] == match self.board@[j] {
                        Some(p) => Some(p.spec_flip_color()),
                        None => None::<Piece>,
                    },
            decreases 64 - i,
        {
            match self.board[i] {
                Some(p) => board.push(Some(p.flip_color())),
                None => board.push(None),
            }
            i = i + 1;
        }
        Position { turn: self.turn.flip(), castling: self.castling, board }
    }

    /// The same position mirrored horizontally: the piece on each
    /// square moves to the square with file 7 − file.
    pub fn mirror_horizontal(&self) -> (r: Position)
        requires
            self.wf(),
        ensures
            r.wf(),
            r.turn == self.turn,
            r.castling == self.castling,
            forall|i: int| 0 <= i < 64 ==> r.board@[i] == self.board@[spec_mirror_h(i)],
    {
        let mut board: Vec<Option<Piece>> = Vec::new();
        let mut i: usize = 0;
        while i < 64
            invariant
                self.wf(),
                i <= 64,
                board@.len() == i,
                forall|j: int| 0 <= j < i ==> board@[j] == self.board@[spec_mirror_h(j)],
            decreases 64 - i,
        {
            let sq = i as u8;
            let m = crate::geometry::mirror_h(sq);
            board.push(self.board[m as usize]);
            i = i + 1;
        }
        Position { turn: self.turn, castling: self.castling, board }
    }
}

/// Standard chess: the variant these tables and magic numbers belong
/// to.
impl Syzygy for Position {
    const WDL_SUFFIX: &'static str = "rtbw";

    const DTZ_SUFFIX: &'static str = "rtbz";

    const WDL_MAGIC: [u8; 4] = [0x71, 0xe8, 0x23, 0x5d];

    const DTZ_MAGIC: [u8; 4] = [0xd7, 0x66, 0x0c, 0xa5];

    const ONE_KING: bool = true;

    const CONNECTED_KINGS: bool = false;

    const CAPTURES_COMPULSORY: bool = false;
}

} // verus!
