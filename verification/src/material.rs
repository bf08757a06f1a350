//! Material keys: canonical multiset-of-pieces identifiers.

use vstd::prelude::*;

use crate::types::{Color, Piece, Role};

verus! {

/// Piece counts for one side.
#[derive(Clone, Copy, PartialEq, Eq, Structural, Debug)]
pub struct MaterialSide {
    pub pawns: u8,
    pub knights: u8,
    pub bishops: u8,
    pub rooks: u8,
    pub queens: u8,
    pub kings: u8,
}

impl MaterialSide {
    /// A side with no pieces.
    pub fn empty() -> (r: MaterialSide)
        ensures
            r == MaterialSide::spec_empty(),
    {
        MaterialSide { pawns: 0, knights: 0, bishops: 0, rooks: 0, queens: 0, kings: 0 }
    }

    /// What `empty` returns.
    pub open spec fn spec_empty() -> MaterialSide {
        MaterialSide { pawns: 0, knights: 0, bishops: 0, rooks: 0, queens: 0, kings: 0 }
    }

    /// The count this side holds of the given role.
    pub open spec fn spec_by_role(self, role: Role) -> u8 {
        match role {
            Role::Pawn => self.pawns,
            Role::Knight => self.knights,
            Role::Bishop => self.bishops,
            Role::Rook => self.rooks,
            Role::Queen => self.queens,
            Role::King => self.kings,
        }
    }

    /// The count this side holds of the given role.
    pub fn by_role(&self, role: Role) -> (r: u8)
        ensures
            r == self.spec_by_role(role),
    {
        match role {
            Role::Pawn => self.pawns,
            Role::Knight => self.knights,
            Role::Bishop => self.bishops,
            Role::Rook => self.rooks,
            Role::Queen => self.queens,
            Role::King => self.kings,
        }
    }

    /// Total number of pieces on this side.
    pub open spec fn spec_count(self) -> int {
        self.pawns + self.knights + self.bishops + self.rooks + self.queens + self.kings
    }

    /// Total number of pieces on this side.
    pub fn count(&self) -> (r: u32)
        ensures
            r == self.spec_count(),
    {
        self.pawns as u32 + self.knights as u32 + self.bishops as u32 + self.rooks as u32
            + self.queens as u32 + self.kings as u32
    }

    /// Strict order used to pick the canonical orientation of a material
    /// key: more pieces order higher, and count ties break from the
    /// most valuable role down, so the stronger side stays white.
    pub open spec fn spec_lt(self, other: MaterialSide) -> bool {
        if self.spec_count() != other.spec_count() {
            self.spec_count() < other.spec_count()
        } else if self.kings != other.kings {
            self.kings < other.kings
        } else if self.queens != other.queens {
            self.queens < other.queens
        } else if self.rooks != other.rooks {
            self.rooks < other.rooks
        } else if self.bishops != other.bishops {
            self.bishops < other.bishops
        } else if self.knights != other.knights {
            self.knights < other.knights
        } else {
            self.pawns < other.pawns
        }
    }

    /// Whether `self` orders strictly below `other`; see `spec_lt`.
    pub fn lt(&self, other: &MaterialSide) -> (r: bool)
        ensures
            r == self.spec_lt(*other),
    {
        let ca = self.count();
        let cb = other.count();
        if ca != cb {
            ca < cb
        } else if self.kings != other.kings {
            self.kings < other.kings
        } else if self.queens != other.queens {
            self.queens < other.queens
        } else if self.rooks != other.rooks {
            self.rooks < other.rooks
        } else if self.bishops != other.bishops {
            self.bishops < other.bishops
        } else if self.knights != other.knights {
            self.knights < other.knights
        } else {
            self.pawns < other.pawns
        }
    }
}

/// A material key: the multiset of pieces of a position, split by color.
#[derive(Clone, Copy, PartialEq, Eq, Structural, Debug)]
pub struct Material {
    pub white: MaterialSide,
    pub black: MaterialSide,
}

impl Material {
    /// A key with no pieces.
    pub fn empty() -> (r: Material)
        ensures
            r == Material::spec_empty(),
    {
        Material { white: MaterialSide::empty(), black: MaterialSide::empty() }
    }

    /// What `empty` returns.
    pub open spec fn spec_empty() -> Material {
        Material { white: MaterialSide::spec_empty(), black: MaterialSide::spec_empty() }
    }

    /// The side of the given color.
    pub open spec fn spec_by_color(self, color: Color) -> MaterialSide {
        match color {
            Color::White => self.white,
            Color::Black => self.black,
        }
    }

    /// The count of the given piece.
    pub open spec fn spec_by_piece(self, piece: Piece) -> u8 {
        self.spec_by_color(piece.color).spec_by_role(piece.role)
    }

    /// The count of the given piece.
    pub fn by_piece(&self, piece: Piece) -> (r: u8)
        ensures
            r == self.spec_by_piece(piece),
    {
        match piece.color {
            Color::White => self.white.by_role(piece.role),
            Color::Black => self.black.by_role(piece.role),
        }
    }

    /// The key counting the given pieces.
    pub open spec fn spec_from_pieces(pieces: Seq<Piece>) -> Material
        decreases pieces.len(),
    {
        if pieces.len() == 0 {
            Material::spec_empty()
        } else {
            Material::spec_from_pieces(pieces.drop_last()).spec_add(pieces.last())
        }
    }

    /// The key with one more piece of the given kind; counts saturate at
    /// the `u8` limit, which no position can reach.
    pub open spec fn spec_add(self, piece: Piece) -> Material {
        let side = self.spec_by_color(piece.color);
        let n = side.spec_by_role(piece.role);
        let m = if n < 255 {
            (n + 1) as u8
        } else {
            n
        };
        self.spec_with(piece, m)
    }

    /// The key with the count of `piece` replaced by `n`.
    pub open spec fn spec_with(self, piece: Piece, n: u8) -> Material {
        let side = self.spec_by_color(piece.color);
        let new_side = match piece.role {
            Role::Pawn => MaterialSide { pawns: n, ..side },
            Role::Knight => MaterialSide { knights: n, ..side },
            Role::Bishop => MaterialSide { bishops: n, ..side },
            Role::Rook => MaterialSide { rooks: n, ..side },
            Role::Queen => MaterialSide { queens: n, ..side },
            Role::King => MaterialSide { kings: n, ..side },
        };
        match piece.color {
            Color::White => Material { white: new_side, ..self },
            Color::Black => Material { black: new_side, ..self },
        }
    }

    /// Add one piece to the key.
    pub fn add(&mut self, piece: Piece)
        ensures
            *final(self) == old(self).spec_add(piece),
    {
        let n = self.by_piece(piece);
        let m = if n < 255 {
            n + 1
        } else {
            n
        };
        match (piece.color, piece.role) {
            (Color::White, Role::Pawn) => self.white.pawns = m,
            (Color::White, Role::Knight) => self.white.knights = m,
            (Color::White, Role::Bishop) => self.white.bishops = m,
            (Color::White, Role::Rook) => self.white.rooks = m,
            (Color::White, Role::Queen) => self.white.queens = m,
            (Color::White, Role::King) => self.white.kings = m,
            (Color::Black, Role::Pawn) => self.black.pawns = m,
            (Color::Black, Role::Knight) => self.black.knights = m,
            (Color::Black, Role::Bishop) => self.black.bishops = m,
            (Color::Black, Role::Rook) => self.black.rooks = m,
            (Color::Black, Role::Queen) => self.black.queens = m,
            (Color::Black, Role::King) => self.black.kings = m,
        }
    }

    /// The key counting the given pieces.
    pub fn from_pieces(pieces: &Vec<Piece>) -> (r: Material)
        ensures
            r == Material::spec_from_pieces(pieces@),
    {
        let mut m = Material::empty();
        let mut i: usize = 0;
        while i < pieces.len()
            invariant
                i <= pieces.len(),
                m == Material::spec_from_pieces(pieces@.take(i as int)),
            decreases pieces.len() - i,
        {
            proof {
                assert(pieces@.take(i + 1).drop_last() =~= pieces@.take(i as int));
                assert(pieces@.take(i + 1).last() == pieces@[i as int]);
            }
            m.add(pieces[i]);
            i = i + 1;
        }
        proof {
            assert(pieces@.take(pieces@.len() as int) =~= pieces@);
        }
        m
    }

    /// Total number of pieces.
    pub open spec fn spec_count(self) -> int {
        self.white.spec_count() + self.black.spec_count()
    }

    /// Total number of pieces.
    pub fn count(&self) -> (r: u32)
        ensures
            r == self.spec_count(),
    {
        self.white.count() + self.black.count()
    }

    /// Whether either side has a pawn.
    pub open spec fn spec_has_pawns(self) -> bool {
        self.white.pawns > 0 || self.black.pawns > 0
    }

    /// Whether either side has a pawn.
    pub fn has_pawns(&self) -> (r: bool)
        ensures
            r == self.spec_has_pawns(),
    {
        self.white.pawns > 0 || self.black.pawns > 0
    }

    /// Whether both sides hold the same material.
    pub open spec fn spec_is_symmetric(self) -> bool {
        self.white == self.black
    }

    /// Whether both sides hold the same material.
    pub fn is_symmetric(&self) -> (r: bool)
        ensures
            r == self.spec_is_symmetric(),
    {
        self.white == self.black
    }

    /// How many piece kinds (color and role together) appear exactly once.
    pub open spec fn spec_unique_pieces(self) -> int {
        count_one(self.white.pawns) + count_one(self.white.knights) + count_one(
            self.white.bishops,
        ) + count_one(self.white.rooks) + count_one(self.white.queens) + count_one(
            self.white.kings,
        ) + count_one(self.black.pawns) + count_one(self.black.knights) + count_one(
            self.black.bishops,
        ) + count_one(self.black.rooks) + count_one(self.black.queens) + count_one(
            self.black.kings,
        )
    }

    /// How many piece kinds (color and role together) appear exactly once.
    pub fn unique_pieces(&self) -> (r: u32)
        ensures
            r == self.spec_unique_pieces(),
    {
        side_unique(&self.white) + side_unique(&self.black)
    }

    /// The smallest count among piece kinds that appear at least twice,
    /// or 0 when every kind appears at most once.
    pub open spec fn spec_min_like_man(self) -> int {
        min_like_acc(
            min_like_acc(
                min_like_acc(
                    min_like_acc(
                        min_like_acc(
                            min_like_acc(
                                min_like_acc(
                                    min_like_acc(
                                        min_like_acc(
                                            min_like_acc(
                                                min_like_acc(
                                                    min_like_acc(0, self.white.pawns),
                                                    self.white.knights,
                                                ),
                                                self.white.bishops,
                                            ),
                                            self.white.rooks,
                                        ),
                                        self.white.queens,
                                    ),
                                    self.white.kings,
                                ),
                                self.black.pawns,
                            ),
                            self.black.knights,
                        ),
                        self.black.bishops,
                    ),
                    self.black.rooks,
                ),
                self.black.queens,
            ),
            self.black.kings,
        )
    }

    /// The smallest count among piece kinds that appear at least twice,
    /// or 0 when every kind appears at most once.
    pub fn min_like_man(&self) -> (r: u32)
        ensures
            r == self.spec_min_like_man(),
    {
        let mut n: u32 = 0;
        n = min_like_step(n, self.white.pawns);
        n = min_like_step(n, self.white.knights);
        n = min_like_step(n, self.white.bishops);
        n = min_like_step(n, self.white.rooks);
        n = min_like_step(n, self.white.queens);
        n = min_like_step(n, self.white.kings);
        n = min_like_step(n, self.black.pawns);
        n = min_like_step(n, self.black.knights);
        n = min_like_step(n, self.black.bishops);
        n = min_like_step(n, self.black.rooks);
        n = min_like_step(n, self.black.queens);
        n = min_like_step(n, self.black.kings);
        n
    }

    /// The key with the two sides exchanged.
    pub open spec fn spec_flipped(self) -> Material {
        Material { white: self.black, black: self.white }
    }

    /// The key with the two sides exchanged.
    pub fn flipped(&self) -> (r: Material)
        ensures
            r == self.spec_flipped(),
    {
        Material { white: self.black, black: self.white }
    }

    /// The canonical orientation of this key: the stronger side plays
    /// white. Tables are stored and looked up under this form.
    pub open spec fn spec_normalized(self) -> Material {
        if self.white.spec_lt(self.black) {
            self.spec_flipped()
        } else {
            self
        }
    }

    /// The canonical orientation of this key; see `spec_normalized`.
    pub fn into_normalized(self) -> (r: Material)
        ensures
            r == self.spec_normalized(),
    {
        if self.white.lt(&self.black) {
            self.flipped()
        } else {
            self
        }
    }

    /// Normalization is idempotent, and a key and its color-swapped form
    /// normalize to the same table key.
    pub proof fn lemma_normalized_canonical(self)
        ensures
            self.spec_normalized().spec_normalized() == self.spec_normalized(),
            self.spec_flipped().spec_normalized() == self.spec_normalized() || self.white
                == self.black,
    {
    }
}

/// 1 when the count is exactly one, else 0.
pub open spec fn count_one(n: u8) -> int {
    if n == 1 {
        1
    } else {
        0
    }
}

/// How many of one side's piece kinds appear exactly once.
fn side_unique(s: &MaterialSide) -> (r: u32)
    ensures
        r == count_one(s.pawns) + count_one(s.knights) + count_one(s.bishops) + count_one(s.rooks)
            + count_one(s.queens) + count_one(s.kings),
{
    let mut n: u32 = 0;
    if s.pawns == 1 {
        n = n + 1;
    }
    if s.knights == 1 {
        n = n + 1;
    }
    if s.bishops == 1 {
        n = n + 1;
    }
    if s.rooks == 1 {
        n = n + 1;
    }
    if s.queens == 1 {
        n = n + 1;
    }
    if s.kings == 1 {
        n = n + 1;
    }
    n
}

/// Fold one count into a running minimum-of-counts-at-least-two, where 0
/// stands for "none seen yet".
pub open spec fn min_like_acc(acc: int, n: u8) -> int {
    if n < 2 {
        acc
    } else if acc == 0 || n < acc {
        n as int
    } else {
        acc
    }
}

/// One step of the running minimum used by `min_like_man`.
fn min_like_step(acc: u32, n: u8) -> (r: u32)
    requires
        acc <= 255,
    ensures
        r == min_like_acc(acc as int, n),
        r <= 255,
{
    if n < 2 {
        acc
    } else if acc == 0 || (n as u32) < acc {
        n as u32
    } else {
        acc
    }
}

} // verus!
