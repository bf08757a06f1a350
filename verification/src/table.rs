//! One opened WDL table: header parsing, region layout, and the probe
//! that turns a position into a stored value.

use vstd::multiset::Multiset;
use vstd::prelude::*;

use crate::bytes::{read_u16_le, read_u32_le, read_u64_be, read_u32_be, read_u8, spec_u16_le,
    spec_u32_be, spec_u32_le, spec_u64_be};
use crate::errors::ProbeError;
use crate::geometry::{binomial, diag_of, file_of, lower_of, mirror_d, mirror_h, mirror_v, off_diag,
    rank_of, sq_file, sq_rank, spec_mirror_d, spec_mirror_h, spec_mirror_v, spec_off_diag,
    spec_diag, spec_lower, spec_triangle, triangle_of};
use crate::groups::GroupData;
use crate::material::Material;
use crate::pairs::{read_node, PairsData, FLAG_SINGLE_VALUE};
use crate::position::Position;
use crate::types::{Color, Piece, Role, Wdl};

verus! {

/// The WDL magic of standard chess, as a little-endian 32-bit value.
pub const WDL_MAGIC_LE: u32 = 0x5d23_e871;

/// The most pieces any supported table holds.
pub const MAX_PIECES: usize = 7;

/// The piece a header nibble encodes: bit 3 is the color, the low
/// three bits are the role, from pawn up to king.
pub open spec fn spec_decode_piece(nibble: int) -> Option<Piece> {
    let color = if nibble >= 8 {
        Color::Black
    } else {
        Color::White
    };
    let role = nibble % 8;
    if role == 1 {
        Some(Piece { color, role: Role::Pawn })
    } else if role == 2 {
        Some(Piece { color, role: Role::Knight })
    } else if role == 3 {
        Some(Piece { color, role: Role::Bishop })
    } else if role == 4 {
        Some(Piece { color, role: Role::Rook })
    } else if role == 5 {
        Some(Piece { color, role: Role::Queen })
    } else if role == 6 {
        Some(Piece { color, role: Role::King })
    } else {
        None
    }
}

/// The nibble of `side` in one piece byte: white in the high nibble,
/// black in the low one.
pub open spec fn spec_side_nibble(byte: int, side: Color) -> int {
    match side {
        Color::White => byte / 16,
        Color::Black => byte % 16,
    }
}

/// Decode one nibble of the piece list.
fn decode_piece(nibble: u8) -> (r: Option<Piece>)
    requires
        nibble < 16,
    ensures
        r == spec_decode_piece(nibble as int),
{
    let color = if nibble >= 8 {
        Color::Black
    } else {
        Color::White
    };
    match nibble % 8 {
        1 => Some(Piece { color, role: Role::Pawn }),
        2 => Some(Piece { color, role: Role::Knight }),
        3 => Some(Piece { color, role: Role::Bishop }),
        4 => Some(Piece { color, role: Role::Rook }),
        5 => Some(Piece { color, role: Role::Queen }),
        6 => Some(Piece { color, role: Role::King }),
        _ => None,
    }
}

/// Parse one side's piece list from the fixed-width header encoding,
/// starting at byte 6: one piece per byte until a zero byte, the limit,
/// or the end of the range.
pub fn parse_pieces(bytes: &Vec<u8>, side: Color) -> (r: Result<Vec<Piece>, ProbeError>)
    requires
        bytes@.len() >= 6,
    ensures
        r is Ok ==> {
            let v = r->Ok_0@;
            &&& v.len() <= MAX_PIECES
            &&& 6 + v.len() <= bytes@.len()
            &&& forall|k: int| 0 <= k < v.len() ==> #[trigger] bytes@[6 + k] != 0
            &&& forall|k: int|
                0 <= k < v.len() ==> Some(#[trigger] v[k]) == spec_decode_piece(
                    spec_side_nibble(bytes@[6 + k] as int, side),
                )
            &&& (v.len() == MAX_PIECES || 6 + v.len() == bytes@.len() || bytes@[6 + v.len() as int] == 0)
        },
        r is Err ==> r->Err_0 == ProbeError::CorruptedTable,
        r is Err <==> exists|k: int|
            #![trigger bytes@[6 + k]]
            {
                &&& 0 <= k < MAX_PIECES
                &&& 6 + k < bytes@.len()
                &&& bytes@[6 + k] != 0
                &&& spec_decode_piece(spec_side_nibble(bytes@[6 + k] as int, side)) is None
                &&& forall|j: int|
                    0 <= j < k ==> #[trigger] bytes@[6 + j] != 0 && spec_decode_piece(
                        spec_side_nibble(bytes@[6 + j] as int, side),
                    ) is Some
            },
{
    let mut v: Vec<Piece> = Vec::new();
    let mut i: usize = 0;
    while i < MAX_PIECES && 6 + i < bytes.len()
        invariant
            bytes@.len() >= 6,
            v@.len() == i,
            i <= MAX_PIECES,
            6 + i <= bytes@.len(),
            forall|k: int| 0 <= k < i ==> #[trigger] bytes@[6 + k] != 0,
            forall|k: int|
                0 <= k < i ==> Some(#[trigger] v@[k]) == spec_decode_piece(
                    spec_side_nibble(bytes@[6 + k] as int, side),
                ),
            forall|k: int|
                #![trigger bytes@[6 + k]]
                0 <= k < i ==> spec_decode_piece(spec_side_nibble(bytes@[6 + k] as int, side))
                    is Some,
        decreases MAX_PIECES - i,
    {
        let b = read_u8(bytes, 6 + i);
        if b == 0 {
            return Ok(v);
        }
        let nibble = match side {
            Color::White => b / 16,
            Color::Black => b % 16,
        };
        match decode_piece(nibble) {
            Some(p) => v.push(p),
            None => {
                return Err(ProbeError::CorruptedTable);
            },
        }
        i = i + 1;
    }
    Ok(v)
}

/// One opened pawnless WDL table over an immutable byte range.
pub struct Table {
    /// The raw file bytes.
    pub bytes: Vec<u8>,
    /// The table's material key, from the white-oriented piece list.
    pub material: Material,
    /// Whether both sides hold the same material; such a file stores a
    /// single side.
    pub symmetric: bool,
    /// The per-side decompression data, in file order.
    pub sides: Vec<PairsData>,
}

impl Table {
    /// What construction establishes: every side's header and regions
    /// are in range and consistent, and the material is of the
    /// supported class.
    pub open spec fn wf(self) -> bool {
        &&& self.symmetric == self.material.spec_is_symmetric()
        &&& self.sides@.len() == (if self.symmetric {
            1int
        } else {
            2int
        })
        &&& forall|i: int|
            0 <= i < self.sides@.len() ==> {
                let pd = #[trigger] self.sides@[i];
                &&& pd.wf_header(self.bytes@)
                &&& pd.wf_regions(self.bytes@)
                &&& pd.groups.wf(false)
            }
        &&& self.material == Material::spec_from_pieces(self.sides@[0].groups.pieces@)
        &&& self.material.spec_unique_pieces() >= 3
        &&& !self.material.spec_has_pawns()
    }

    /// Open a pawnless WDL table over the given bytes. Fails with
    /// `Magic` when the first four bytes are not the WDL magic, and
    /// with `CorruptedTable` on any malformed or unsupported header.
    #[verifier::rlimit(100)]
    pub fn new(bytes: Vec<u8>) -> (r: Result<Table, ProbeError>)
        ensures
            r is Ok ==> r->Ok_0.wf() && r->Ok_0.bytes@ == bytes@,
            r is Ok ==> {
                let t = r->Ok_0;
                let n = t.sides@[0].groups.pieces@.len();
                &&& 3 <= n <= MAX_PIECES
                &&& 6 + n <= bytes@.len()
                &&& forall|k: int|
                    0 <= k < n ==> Some(#[trigger] t.sides@[0].groups.pieces@[k])
                        == spec_decode_piece(spec_side_nibble(bytes@[6 + k] as int, Color::White))
                &&& (t.sides@.len() == 2 ==> t.sides@[1].groups.pieces@.len() == n
                    && forall|k: int|
                        0 <= k < n ==> Some(#[trigger] t.sides@[1].groups.pieces@[k])
                            == spec_decode_piece(
                            spec_side_nibble(bytes@[6 + k] as int, Color::Black),
                        ))
            },
            r is Err ==> (r->Err_0 == ProbeError::CorruptedTable || r->Err_0 matches
                ProbeError::Magic { .. }),
    {
        if bytes.len() < 6 {
            return Err(ProbeError::CorruptedTable);
        }
        let magic = read_u32_le(&bytes, 0);
        if magic != WDL_MAGIC_LE {
            return Err(ProbeError::Magic { magic });
        }
        let layout = read_u8(&bytes, 4);
        let split = layout & 0x01 != 0;
        let has_pawns = layout & 0x02 != 0;
        if has_pawns {
            // only the pawnless encoding is supported
            return Err(ProbeError::CorruptedTable);
        }
        let order_byte = read_u8(&bytes, 5);
        let white_pieces = match parse_pieces(&bytes, Color::White) {
            Ok(v) => v,
            Err(e) => {
                return Err(e);
            },
        };
        let black_pieces = match parse_pieces(&bytes, Color::Black) {
            Ok(v) => v,
            Err(e) => {
                return Err(e);
            },
        };
        let count = white_pieces.len();
        if black_pieces.len() != count || count < 3 {
            return Err(ProbeError::CorruptedTable);
        }
        let material = Material::from_pieces(&white_pieces);
        if material.has_pawns() {
            return Err(ProbeError::CorruptedTable);
        }
        if material.unique_pieces() < 3 {
            // the two-king and like-pair leading encodings are not
            // supported by this probe
            return Err(ProbeError::CorruptedTable);
        }
        let symmetric = material.is_symmetric();
        if split == symmetric {
            return Err(ProbeError::CorruptedTable);
        }
        let mut ptr: usize = 6 + count;
        if ptr % 2 == 1 {
            ptr = ptr + 1;
        }
        if ptr > bytes.len() {
            return Err(ProbeError::CorruptedTable);
        }

        let groups0 = match GroupData::new(white_pieces, order_byte % 16, false) {
            Ok(g) => g,
            Err(e) => {
                return Err(e);
            },
        };
        let size0 = groups0.factors[groups0.lens.len()];
        let (mut s0, next0) = match PairsData::parse(&bytes, ptr, groups0, size0) {
            Ok(x) => x,
            Err(e) => {
                return Err(e);
            },
        };
        ptr = next0;
        let mut s1_opt: Option<PairsData> = None;
        if split {
            let groups1 = match GroupData::new(black_pieces, order_byte / 16, false) {
                Ok(g) => g,
                Err(e) => {
                    return Err(e);
                },
            };
            let size1 = groups1.factors[groups1.lens.len()];
            let (s1, next1) = match PairsData::parse(&bytes, ptr, groups1, size1) {
                Ok(x) => x,
                Err(e) => {
                    return Err(e);
                },
            };
            ptr = next1;
            s1_opt = Some(s1);
        }

        // region layout: the two sparse indexes, then the two
        // block-length tables, then the 64-byte-aligned data payloads
        let mut s1_single = true;
        match &s1_opt {
            Some(s1) => {
                s1_single = s1.flags & FLAG_SINGLE_VALUE != 0;
            },
            None => (),
        }
        let s0_single = s0.flags & FLAG_SINGLE_VALUE != 0;

        if !s0_single {
            match region(&bytes, ptr, 6, s0.sparse_count) {
                Some(next) => {
                    s0.sparse_index = ptr;
                    ptr = next;
                },
                None => {
                    return Err(ProbeError::CorruptedTable);
                },
            }
        }
        if !s1_single {
            let mut s1 = match s1_opt {
                Some(x) => x,
                None => {
                    return Err(ProbeError::CorruptedTable);
                },
            };
            match region(&bytes, ptr, 6, s1.sparse_count) {
                Some(next) => {
                    s1.sparse_index = ptr;
                    ptr = next;
                },
                None => {
                    return Err(ProbeError::CorruptedTable);
                },
            }
            s1_opt = Some(s1);
        }
        if !s0_single {
            match region(&bytes, ptr, 2, s0.block_length_size) {
                Some(next) => {
                    s0.block_lengths = ptr;
                    ptr = next;
                },
                None => {
                    return Err(ProbeError::CorruptedTable);
                },
            }
        }
        if !s1_single {
            let mut s1 = match s1_opt {
                Some(x) => x,
                None => {
                    return Err(ProbeError::CorruptedTable);
                },
            };
            match region(&bytes, ptr, 2, s1.block_length_size) {
                Some(next) => {
                    s1.block_lengths = ptr;
                    ptr = next;
                },
                None => {
                    return Err(ProbeError::CorruptedTable);
                },
            }
            s1_opt = Some(s1);
        }
        if !s0_single {
            ptr = match align64(&bytes, ptr) {
                Some(p) => p,
                None => {
                    return Err(ProbeError::CorruptedTable);
                },
            };
            match region(&bytes, ptr, s0.blocks_num as u64, s0.block_size) {
                Some(next) => {
                    s0.data = ptr;
                    ptr = next;
                },
                None => {
                    return Err(ProbeError::CorruptedTable);
                },
            }
        }
        if !s1_single {
            let mut s1 = match s1_opt {
                Some(x) => x,
                None => {
                    return Err(ProbeError::CorruptedTable);
                },
            };
            ptr = match align64(&bytes, ptr) {
                Some(p) => p,
                None => {
                    return Err(ProbeError::CorruptedTable);
                },
            };
            match region(&bytes, ptr, s1.blocks_num as u64, s1.block_size) {
                Some(next) => {
                    s1.data = ptr;
                    ptr = next;
                },
                None => {
                    return Err(ProbeError::CorruptedTable);
                },
            }
            s1_opt = Some(s1);
        }

        let mut sides: Vec<PairsData> = Vec::new();
        sides.push(s0);
        if split {
            match s1_opt {
                Some(s1) => sides.push(s1),
                None => {
                    return Err(ProbeError::CorruptedTable);
                },
            }
        }
        Ok(Table { bytes, material, symmetric, sides })
    }
}

/// Reserve `count` entries of `entry` bytes each at `ptr`: the offset
/// just past them, or nothing when they do not fit in the byte range.
fn region(bytes: &Vec<u8>, ptr: usize, entry: u64, count: u64) -> (r: Option<usize>)
    requires
        ptr <= bytes@.len(),
    ensures
        r is Some ==> {
            &&& ptr + entry * count == r->0
            &&& r->0 <= bytes@.len()
        },
        r is None ==> ptr + entry * count > bytes@.len(),
{
    let _n = bytes.len();
    let need = match entry.checked_mul(count) {
        Some(v) => v,
        None => {
            proof {
                assert(entry * count > u64::MAX);
            }
            return None;
        },
    };
    proof {
        assert(need == entry * count);
    }
    if need > (bytes.len() - ptr) as u64 {
        proof {
            assert(ptr + entry * count > bytes@.len());
        }
        return None;
    }
    Some(ptr + need as usize)
}

/// Round `ptr` up to the next multiple of 64, staying inside the byte
/// range.
fn align64(bytes: &Vec<u8>, ptr: usize) -> (r: Option<usize>)
    requires
        ptr <= bytes@.len(),
    ensures
        r is Some ==> ptr <= r->0 <= bytes@.len() && r->0 % 64 == 0 && r->0 < ptr + 64,
        r is None ==> bytes@.len() < ptr + (64 - ptr % 64) || ptr % 64 == 0,
{
    let rem = ptr % 64;
    if rem == 0 {
        return Some(ptr);
    }
    let pad = 64 - rem;
    if pad > bytes.len() - ptr {
        return None;
    }
    Some(ptr + pad)
}


/// A square sequence mirrored horizontally.
pub open spec fn mirror_h_seq(s: Seq<u8>) -> Seq<u8> {
    Seq::new(s.len(), |j: int| spec_mirror_h(s[j] as int) as u8)
}

/// A square sequence mirrored vertically.
pub open spec fn mirror_v_seq(s: Seq<u8>) -> Seq<u8> {
    Seq::new(s.len(), |j: int| spec_mirror_v(s[j] as int) as u8)
}

/// A square sequence mirrored across the long diagonal from index `i`
/// on.
pub open spec fn mirror_d_from(s: Seq<u8>, i: int) -> Seq<u8> {
    Seq::new(
        s.len(),
        |j: int|
            if j < i {
                s[j]
            } else {
                spec_mirror_d(s[j] as int) as u8
            },
    )
}

/// The horizontal fold: mirror every square when the leading square is
/// in the right half of the board.
pub open spec fn spec_h_fold(s: Seq<u8>) -> Seq<u8> {
    if sq_file(s[0] as int) >= 4 {
        mirror_h_seq(s)
    } else {
        s
    }
}

/// The vertical fold: mirror every square when the leading square is
/// in the top half of the board.
pub open spec fn spec_v_fold(s: Seq<u8>) -> Seq<u8> {
    if sq_rank(s[0] as int) >= 4 {
        mirror_v_seq(s)
    } else {
        s
    }
}

/// The diagonal fold: walk the leading group past diagonal squares;
/// the first off-diagonal square above the diagonal triggers a
/// diagonal mirror of every square from there on.
pub open spec fn spec_d_fold(s: Seq<u8>, lead: int, i: int) -> Seq<u8>
    decreases lead - i,
{
    if i < 0 || i >= lead || i >= s.len() {
        s
    } else if !spec_off_diag(s[i] as int) {
        spec_d_fold(s, lead, i + 1)
    } else if sq_rank(s[i] as int) > sq_file(s[i] as int) {
        mirror_d_from(s, i)
    } else {
        s
    }
}

/// The canonical form of a square tuple under the three pawnless
/// folds.
pub open spec fn spec_canonical(s: Seq<u8>, lead: int) -> Seq<u8> {
    spec_d_fold(spec_v_fold(spec_h_fold(s)), lead, 0)
}

/// Fold a square tuple into its canonical form; the leading square
/// lands in the a1-d4 quarter.
pub fn canonicalize(v: &mut Vec<u8>, lead: usize)
    requires
        1 <= lead <= old(v)@.len(),
        old(v)@.len() <= 7,
        forall|j: int| 0 <= j < old(v)@.len() ==> old(v)@[j] < 64,
    ensures
        final(v)@ == spec_canonical(old(v)@, lead as int),
        final(v)@.len() == old(v)@.len(),
        forall|j: int| 0 <= j < final(v)@.len() ==> final(v)@[j] < 64,
        sq_file(final(v)@[0] as int) < 4,
        sq_rank(final(v)@[0] as int) < 4,
{
    let n = v.len();
    let ghost orig = v@;
    if file_of(v[0]) >= 4 {
        let mut j: usize = 0;
        while j < n
            invariant
                n == v@.len(),
                orig.len() == n,
                j <= n,
                forall|t: int| 0 <= t < n ==> v@[t] < 64,
                forall|t: int| 0 <= t < j ==> v@[t] == mirror_h_seq(orig)[t],
                forall|t: int| j <= t < n ==> v@[t] == orig[t],
            decreases n - j,
        {
            proof {
                assert(v@[j as int] == orig[j as int]);
            }
            let m = mirror_h(v[j]);
            v.set(j, m);
            proof {
                assert(v@[j as int] == mirror_h_seq(orig)[j as int]);
            }
            j = j + 1;
        }
        proof {
            assert(v@ =~= mirror_h_seq(orig));
        }
    }
    proof {
        assert(v@ == spec_h_fold(orig));
    }
    let ghost s1 = v@;
    if rank_of(v[0]) >= 4 {
        let mut j: usize = 0;
        while j < n
            invariant
                n == v@.len(),
                s1.len() == n,
                j <= n,
                forall|t: int| 0 <= t < n ==> v@[t] < 64,
                forall|t: int| 0 <= t < j ==> v@[t] == mirror_v_seq(s1)[t],
                forall|t: int| j <= t < n ==> v@[t] == s1[t],
            decreases n - j,
        {
            proof {
                assert(v@[j as int] == s1[j as int]);
            }
            let m = mirror_v(v[j]);
            v.set(j, m);
            proof {
                assert(v@[j as int] == mirror_v_seq(s1)[j as int]);
            }
            j = j + 1;
        }
        proof {
            assert(v@ =~= mirror_v_seq(s1));
        }
    }
    proof {
        assert(v@ == spec_v_fold(s1));
    }
    let ghost s2 = v@;
    let mut i: usize = 0;
    let mut folded = false;
    while i < lead && !folded
        invariant
            n == v@.len(),
            lead <= n,
            i <= lead,
            forall|t: int| 0 <= t < n ==> v@[t] < 64,
            !folded ==> v@ == s2 && spec_d_fold(s2, lead as int, 0) == spec_d_fold(
                s2,
                lead as int,
                i as int,
            ),
            !folded ==> forall|t: int| 0 <= t < i ==> !spec_off_diag(s2[t] as int),
            folded ==> v@ == spec_d_fold(s2, lead as int, 0),
        decreases n - i + (if folded {
            0int
        } else {
            1int
        }),
    {
        if off_diag(v[i]) {
            if rank_of(v[i]) > file_of(v[i]) {
                let mut j: usize = i;
                let ghost sb = v@;
                while j < n
                    invariant
                        n == v@.len(),
                        sb.len() == n,
                        i <= j <= n,
                        forall|t: int| 0 <= t < n ==> v@[t] < 64,
                        forall|t: int| i <= t < j ==> v@[t] == mirror_d_from(sb, i as int)[t],
                        forall|t: int| 0 <= t < i ==> v@[t] == sb[t],
                        forall|t: int| j <= t < n ==> v@[t] == sb[t],
                    decreases n - j,
                {
                    proof {
                        assert(v@[j as int] == sb[j as int]);
                    }
                    let m = mirror_d(v[j]);
                    v.set(j, m);
                    proof {
                        assert(v@[j as int] == mirror_d_from(sb, i as int)[j as int]);
                    }
                    j = j + 1;
                }
                proof {
                    assert(v@ =~= mirror_d_from(sb, i as int));
                }
            }
            folded = true;
        } else {
            i = i + 1;
        }
    }
    proof {
        if !folded {
            assert(spec_d_fold(s2, lead as int, i as int) == s2);
        }
        assert(v@ == spec_canonical(orig, lead as int));
        lemma_canonical_quarter(orig, lead as int);
    }
}

/// After the three folds the leading square lies in the a1-d4 quarter.
pub proof fn lemma_canonical_quarter(s: Seq<u8>, lead: int)
    requires
        1 <= lead <= s.len(),
        forall|j: int| 0 <= j < s.len() ==> s[j] < 64,
    ensures
        sq_file(spec_canonical(s, lead)[0] as int) < 4,
        sq_rank(spec_canonical(s, lead)[0] as int) < 4,
        spec_canonical(s, lead).len() == s.len(),
        forall|j: int| 0 <= j < s.len() ==> spec_canonical(s, lead)[j] < 64,
{
    let s1 = spec_h_fold(s);
    let s2 = spec_v_fold(s1);
    lemma_d_fold_shape(s2, lead, 0);
    assert(sq_file(s[0] as int) < 8 && sq_rank(s[0] as int) < 8);
    assert(sq_file(s1[0] as int) < 4);
    assert(sq_rank(s2[0] as int) < 4 && sq_file(s2[0] as int) < 4);
}

/// The diagonal fold keeps length, square bounds, and swaps at most
/// the rank and file of each square.
proof fn lemma_d_fold_shape(s: Seq<u8>, lead: int, i: int)
    requires
        forall|j: int| 0 <= j < s.len() ==> s[j] < 64,
    ensures
        spec_d_fold(s, lead, i).len() == s.len(),
        forall|j: int| 0 <= j < s.len() ==> spec_d_fold(s, lead, i)[j] < 64,
        s.len() > 0 ==> {
            let r = spec_d_fold(s, lead, i)[0];
            (sq_file(r as int) == sq_file(s[0] as int) && sq_rank(r as int) == sq_rank(
                s[0] as int,
            )) || (sq_file(r as int) == sq_rank(s[0] as int) && sq_rank(r as int) == sq_file(
                s[0] as int,
            ))
        },
    decreases lead - i,
{
    if i < 0 || i >= lead || i >= s.len() {
    } else if !spec_off_diag(s[i] as int) {
        lemma_d_fold_shape(s, lead, i + 1);
    } else {
    }
}


/// The index of the canonical leading-group squares among the 31332
/// pawnless three-piece configurations: off-diagonal leading squares
/// rank through the triangle map; configurations whose leading squares
/// sit on the diagonal follow in their own blocks.
pub open spec fn spec_lead_index(s: Seq<u8>) -> int {
    let a = s[0] as int;
    let b = s[1] as int;
    let c = s[2] as int;
    let i = if b > a {
        1int
    } else {
        0int
    };
    let j = (if c > a {
        1int
    } else {
        0int
    }) + (if c > b {
        1int
    } else {
        0int
    });
    if spec_off_diag(a) {
        spec_triangle(a) * 3906 + (b - i) * 62 + (c - j)
    } else if spec_off_diag(b) {
        23436 + spec_diag(a) * 1736 + spec_lower(b) * 62 + (c - j)
    } else if spec_off_diag(c) {
        30380 + spec_diag(a) * 196 + (spec_diag(b) - i) * 28 + spec_lower(c)
    } else {
        31164 + spec_diag(a) * 42 + (spec_diag(b) - i) * 6 + (spec_diag(c) - j)
    }
}

/// Rank the canonical leading squares; see `spec_lead_index`. Fails on
/// square tuples that no position produces.
pub fn leading_index(v: &Vec<u8>) -> (r: Result<u32, ProbeError>)
    requires
        v@.len() >= 3,
        forall|t: int| 0 <= t < v@.len() ==> v@[t] < 64,
        sq_file(v@[0] as int) < 4,
        sq_rank(v@[0] as int) < 4,
    ensures
        r is Ok ==> r->Ok_0 == spec_lead_index(v@) && r->Ok_0 < 31332,
        v@[0] != v@[1] && v@[0] != v@[2] && v@[1] != v@[2] ==> r is Ok,
        r is Err ==> r->Err_0 == ProbeError::CorruptedTable,
{
    let a = v[0];
    let b = v[1];
    let c = v[2];
    proof {
        // the leading square sits in the a1-d4 quarter
        assert(a as int == 8 * sq_rank(a as int) + sq_file(a as int));
        assert(b as int == 8 * sq_rank(b as int) + sq_file(b as int));
        assert(c as int == 8 * sq_rank(c as int) + sq_file(c as int));
        assert(a <= 27);
    }
    let i: u32 = if b > a {
        1
    } else {
        0
    };
    let j: u32 = (if c > a {
        1u32
    } else {
        0u32
    }) + (if c > b {
        1u32
    } else {
        0u32
    });
    let idx: u32;
    if off_diag(a) {
        let t = triangle_of(a);
        if (b as u32) < i || (c as u32) < j {
            return Err(ProbeError::CorruptedTable);
        }
        idx = t as u32 * 3906 + (b as u32 - i) * 62 + (c as u32 - j);
        proof {
            if a != b && a != c && b != c {
                assert(b as u32 - i <= 62);
                assert(c as u32 - j <= 61);
                assert(idx <= 5 * 3906 + 62 * 62 + 61);
            }
        }
    } else if off_diag(b) {
        let da = diag_of(a);
        let lb = lower_of(b);
        if (c as u32) < j {
            return Err(ProbeError::CorruptedTable);
        }
        idx = 23436 + da as u32 * 1736 + lb as u32 * 62 + (c as u32 - j);
        proof {
            if a != b && a != c && b != c {
                assert(da <= 3);
                assert(c as u32 - j <= 61);
                assert(idx <= 23436 + 3 * 1736 + 27 * 62 + 61);
            }
        }
    } else if off_diag(c) {
        let da = diag_of(a);
        let db = diag_of(b);
        let lc = lower_of(c);
        if (db as u32) < i {
            return Err(ProbeError::CorruptedTable);
        }
        idx = 30380 + da as u32 * 196 + (db as u32 - i) * 28 + lc as u32;
        proof {
            assert(b as int == 9 * sq_rank(b as int));
            if a != b && a != c && b != c {
                assert(da <= 3);
                assert(db as u32 - i <= 6);
                assert(idx <= 30380 + 3 * 196 + 6 * 28 + 27);
            }
        }
    } else {
        let da = diag_of(a);
        let db = diag_of(b);
        let dc = diag_of(c);
        proof {
            assert(b as int == 9 * sq_rank(b as int));
            assert(c as int == 9 * sq_rank(c as int));
        }
        if (db as u32) < i || (dc as u32) < j {
            return Err(ProbeError::CorruptedTable);
        }
        idx = 31164 + da as u32 * 42 + (db as u32 - i) * 6 + (dc as u32 - j);
        proof {
            if a != b && a != c && b != c {
                assert(da <= 3);
                assert(db as u32 - i <= 6);
                assert(dc as u32 - j <= 5);
                assert(idx <= 31164 + 3 * 42 + 6 * 6 + 5);
            }
        }
    }
    if idx >= 31332 {
        return Err(ProbeError::CorruptedTable);
    }
    Ok(idx)
}

/// A copy of `v[start .. start + len]` sorted ascending.
fn sorted_copy(v: &Vec<u8>, start: usize, len: usize) -> (r: Vec<u8>)
    requires
        start + len <= v@.len(),
        forall|t: int| start <= t < start + len ==> v@[t] < 64,
    ensures
        r@.len() == len,
        forall|t: int| 0 <= t < len ==> r@[t] < 64,
        forall|t1: int, t2: int| 0 <= t1 < t2 < len ==> r@[t1] <= r@[t2],
        r@.to_multiset() == v@.subrange(start as int, (start + len) as int).to_multiset(),
{
    broadcast use vstd::seq_lib::group_to_multiset_ensures;

    let ghost sub = v@.subrange(start as int, (start + len) as int);
    let mut work: Vec<u8> = Vec::new();
    let mut t: usize = 0;
    while t < len
        invariant
            start + len <= v@.len(),
            forall|u: int| start <= u < start + len ==> v@[u] < 64,
            t <= len,
            sub == v@.subrange(start as int, (start + len) as int),
            work@ == sub.subrange(0, t as int),
        decreases len - t,
    {
        let _n = v.len();
        work.push(v[start + t]);
        proof {
            assert(work@ =~= sub.subrange(0, t + 1));
        }
        t = t + 1;
    }
    proof {
        assert(work@ =~= sub);
    }
    let mut out: Vec<u8> = Vec::new();
    while work.len() > 0
        invariant
            out@.len() + work@.len() == len,
            forall|u: int| 0 <= u < out@.len() ==> out@[u] < 64,
            forall|u: int| 0 <= u < work@.len() ==> work@[u] < 64,
            forall|t1: int, t2: int| 0 <= t1 < t2 < out@.len() ==> out@[t1] <= out@[t2],
            forall|t1: int, t2: int|
                0 <= t1 < out@.len() && 0 <= t2 < work@.len() ==> out@[t1] <= work@[t2],
            out@.to_multiset().add(work@.to_multiset()) == sub.to_multiset(),
        decreases work@.len(),
    {
        broadcast use vstd::seq_lib::group_to_multiset_ensures;

        let mut mi: usize = 0;
        let mut t: usize = 1;
        while t < work.len()
            invariant
                work@.len() > 0,
                mi < work@.len(),
                t <= work@.len(),
                forall|u: int| 0 <= u < t ==> work@[mi as int] <= work@[u],
            decreases work@.len() - t,
        {
            if work[t] < work[mi] {
                mi = t;
            }
            t = t + 1;
        }
        let x = work[mi];
        let ghost oms = out@.to_multiset();
        let ghost wms = work@.to_multiset();
        proof {
            assert(work@[mi as int] == x);
            assert(work@.contains(x));
            assert(wms.count(x) > 0);
        }
        out.push(x);
        work.remove(mi);
        proof {
            assert(out@.to_multiset() =~= oms.insert(x));
            assert(work@.to_multiset() =~= wms.remove(x));
            assert(out@.to_multiset().add(work@.to_multiset()) =~= sub.to_multiset());
        }
    }
    proof {
        assert(work@ =~= Seq::<u8>::empty());
        assert(work@.to_multiset() =~= Multiset::<u8>::empty());
        assert(out@.to_multiset() =~= sub.to_multiset());
    }
    out
}

/// The WDL value a stored byte encodes.
pub fn wdl_from_byte(b: u8) -> (r: Result<Wdl, ProbeError>)
    ensures
        b == 0 ==> r == Ok::<Wdl, ProbeError>(Wdl::Loss),
        b == 1 ==> r == Ok::<Wdl, ProbeError>(Wdl::BlessedLoss),
        b == 2 ==> r == Ok::<Wdl, ProbeError>(Wdl::Draw),
        b == 3 ==> r == Ok::<Wdl, ProbeError>(Wdl::CursedWin),
        b == 4 ==> r == Ok::<Wdl, ProbeError>(Wdl::Win),
        b > 4 ==> r == Err::<Wdl, ProbeError>(ProbeError::CorruptedTable),
        r is Ok ==> r->Ok_0.spec_byte() == b,
{
    match b {
        0 => Ok(Wdl::Loss),
        1 => Ok(Wdl::BlessedLoss),
        2 => Ok(Wdl::Draw),
        3 => Ok(Wdl::CursedWin),
        4 => Ok(Wdl::Win),
        _ => Err(ProbeError::CorruptedTable),
    }
}

/// The first code length whose threshold is at or below the register,
/// searching upward from `i`; the last threshold of a well-formed
/// header is zero, so the search ends there at the latest.
pub open spec fn spec_code_len(base: Seq<u64>, buf: u64, i: int) -> int
    decreases base.len() - i,
{
    if i >= base.len() - 1 {
        base.len() - 1
    } else if buf >= base[i] {
        i
    } else {
        spec_code_len(base, buf, i + 1)
    }
}

/// Walk block lengths backward while the value offset is negative.
pub open spec fn spec_walk_back(bytes: Seq<u8>, pd: PairsData, block: int, offset: int) -> Option<
    (int, int),
>
    decreases block,
{
    if offset >= 0 {
        Some((block, offset))
    } else if block <= 0 {
        None
    } else if block - 1 >= pd.block_length_size {
        None
    } else {
        spec_walk_back(
            bytes,
            pd,
            block - 1,
            offset + spec_u16_le(bytes, pd.block_lengths + 2 * (block - 1)) + 1,
        )
    }
}

/// Walk block lengths forward until the offset fits in its block.
pub open spec fn spec_walk_fwd(bytes: Seq<u8>, pd: PairsData, block: int, offset: int) -> Option<
    (int, int),
>
    decreases offset,
{
    if offset < 0 {
        None
    } else if block >= pd.block_length_size {
        None
    } else if offset <= spec_u16_le(bytes, pd.block_lengths + 2 * block) {
        Some((block, offset))
    } else {
        spec_walk_fwd(
            bytes,
            pd,
            block + 1,
            offset - spec_u16_le(bytes, pd.block_lengths + 2 * block) - 1,
        )
    }
}

/// Decode symbols from the big-endian bit stream, consuming one symbol
/// expansion per step, until the wanted value falls inside the current
/// symbol.
pub open spec fn spec_huff(
    bytes: Seq<u8>,
    pd: PairsData,
    offset: int,
    ptr: int,
    buf: u64,
    buf_size: int,
) -> Option<(int, int)>
    decreases offset,
{
    let i = spec_code_len(pd.base@, buf, 0);
    let l = pd.min_symlen + i;
    let sym = spec_u16_le(bytes, pd.lowest_sym + 2 * i) + (((buf - pd.base@[i]) as u64) >> ((64
        - l) as u64));
    if offset < 0 || sym >= pd.symlen@.len() {
        None
    } else if offset <= pd.symlen@[sym] {
        Some((sym, offset))
    } else {
        let offset2 = offset - pd.symlen@[sym] - 1;
        let buf2 = buf << (l as u64);
        let bs2 = buf_size - l;
        if bs2 <= 32 {
            if bytes.len() < 4 || ptr > bytes.len() - 4 {
                None
            } else {
                spec_huff(
                    bytes,
                    pd,
                    offset2,
                    ptr + 4,
                    buf2 | ((spec_u32_be(bytes, ptr) as u64) << ((32 - bs2) as u64)),
                    bs2 + 32,
                )
            }
        } else {
            spec_huff(bytes, pd, offset2, ptr, buf2, bs2)
        }
    }
}

/// Descend the symbol expansion tree to the terminal symbol holding
/// the wanted expansion position. The fuel bounds the walk; any fuel
/// above the symbol's expansion length gives the same answer.
pub open spec fn spec_descend(bytes: Seq<u8>, pd: PairsData, sym: int, offset: int, fuel: nat) -> Option<
    int,
>
    decreases fuel,
{
    if !(0 <= sym < pd.symlen@.len()) {
        None
    } else if pd.symlen@[sym] == 0 {
        Some(sym)
    } else if fuel == 0 {
        None
    } else {
        let l = crate::pairs::spec_left(bytes, pd.btree as int, sym);
        let r = crate::pairs::spec_right(bytes, pd.btree as int, sym);
        if offset <= pd.symlen@[l] {
            spec_descend(bytes, pd, l, offset, (fuel - 1) as nat)
        } else {
            spec_descend(bytes, pd, r, offset - pd.symlen@[l] - 1, (fuel - 1) as nat)
        }
    }
}

/// The fuel never runs out on a well-formed tree: any two fuels above
/// the symbol's expansion length agree.
proof fn lemma_descend_fuel(
    bytes: Seq<u8>,
    pd: PairsData,
    sym: int,
    offset: int,
    f1: nat,
    f2: nat,
)
    requires
        pd.wf_header(bytes),
        !pd.spec_single(),
        0 <= sym < pd.symlen@.len(),
        f1 > pd.symlen@[sym],
        f2 > pd.symlen@[sym],
    ensures
        spec_descend(bytes, pd, sym, offset, f1) == spec_descend(bytes, pd, sym, offset, f2),
    decreases f1,
{
    pd.lemma_node_ok(bytes, sym);
    if pd.symlen@[sym] == 0 {
    } else {
        let l = crate::pairs::spec_left(bytes, pd.btree as int, sym);
        let r = crate::pairs::spec_right(bytes, pd.btree as int, sym);
        if offset <= pd.symlen@[l] {
            lemma_descend_fuel(bytes, pd, l, offset, (f1 - 1) as nat, (f2 - 1) as nat);
        } else {
            lemma_descend_fuel(
                bytes,
                pd,
                r,
                offset - pd.symlen@[l] - 1,
                (f1 - 1) as nat,
                (f2 - 1) as nat,
            );
        }
    }
}

/// The stored byte the format holds at table index `idx` of one side:
/// the sparse index seeds a block and offset, the block lengths walk
/// to the exact block, and the bit stream decodes down to one terminal
/// symbol's byte. Nothing when the stored data is malformed.
pub open spec fn spec_decompress(bytes: Seq<u8>, pd: PairsData, idx: u64) -> Option<u8> {
    if pd.spec_single() {
        Some(pd.single_value)
    } else {
        let k = idx / pd.span;
        if k >= pd.sparse_count {
            None
        } else {
            let sp = pd.sparse_index + 6 * k;
            spec_dec_from_walks(
                bytes,
                pd,
                spec_u32_le(bytes, sp),
                spec_u16_le(bytes, sp + 4) + (idx % pd.span) - pd.span / 2,
            )
        }
    }
}

/// The model's tail from a resolved terminal-descent start.
pub open spec fn spec_dec_from_sym(bytes: Seq<u8>, pd: PairsData, sym: int, offset: int) -> Option<
    u8,
> {
    match spec_descend(bytes, pd, sym, offset, 256) {
        None => None,
        Some(s) => Some(bytes[pd.btree + 3 * s]),
    }
}

/// The model's tail from a resolved block and in-block offset.
pub open spec fn spec_dec_from_block(bytes: Seq<u8>, pd: PairsData, block: int, offset: int) -> Option<
    u8,
> {
    if block >= pd.blocks_num {
        None
    } else {
        let ptr = pd.data + block * pd.block_size;
        match spec_huff(bytes, pd, offset, ptr + 8, spec_u64_be(bytes, ptr) as u64, 64) {
            None => None,
            Some(sd) => spec_dec_from_sym(bytes, pd, sd.0, sd.1),
        }
    }
}

/// The model's tail from the sparse-index seed, before the block walk.
pub open spec fn spec_dec_from_walks(bytes: Seq<u8>, pd: PairsData, block: int, offset: int) -> Option<
    u8,
> {
    match spec_walk_back(bytes, pd, block, offset) {
        None => None,
        Some(p) => match spec_walk_fwd(bytes, pd, p.0, p.1) {
            None => None,
            Some(q) => spec_dec_from_block(bytes, pd, q.0, q.1),
        },
    }
}

/// Decompress the stored byte at table index `idx` of one side: locate
/// the compressed block through the sparse index, walk block lengths
/// to the exact value offset, then decode symbols from the big-endian
/// bit stream and descend the symbol tree to the stored byte.
#[verifier::rlimit(100)]
#[verifier::spinoff_prover]
pub fn decompress(bytes: &Vec<u8>, pd: &PairsData, idx: u64) -> (r: Result<u8, ProbeError>)
    requires
        pd.wf_header(bytes@),
        pd.wf_regions(bytes@),
    ensures
        pd.spec_single() ==> r == Ok::<u8, ProbeError>(pd.single_value),
        r is Ok <==> spec_decompress(bytes@, *pd, idx) is Some,
        r is Ok ==> r->Ok_0 == spec_decompress(bytes@, *pd, idx)->0,
        !pd.spec_single() && r is Ok ==> exists|s: int|
            #![trigger pd.symlen@[s]]
            0 <= s < pd.symlen@.len() && pd.symlen@[s] == 0 && r->Ok_0 == bytes@[pd.btree + 3 * s],
        r is Err ==> r->Err_0 == ProbeError::CorruptedTable,
{
    let _n = bytes.len();
    let ghost m = spec_decompress(bytes@, *pd, idx);
    if pd.flags & FLAG_SINGLE_VALUE != 0 {
        return Ok(pd.single_value);
    }
    // sparse index entry
    let k = idx / pd.span;
    if k >= pd.sparse_count {
        return Err(ProbeError::CorruptedTable);
    }
    let sp = pd.sparse_index + 6 * k as usize;
    proof {
        assert(6 * (k as usize) + 6 <= 6 * pd.sparse_count) by (nonlinear_arith)
            requires
                (k as usize) < pd.sparse_count,
        ;
        assert(k as usize == k);
    }
    let mut block: u64 = read_u32_le(bytes, sp) as u64;
    let mut offset: i64 = read_u16_le(bytes, sp + 4) as i64;
    let within = (idx % pd.span) as i64;
    offset = offset + within - (pd.span / 2) as i64;
    proof {
        assert(m == spec_dec_from_walks(bytes@, *pd, block as int, offset as int));
    }
    // walk block lengths to the block holding the value
    while offset < 0
        invariant
            pd.wf_header(bytes@),
            pd.wf_regions(bytes@),
            !pd.spec_single(),
            block <= u32::MAX,
            bytes@.len() <= usize::MAX,
            m == spec_dec_from_walks(bytes@, *pd, block as int, offset as int),
            m == spec_decompress(bytes@, *pd, idx),
        decreases block,
    {
        if block == 0 {
            return Err(ProbeError::CorruptedTable);
        }
        block = block - 1;
        if block >= pd.block_length_size {
            return Err(ProbeError::CorruptedTable);
        }
        proof {
            assert(2 * (block as usize) + 2 <= 2 * pd.block_length_size) by (nonlinear_arith)
                requires
                    (block as usize) < pd.block_length_size,
            ;
        }
        let bl = read_u16_le(bytes, pd.block_lengths + 2 * block as usize) as i64;
        offset = offset + bl + 1;
    }
    loop
        invariant_except_break
            pd.wf_header(bytes@),
            pd.wf_regions(bytes@),
            !pd.spec_single(),
            block <= u32::MAX || block <= pd.block_length_size,
            offset >= 0,
            bytes@.len() <= usize::MAX,
            m == spec_dec_from_walks(bytes@, *pd, block as int, offset as int),
            m == spec_decompress(bytes@, *pd, idx),
        ensures
            offset >= 0,
            block < pd.block_length_size,
            m == spec_dec_from_block(bytes@, *pd, block as int, offset as int),
            m == spec_decompress(bytes@, *pd, idx),
        decreases offset,
    {
        if block >= pd.block_length_size {
            return Err(ProbeError::CorruptedTable);
        }
        proof {
            assert(2 * (block as usize) + 2 <= 2 * pd.block_length_size) by (nonlinear_arith)
                requires
                    (block as usize) < pd.block_length_size,
            ;
        }
        let bl = read_u16_le(bytes, pd.block_lengths + 2 * block as usize) as i64;
        if offset <= bl {
            break ;
        }
        offset = offset - (bl + 1);
        block = block + 1;
    }
    if block >= pd.blocks_num as u64 {
        return Err(ProbeError::CorruptedTable);
    }
    // load the 64-bit shift register from the block start
    proof {
        assert((block as usize) * pd.block_size + pd.block_size <= (pd.blocks_num as usize)
            * pd.block_size) by (nonlinear_arith)
            requires
                (block as usize) < pd.blocks_num as usize,
        ;
        assert((pd.blocks_num as usize) * pd.block_size == pd.blocks_num * pd.block_size);
        assert((block as usize) * pd.block_size == block * pd.block_size);
    }
    let mut ptr: usize = pd.data + (block * pd.block_size) as usize;
    let mut buf: u64 = read_u64_be(bytes, ptr);
    ptr = ptr + 8;
    let mut buf_size: u64 = 64;
    let min = pd.min_symlen as u64;
    let h = (pd.max_symlen - pd.min_symlen) as usize + 1;
    proof {
        assert(m == (match spec_huff(bytes@, *pd, offset as int, ptr as int, buf, 64) {
            None => None,
            Some(sd) => spec_dec_from_sym(bytes@, *pd, sd.0, sd.1),
        }));
    }
    let mut sym: usize = 0;
    loop
        invariant_except_break
            pd.wf_header(bytes@),
            pd.wf_regions(bytes@),
            !pd.spec_single(),
            offset >= 0,
            min == pd.min_symlen as u64,
            h == pd.max_symlen - pd.min_symlen + 1,
            33 <= buf_size <= 64,
            ptr <= bytes@.len(),
            bytes@.len() <= usize::MAX,
            m == spec_decompress(bytes@, *pd, idx),
            m == (match spec_huff(bytes@, *pd, offset as int, ptr as int, buf, buf_size as int) {
                None => None,
                Some(sd) => spec_dec_from_sym(bytes@, *pd, sd.0, sd.1),
            }),
        ensures
            sym < pd.symlen@.len(),
            0 <= offset <= pd.symlen@[sym as int],
            m == spec_dec_from_sym(bytes@, *pd, sym as int, offset as int),
            m == spec_decompress(bytes@, *pd, idx),
        decreases offset,
    {
        // find the code length: the first threshold at or below the
        // register; the last threshold is zero
        let mut i: usize = 0;
        while buf < pd.base[i]
            invariant
                pd.wf_header(bytes@),
                !pd.spec_single(),
                h == pd.max_symlen - pd.min_symlen + 1,
                i < h,
                spec_code_len(pd.base@, buf, 0) == spec_code_len(pd.base@, buf, i as int),
            decreases h - i,
        {
            proof {
                assert(pd.base@[h - 1] == 0);
                if i + 1 == h {
                    assert(buf < 0);
                }
            }
            i = i + 1;
        }
        proof {
            assert(spec_code_len(pd.base@, buf, i as int) == i);
            assert(i == spec_code_len(pd.base@, buf, 0));
        }
        let l = min + i as u64;
        let low = read_u16_le(bytes, pd.lowest_sym + 2 * i) as u64;
        let rest = buf - pd.base[i];
        proof {
            assert(rest >> ((64 - l) as u64) <= 0xffff_ffff) by (bit_vector)
                requires
                    l <= 32,
            ;
        }
        let s64 = low + (rest >> (64 - l));
        if s64 >= pd.symlen.len() as u64 {
            return Err(ProbeError::CorruptedTable);
        }
        sym = s64 as usize;
        let sl = pd.symlen[sym] as i64;
        if offset <= sl {
            break ;
        }
        offset = offset - (sl + 1);
        buf = buf << l;
        buf_size = buf_size - l;
        if buf_size <= 32 {
            if bytes.len() < 4 || ptr > bytes.len() - 4 {
                // the stream ends before the value is decoded
                return Err(ProbeError::CorruptedTable);
            }
            let w = read_u32_be(bytes, ptr) as u64;
            ptr = ptr + 4;
            buf = buf | (w << (32 - buf_size));
            buf_size = buf_size + 32;
        }
    }
    // descend the expansion tree: the children of an inner symbol
    // expand into strictly fewer bytes
    while pd.symlen[sym] != 0
        invariant
            pd.wf_header(bytes@),
            !pd.spec_single(),
            sym < pd.symlen@.len(),
            0 <= offset <= pd.symlen@[sym as int],
            bytes@.len() <= usize::MAX,
            m == spec_dec_from_sym(bytes@, *pd, sym as int, offset as int),
            m == spec_decompress(bytes@, *pd, idx),
        decreases pd.symlen@[sym as int],
    {
        let _n2 = bytes.len();
        proof {
            assert(0 <= (sym as int) && (sym as int) < pd.symlen@.len());
            pd.lemma_node_ok(bytes@, sym as int);
        }
        let (left, right) = read_node(bytes, pd.btree, sym);
        let ls = pd.symlen[left as usize] as i64;
        proof {
            if offset <= ls {
                lemma_descend_fuel(bytes@, *pd, left as int, offset as int, 255, 256);
            } else {
                lemma_descend_fuel(
                    bytes@,
                    *pd,
                    right as int,
                    offset - pd.symlen@[left as int] - 1,
                    255,
                    256,
                );
            }
        }
        if offset <= ls {
            sym = left as usize;
        } else {
            offset = offset - (ls + 1);
            sym = right as usize;
        }
    }
    let _n3 = bytes.len();
    proof {
        assert(m == Some(bytes@[pd.btree + 3 * (sym as int)]));
    }
    Ok(read_u8(bytes, pd.btree + 3 * sym))
}


impl Table {
    /// Whether probing this position reads pieces with their colors
    /// exchanged: a symmetric table probed with black to move, or a
    /// position whose stronger side is black.
    pub open spec fn spec_flip_colors(self, pos: Position) -> bool {
        (self.symmetric && pos.turn == Color::Black) || pos.spec_material() != self.material
    }

    /// Which side entry a probe reads.
    pub open spec fn spec_side_index(self, pos: Position) -> int {
        if self.sides@.len() == 2 {
            if self.spec_flip_colors(pos) != (pos.turn == Color::White) {
                1int
            } else {
                0int
            }
        } else {
            0int
        }
    }

    /// Probe the win/draw/loss value this table stores for the
    /// position, from the side to move's point of view. The position's
    /// material must be the table's, up to exchanging the colors: a
    /// listed piece with no square to take is a mismatch, and any
    /// malformed stored data met on the way is a corrupted table.
    pub fn probe_wdl(&self, pos: &Position) -> (r: Result<Wdl, ProbeError>)
        requires
            self.wf(),
            pos.wf(),
        ensures
            r is Err ==> (r->Err_0 == ProbeError::CorruptedTable || r->Err_0
                == ProbeError::Mismatch),
            r is Ok ==> exists|i: u64|
                spec_decompress(self.bytes@, self.sides@[self.spec_side_index(*pos)], i) == Some(
                    r->Ok_0.spec_byte(),
                ),
    {
        let key = pos.material();
        let symmetric_btm = self.symmetric && matches!(pos.turn, Color::Black);
        let black_stronger = !(key == self.material);
        let flip = symmetric_btm || black_stronger;
        let stm = flip != matches!(pos.turn, Color::White);
        let side_idx: usize = if self.sides.len() == 2 && stm {
            1
        } else {
            0
        };
        let side = &self.sides[side_idx];
        proof {
            assert(side.groups.wf(false));
            assert(side_idx as int == self.spec_side_index(*pos));
        }

        // find each listed piece's square, equal pieces in square order
        let mut squares: Vec<u8> = Vec::new();
        let mut slot: usize = 0;
        let np = side.groups.pieces.len();
        while slot < np
            invariant
                self.wf(),
                pos.wf(),
                side == self.sides@[side_idx as int],
                side_idx < self.sides@.len(),
                np == side.groups.pieces@.len(),
                np <= 7,
                slot <= np,
                squares@.len() == slot,
                forall|t: int| 0 <= t < slot ==> squares@[t] < 64,
            decreases np - slot,
        {
            let p0 = side.groups.pieces[slot];
            let p = if flip {
                p0.flip_color()
            } else {
                p0
            };
            let mut k: u32 = 0;
            let mut j: usize = 0;
            while j < slot
                invariant
                    self.wf(),
                    side == self.sides@[side_idx as int],
                    side_idx < self.sides@.len(),
                    np == side.groups.pieces@.len(),
                    slot < np,
                    j <= slot,
                    k <= j,
                decreases slot - j,
            {
                let q0 = side.groups.pieces[j];
                let q = if flip {
                    q0.flip_color()
                } else {
                    q0
                };
                if q == p {
                    k = k + 1;
                }
                j = j + 1;
            }
            match pos.nth_square(p, k) {
                Some(sq) => squares.push(sq),
                None => {
                    return Err(ProbeError::Mismatch);
                },
            }
            slot = slot + 1;
        }
        if squares.len() < 3 {
            return Err(ProbeError::CorruptedTable);
        }

        let lens_len = side.groups.lens.len();
        let lead_len = side.groups.lens[0] as usize;
        if lead_len != 3 {
            return Err(ProbeError::CorruptedTable);
        }
        canonicalize(&mut squares, lead_len);

        let lead = match leading_index(&squares) {
            Ok(x) => x,
            Err(e) => {
                return Err(e);
            },
        };
        let mut idx: u64 = match (lead as u64).checked_mul(side.groups.factors[0]) {
            Some(x) => x,
            None => {
                return Err(ProbeError::CorruptedTable);
            },
        };

        // rank the remaining groups: sort each group's squares and sum
        // one combination per square over the free squares before it
        let mut group_sq: usize = lead_len;
        let mut g: usize = 1;
        while g < lens_len
            invariant
                self.wf(),
                pos.wf(),
                side == self.sides@[side_idx as int],
                side_idx < self.sides@.len(),
                lens_len == side.groups.lens@.len(),
                side.groups.factors@.len() == lens_len + 1,
                1 <= g <= lens_len,
                group_sq <= squares@.len(),
                squares@.len() <= 7,
                forall|t: int| 0 <= t < squares@.len() ==> squares@[t] < 64,
            decreases lens_len - g,
        {
            let len_g = side.groups.lens[g] as usize;
            if len_g == 0 || len_g > squares.len() - group_sq {
                return Err(ProbeError::CorruptedTable);
            }
            let sorted = sorted_copy(&squares, group_sq, len_g);
            let mut n: u64 = 0;
            let mut t: usize = 0;
            while t < len_g
                invariant
                    len_g <= 7,
                    t <= len_g,
                    sorted@.len() == len_g,
                    group_sq <= squares@.len(),
                    squares@.len() <= 7,
                    forall|u: int| 0 <= u < sorted@.len() ==> sorted@[u] < 64,
                    forall|u: int| 0 <= u < squares@.len() ==> squares@[u] < 64,
                    n <= t * 0x4_0000_0000_0000,
                decreases len_g - t,
            {
                let sq = sorted[t];
                let mut adj: u32 = 0;
                let mut u: usize = 0;
                while u < group_sq
                    invariant
                        group_sq <= squares@.len(),
                        squares@.len() <= 7,
                        u <= group_sq,
                        adj <= u,
                    decreases group_sq - u,
                {
                    if squares[u] < sq {
                        adj = adj + 1;
                    }
                    u = u + 1;
                }
                if (sq as u32) < adj {
                    return Err(ProbeError::CorruptedTable);
                }
                let c = binomial((sq as u32 - adj) as u64, (t + 1) as u64);
                n = n + c;
                t = t + 1;
            }
            idx = match n.checked_mul(side.groups.factors[g]) {
                Some(x) => match idx.checked_add(x) {
                    Some(y) => y,
                    None => {
                        return Err(ProbeError::CorruptedTable);
                    },
                },
                None => {
                    return Err(ProbeError::CorruptedTable);
                },
            };
            group_sq = group_sq + len_g;
            g = g + 1;
        }

        let b = match decompress(&self.bytes, side, idx) {
            Ok(b) => b,
            Err(e) => {
                return Err(e);
            },
        };
        let w = match wdl_from_byte(b) {
            Ok(w) => w,
            Err(e) => {
                return Err(e);
            },
        };
        proof {
            assert(spec_decompress(self.bytes@, self.sides@[self.spec_side_index(*pos)], idx)
                == Some(w.spec_byte()));
        }
        Ok(w)
    }
}

} // verus!
