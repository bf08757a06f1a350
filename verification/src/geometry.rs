//! Square geometry: mirrors, the triangle reduction of the pawnless
//! board's eight-fold symmetry, and binomial coefficients for the
//! combinatorial ranking of square tuples.

use vstd::prelude::*;

verus! {

/// The file (column) of a square in [0, 8).
pub open spec fn sq_file(sq: int) -> int {
    sq % 8
}

/// The rank (row) of a square in [0, 8).
pub open spec fn sq_rank(sq: int) -> int {
    sq / 8
}

/// The square at the given rank and file.
pub open spec fn sq_at(rank: int, file: int) -> int {
    rank * 8 + file
}

/// The square mirrored horizontally: file becomes 7 − file.
pub open spec fn spec_mirror_h(sq: int) -> int {
    sq_at(sq_rank(sq), 7 - sq_file(sq))
}

/// The square mirrored vertically: rank becomes 7 − rank.
pub open spec fn spec_mirror_v(sq: int) -> int {
    sq_at(7 - sq_rank(sq), sq_file(sq))
}

/// The square mirrored across the long diagonal: file and rank swap.
pub open spec fn spec_mirror_d(sq: int) -> int {
    sq_at(sq_file(sq), sq_rank(sq))
}

/// Whether the square is off the long diagonal.
pub open spec fn spec_off_diag(sq: int) -> bool {
    sq_file(sq) != sq_rank(sq)
}

/// The file of a square.
pub fn file_of(sq: u8) -> (r: u8)
    requires
        sq < 64,
    ensures
        r == sq_file(sq as int),
{
    sq % 8
}

/// The rank of a square.
pub fn rank_of(sq: u8) -> (r: u8)
    requires
        sq < 64,
    ensures
        r == sq_rank(sq as int),
{
    sq / 8
}

/// Mirror a square horizontally.
pub fn mirror_h(sq: u8) -> (r: u8)
    requires
        sq < 64,
    ensures
        r == spec_mirror_h(sq as int),
        r < 64,
{
    let r = sq / 8;
    let f = sq % 8;
    r * 8 + 7 - f
}

/// Mirror a square vertically.
pub fn mirror_v(sq: u8) -> (r: u8)
    requires
        sq < 64,
    ensures
        r == spec_mirror_v(sq as int),
        r < 64,
{
    let r = sq / 8;
    let f = sq % 8;
    (7 - r) * 8 + f
}

/// Mirror a square across the long diagonal.
pub fn mirror_d(sq: u8) -> (r: u8)
    requires
        sq < 64,
    ensures
        r == spec_mirror_d(sq as int),
        r < 64,
{
    let r = sq / 8;
    let f = sq % 8;
    f * 8 + r
}

/// Whether the square is off the long diagonal.
pub fn off_diag(sq: u8) -> (r: bool)
    requires
        sq < 64,
    ensures
        r == spec_off_diag(sq as int),
{
    sq / 8 != sq % 8
}

/// Start of the run of triangle values for off-diagonal squares whose
/// lower coordinate is `a`; the runs enumerate the six off-diagonal
/// square pairs of the a1–d1–d4 triangle.
pub open spec fn tri_start(a: int) -> int {
    if a == 0 {
        0
    } else if a == 1 {
        3
    } else if a == 2 {
        5
    } else {
        6
    }
}

/// The classic 64-entry triangle map restricted to its defining quarter
/// (file < 4 and rank < 4): diagonal squares map to 6 + rank, and the
/// six off-diagonal pairs map to 0 through 5. The full board's table is
/// this quarter reflected; folding always lands the leading square here.
pub open spec fn spec_triangle(sq: int) -> int {
    let r = sq_rank(sq);
    let f = sq_file(sq);
    if r == f {
        6 + r
    } else if r < f {
        tri_start(r) + f - r - 1
    } else {
        tri_start(f) + r - f - 1
    }
}

/// The triangle map; see `spec_triangle`.
pub fn triangle_of(sq: u8) -> (t: u8)
    requires
        sq < 64,
        sq_file(sq as int) < 4,
        sq_rank(sq as int) < 4,
    ensures
        t == spec_triangle(sq as int),
        t < 10,
        spec_off_diag(sq as int) ==> t < 6,
{
    let r = sq / 8;
    let f = sq % 8;
    if r == f {
        6 + r
    } else if r < f {
        tri_start_of(r) + f - r - 1
    } else {
        tri_start_of(f) + r - f - 1
    }
}

/// Exec form of `tri_start`.
fn tri_start_of(a: u8) -> (r: u8)
    ensures
        r == tri_start(a as int),
{
    if a == 0 {
        0
    } else if a == 1 {
        3
    } else if a == 2 {
        5
    } else {
        6
    }
}

/// The index of a diagonal square along the long diagonal.
pub open spec fn spec_diag(sq: int) -> int {
    sq_rank(sq)
}

/// The index of a diagonal square along the long diagonal.
pub fn diag_of(sq: u8) -> (r: u8)
    requires
        sq < 64,
        !spec_off_diag(sq as int),
    ensures
        r == spec_diag(sq as int),
        r < 8,
{
    sq / 8
}

/// Start of the run of `lower` values for off-diagonal squares whose
/// lower coordinate is `a`: the 28 squares strictly above the diagonal
/// are enumerated row by row.
pub open spec fn lower_start(a: int) -> int {
    if a == 0 {
        0
    } else if a == 1 {
        7
    } else if a == 2 {
        13
    } else if a == 3 {
        18
    } else if a == 4 {
        22
    } else if a == 5 {
        25
    } else if a == 6 {
        27
    } else {
        28
    }
}

/// The index of an off-diagonal square among the 28 squares on its side
/// of the long diagonal, enumerated row by row.
pub open spec fn spec_lower(sq: int) -> int {
    let r = sq_rank(sq);
    let f = sq_file(sq);
    if r < f {
        lower_start(r) + f - r - 1
    } else {
        lower_start(f) + r - f - 1
    }
}

/// The off-diagonal enumeration; see `spec_lower`.
pub fn lower_of(sq: u8) -> (t: u8)
    requires
        sq < 64,
        spec_off_diag(sq as int),
    ensures
        t == spec_lower(sq as int),
        t < 28,
{
    let r = sq / 8;
    let f = sq % 8;
    if r < f {
        lower_start_of(r) + f - r - 1
    } else {
        lower_start_of(f) + r - f - 1
    }
}

/// Exec form of `lower_start`.
fn lower_start_of(a: u8) -> (r: u8)
    requires
        a < 8,
    ensures
        r == lower_start(a as int),
{
    if a == 0 {
        0
    } else if a == 1 {
        7
    } else if a == 2 {
        13
    } else if a == 3 {
        18
    } else if a == 4 {
        22
    } else if a == 5 {
        25
    } else if a == 6 {
        27
    } else {
        28
    }
}

/// The binomial coefficient, by Pascal's rule.
pub open spec fn binom(n: nat, k: nat) -> nat
    decreases n, k,
{
    if k == 0 {
        1
    } else if n == 0 {
        0
    } else {
        binom((n - 1) as nat, k) + binom((n - 1) as nat, (k - 1) as nat)
    }
}

/// A small power function used to bound binomials.
pub open spec fn pw(b: nat, e: nat) -> nat
    decreases e,
{
    if e == 0 {
        1nat
    } else {
        b * pw(b, (e - 1) as nat)
    }
}

/// Powers grow with the base.
proof fn lemma_pw_base_le(a: nat, b: nat, e: nat)
    requires
        a <= b,
    ensures
        pw(a, e) <= pw(b, e),
    decreases e,
{
    if e > 0 {
        lemma_pw_base_le(a, b, (e - 1) as nat);
        assert(a * pw(a, (e - 1) as nat) <= b * pw(b, (e - 1) as nat)) by (nonlinear_arith)
            requires
                a <= b,
                pw(a, (e - 1) as nat) <= pw(b, (e - 1) as nat),
        ;
    }
}

/// A binomial coefficient is at most the matching power of `n`.
proof fn lemma_binom_le_pw(n: nat, k: nat)
    ensures
        binom(n, k) <= pw(n, k),
        n >= 1 ==> binom(n, k) <= pw((n - 1) as nat, k) + pw((n - 1) as nat, (k - 1) as nat),
    decreases n, k,
{
    if k == 0 {
    } else if n == 0 {
    } else {
        let m = (n - 1) as nat;
        lemma_binom_le_pw(m, k);
        lemma_binom_le_pw(m, (k - 1) as nat);
        lemma_pw_base_le(m, n, (k - 1) as nat);
        assert(pw(m, k) + pw(m, (k - 1) as nat) <= n * pw(n, (k - 1) as nat)) by (nonlinear_arith)
            requires
                pw(m, k) == m * pw(m, (k - 1) as nat),
                pw(m, (k - 1) as nat) <= pw(n, (k - 1) as nat),
                m + 1 == n,
        ;
    }
}

/// For the sizes this format uses, binomials fit comfortably in 64 bits.
pub proof fn lemma_binom_fits(n: nat, k: nat)
    requires
        n <= 64,
        k <= 7,
    ensures
        binom(n, k) < 0x4_0000_0000_0000,
{
    lemma_binom_le_pw(n, k);
    lemma_pw_base_le(n, 64, k);
    lemma_pw_exp_le(64, k, 7);
    assert(pw(64, 7) == 0x400_0000_0000) by {
        reveal_with_fuel(pw, 9);
    }
}

/// Powers of a positive base grow with the exponent.
proof fn lemma_pw_exp_le(b: nat, e1: nat, e2: nat)
    requires
        b >= 1,
        e1 <= e2,
    ensures
        pw(b, e1) <= pw(b, e2),
    decreases e2,
{
    if e1 < e2 {
        lemma_pw_exp_le(b, e1, (e2 - 1) as nat);
        assert(b * pw(b, (e2 - 1) as nat) >= pw(b, (e2 - 1) as nat)) by (nonlinear_arith)
            requires
                b >= 1,
                pw(b, (e2 - 1) as nat) >= 0,
        ;
    }
}

/// The binomial coefficient, for the ranks and sizes the format uses.
pub fn binomial(n: u64, k: u64) -> (r: u64)
    requires
        n <= 64,
        k <= 7,
    ensures
        r == binom(n as nat, k as nat),
        r < 0x4_0000_0000_0000,
{
    proof {
        lemma_binom_fits(n as nat, k as nat);
    }
    let mut row: Vec<u64> = Vec::new();
    row.push(1);
    let mut j: usize = 0;
    while j < k as usize
        invariant
            k <= 7,
            row@.len() == j + 1,
            j <= k,
            forall|t: int| 0 <= t <= j ==> row@[t] == binom(0, t as nat),
        decreases k - j,
    {
        row.push(0);
        j = j + 1;
    }
    let mut i: usize = 0;
    while i < n as usize
        invariant
            n <= 64,
            k <= 7,
            i <= n,
            row@.len() == k + 1,
            forall|t: int| 0 <= t <= k ==> row@[t] == binom(i as nat, t as nat),
        decreases n - i,
    {
        let mut j: usize = k as usize;
        while j >= 1
            invariant
                n <= 64,
                k <= 7,
                i < n,
                j <= k,
                row@.len() == k + 1,
                forall|t: int| 0 <= t <= j ==> row@[t] == binom(i as nat, t as nat),
                forall|t: int| j < t <= k ==> row@[t] == binom((i + 1) as nat, t as nat),
            decreases j,
        {
            proof {
                lemma_binom_fits((i + 1) as nat, j as nat);
            }
            let v = row[j] + row[j - 1];
            row.set(j, v);
            j = j - 1;
        }
        i = i + 1;
    }
    proof {
        lemma_binom_fits(n as nat, k as nat);
    }
    row[k as usize]
}

} // verus!
