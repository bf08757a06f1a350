//! Properties of the canonicalization and of probe-side selection that
//! hold for every position and table.

use vstd::prelude::*;

use crate::geometry::{binom, spec_mirror_d, spec_mirror_h, spec_off_diag, sq_at, sq_file, sq_rank};
use crate::position::material_upto;
use crate::table::{mirror_d_from, mirror_h_seq, spec_canonical, spec_d_fold, spec_h_fold,
    spec_v_fold, Table};
use crate::position::Position;
use crate::types::Piece;

verus! {

/// Rank and file recover the coordinates a square was built from.
proof fn lemma_rf(r: int, f: int)
    requires
        0 <= r,
        0 <= f < 8,
    ensures
        sq_at(r, f) / 8 == r,
        sq_at(r, f) % 8 == f,
{
    assert((r * 8 + f) / 8 == r && (r * 8 + f) % 8 == f) by (nonlinear_arith)
        requires
            0 <= r,
            0 <= f < 8,
    ;
}

/// A square is its rank and file put back together.
proof fn lemma_sq_split(x: int)
    requires
        0 <= x < 64,
    ensures
        sq_at(sq_rank(x), sq_file(x)) == x,
        0 <= sq_rank(x) < 8,
        0 <= sq_file(x) < 8,
{
}

/// Mirroring a square horizontally twice gives it back.
proof fn lemma_mirror_h_involution_point(x: int)
    requires
        0 <= x < 64,
    ensures
        0 <= spec_mirror_h(x) < 64,
        spec_mirror_h(spec_mirror_h(x)) == x,
        sq_file(spec_mirror_h(x)) == 7 - sq_file(x),
        sq_rank(spec_mirror_h(x)) == sq_rank(x),
{
    lemma_sq_split(x);
    lemma_rf(sq_rank(x), 7 - sq_file(x));
    assert(spec_mirror_h(x) == sq_at(sq_rank(x), 7 - sq_file(x)));
    assert(0 <= spec_mirror_h(x) < 64) by (nonlinear_arith)
        requires
            spec_mirror_h(x) == sq_rank(x) * 8 + 7 - sq_file(x),
            0 <= sq_rank(x) < 8,
            0 <= sq_file(x) < 8,
    ;
}

/// Mirroring a square sequence horizontally twice gives it back.
proof fn lemma_mirror_h_involution(s: Seq<u8>)
    requires
        forall|j: int| 0 <= j < s.len() ==> s[j] < 64,
    ensures
        mirror_h_seq(mirror_h_seq(s)) =~= s,
        forall|j: int| 0 <= j < s.len() ==> #[trigger] mirror_h_seq(s)[j] < 64,
{
    assert forall|j: int| 0 <= j < s.len() implies #[trigger] mirror_h_seq(s)[j] < 64 by {
        lemma_mirror_h_involution_point(s[j] as int);
    }
    assert forall|j: int| 0 <= j < s.len() implies mirror_h_seq(mirror_h_seq(s))[j] == s[j] by {
        lemma_mirror_h_involution_point(s[j] as int);
    }
}

/// Canonicalization absorbs a horizontal mirror: a position probed
/// after mirroring every square horizontally folds to the same
/// canonical square tuple. This is why mirroring a probed position
/// horizontally and probing again gives the identical table index.
pub proof fn lemma_canonical_mirror_h(s: Seq<u8>, lead: int)
    requires
        1 <= lead <= s.len(),
        forall|j: int| 0 <= j < s.len() ==> s[j] < 64,
    ensures
        spec_canonical(mirror_h_seq(s), lead) == spec_canonical(s, lead),
{
    let m = mirror_h_seq(s);
    lemma_mirror_h_involution(s);
    lemma_mirror_h_involution_point(s[0] as int);
    assert(m[0] == spec_mirror_h(s[0] as int) as u8);
    if sq_file(s[0] as int) >= 4 {
        assert(sq_file(m[0] as int) < 4);
        assert(spec_h_fold(m) == m);
        assert(spec_h_fold(s) == m);
    } else {
        assert(sq_file(m[0] as int) >= 4);
        assert(spec_h_fold(m) =~= s) by {
            assert(mirror_h_seq(m) =~= s);
        }
        assert(spec_h_fold(s) == s);
    }
    assert(spec_h_fold(m) == spec_h_fold(s));
}

/// The diagonal fold leaves every square before its walking index in
/// place.
proof fn lemma_d_fold_prefix(s: Seq<u8>, lead: int, i: int)
    ensures
        forall|j: int|
            0 <= j < i && j < s.len() ==> #[trigger] spec_d_fold(s, lead, i)[j] == s[j],
        spec_d_fold(s, lead, i).len() == s.len(),
    decreases lead - i,
{
    if i < 0 || i >= lead || i >= s.len() {
    } else if !spec_off_diag(s[i] as int) {
        lemma_d_fold_prefix(s, lead, i + 1);
    } else {
    }
}

/// Walking the diagonal fold over its own output changes nothing: the
/// skipped squares are still on the diagonal and the first square off
/// it is now below the diagonal.
proof fn lemma_d_fold_idem(s: Seq<u8>, lead: int, i: int)
    requires
        0 <= i <= lead,
        lead <= s.len(),
        forall|j: int| 0 <= j < s.len() ==> s[j] < 64,
        forall|j: int| 0 <= j < i ==> !spec_off_diag(s[j] as int),
    ensures
        spec_d_fold(spec_d_fold(s, lead, i), lead, i) == spec_d_fold(s, lead, i),
    decreases lead - i,
{
    if i >= lead || i >= s.len() {
    } else if !spec_off_diag(s[i] as int) {
        lemma_d_fold_idem(s, lead, i + 1);
        let c = spec_d_fold(s, lead, i + 1);
        lemma_d_fold_prefix(s, lead, i + 1);
        assert(c[i] == s[i]);
        assert(spec_d_fold(s, lead, i) == c);
        assert(spec_d_fold(c, lead, i) == spec_d_fold(c, lead, i + 1));
    } else if sq_rank(s[i] as int) > sq_file(s[i] as int) {
        let c = mirror_d_from(s, i);
        lemma_sq_split(s[i] as int);
        lemma_rf(sq_file(s[i] as int), sq_rank(s[i] as int));
        assert(c[i] == spec_mirror_d(s[i] as int) as u8);
        assert(sq_at(sq_file(s[i] as int), sq_rank(s[i] as int)) < 64) by (nonlinear_arith)
            requires
                0 <= sq_file(s[i] as int) < 8,
                0 <= sq_rank(s[i] as int) < 8,
                sq_at(sq_file(s[i] as int), sq_rank(s[i] as int)) == sq_file(s[i] as int) * 8
                    + sq_rank(s[i] as int),
        ;
        assert(sq_rank(c[i] as int) == sq_file(s[i] as int));
        assert(sq_file(c[i] as int) == sq_rank(s[i] as int));
        assert(spec_off_diag(c[i] as int));
        assert(!(sq_rank(c[i] as int) > sq_file(c[i] as int)));
        assert(spec_d_fold(c, lead, i) == c);
    } else {
        assert(spec_d_fold(s, lead, i) == s);
    }
}

/// Canonicalization is idempotent: folding an already canonical square
/// tuple folds nothing further.
pub proof fn lemma_canonical_idempotent(s: Seq<u8>, lead: int)
    requires
        1 <= lead <= s.len(),
        forall|j: int| 0 <= j < s.len() ==> s[j] < 64,
    ensures
        spec_canonical(spec_canonical(s, lead), lead) == spec_canonical(s, lead),
{
    let s1 = spec_h_fold(s);
    let s2 = spec_v_fold(s1);
    let c = spec_canonical(s, lead);
    crate::table::lemma_canonical_quarter(s, lead);
    assert(spec_h_fold(c) == c);
    assert(spec_v_fold(c) == c);
    assert forall|j: int| 0 <= j < s2.len() implies #[trigger] s2[j] < 64 by {
        if sq_file(s[0] as int) >= 4 {
            lemma_mirror_h_involution_point(s[j] as int);
        }
        lemma_mirror_v_point(s1[j] as int);
    }
    lemma_d_fold_idem(s2, lead, 0);
}

/// Mirroring a square vertically stays on the board and swaps the rank.
proof fn lemma_mirror_v_point(x: int)
    requires
        0 <= x < 64,
    ensures
        0 <= crate::geometry::spec_mirror_v(x) < 64,
        sq_rank(crate::geometry::spec_mirror_v(x)) == 7 - sq_rank(x),
        sq_file(crate::geometry::spec_mirror_v(x)) == sq_file(x),
{
    lemma_sq_split(x);
    lemma_rf(7 - sq_rank(x), sq_file(x));
    assert(0 <= crate::geometry::spec_mirror_v(x) < 64) by (nonlinear_arith)
        requires
            crate::geometry::spec_mirror_v(x) == (7 - sq_rank(x)) * 8 + sq_file(x),
            0 <= sq_rank(x) < 8,
            0 <= sq_file(x) < 8,
    ;
}

/// Exchanging the colors of every piece on the board exchanges the two
/// sides of the material key.
pub proof fn lemma_swapped_material(s1: Seq<Option<Piece>>, s2: Seq<Option<Piece>>, n: int)
    requires
        s1.len() == s2.len(),
        0 <= n <= s1.len(),
        forall|i: int|
            0 <= i < s1.len() ==> s2[i] == match s1[i] {
                Some(p) => Some(p.spec_flip_color()),
                None => None::<Piece>,
            },
    ensures
        material_upto(s2, n) == material_upto(s1, n).spec_flipped(),
    decreases n,
{
    if n > 0 {
        lemma_swapped_material(s1, s2, n - 1);
        match s1[n - 1] {
            Some(p) => {
                let m = material_upto(s1, n - 1);
                assert(m.spec_flipped().spec_add(p.spec_flip_color()) == m.spec_add(
                    p,
                ).spec_flipped());
            },
            None => (),
        }
    }
}

/// Exchanging the colors of every piece and of the side to move makes
/// the probe read the same side entry of the same table, with the
/// color flip applied to the listed pieces inverted: the probe then
/// finds the identical squares, computes the identical index, and
/// returns the identical stored value.
pub proof fn lemma_swap_colors_selection(t: Table, p1: Position, p2: Position)
    requires
        t.wf(),
        p2.turn == p1.turn.spec_flip(),
        p2.spec_material() == p1.spec_material().spec_flipped(),
        p1.spec_material() == t.material || p1.spec_material().spec_flipped() == t.material,
    ensures
        t.spec_side_index(p2) == t.spec_side_index(p1),
        t.spec_flip_colors(p2) == !t.spec_flip_colors(p1),
{
    let m = p1.spec_material();
    assert(m.spec_flipped().spec_flipped() == m);
    if t.material.spec_is_symmetric() {
        assert(t.material.spec_flipped() == t.material);
        assert(m == t.material);
        assert(p2.spec_material() == t.material);
    } else {
        if m == t.material {
            assert(p2.spec_material() != t.material);
        } else {
            assert(m.spec_flipped() == t.material);
            assert(m != t.material);
            assert(p2.spec_material() == t.material);
        }
    }
}

/// The combinatorial rank of a strictly increasing value tuple: one
/// combination per value over the values below it, as the probe sums
/// for each non-leading group.
pub open spec fn spec_group_rank(v: Seq<int>) -> int
    decreases v.len(),
{
    if v.len() == 0 {
        0
    } else {
        spec_group_rank(v.drop_last()) + binom(v.last() as nat, v.len() as nat)
    }
}

/// Binomials grow with the number of squares to choose from.
proof fn lemma_binom_mono_n(a: nat, b: nat, k: nat)
    requires
        a <= b,
    ensures
        binom(a, k) <= binom(b, k),
    decreases b,
{
    if a < b {
        lemma_binom_mono_n(a, (b - 1) as nat, k);
    }
}

/// The rank of a strictly increasing tuple of values below `n` stays
/// below the number of ways to choose that many values from `n`: each
/// group of a table therefore fills exactly the factor the group
/// computation gives it, and the index of every canonical placement
/// stays below the table size.
pub proof fn lemma_group_rank_below(v: Seq<int>, n: nat)
    requires
        forall|i: int| 0 <= i < v.len() ==> 0 <= #[trigger] v[i] < n,
        forall|i: int, j: int| 0 <= i < j < v.len() ==> v[i] < v[j],
    ensures
        spec_group_rank(v) < binom(n, v.len() as nat),
    decreases v.len(),
{
    if v.len() == 0 {
    } else {
        let k = v.len() as nat;
        let m = v.last() as nat;
        let w = v.drop_last();
        assert(forall|i: int| 0 <= i < w.len() ==> 0 <= #[trigger] w[i] < m);
        lemma_group_rank_below(w, m);
        assert(binom((m + 1) as nat, k) == binom(m, k) + binom(m, (k - 1) as nat));
        lemma_binom_mono_n((m + 1) as nat, n, k);
    }
}

} // verus!
