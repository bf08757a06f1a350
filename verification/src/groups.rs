//! Grouping of a table's piece list into independently encoded cohorts,
//! and the multiplicative factors that turn a tuple of squares into one
//! integer index.

use vstd::prelude::*;

use crate::errors::ProbeError;
use crate::geometry::{binom, binomial, lemma_binom_fits};
use crate::material::Material;
use crate::types::Piece;

verus! {

/// Length of the run of equal pieces starting at `i`.
pub open spec fn run_len(s: Seq<Piece>, i: int) -> int
    decreases s.len() - i,
{
    if i < 0 || i >= s.len() {
        0
    } else if i + 1 < s.len() && s[i + 1] == s[i] {
        1 + run_len(s, i + 1)
    } else {
        1
    }
}

/// Runs of equal pieces start at length one.
pub proof fn lemma_run_len_bounds(s: Seq<Piece>, i: int)
    requires
        0 <= i < s.len(),
    ensures
        1 <= run_len(s, i) <= s.len() - i,
    decreases s.len() - i,
{
    if i + 1 < s.len() && s[i + 1] == s[i] {
        lemma_run_len_bounds(s, i + 1);
    }
}

/// The maximal runs of equal pieces from position `i` on, as group
/// sizes.
pub open spec fn spec_runs(s: Seq<Piece>, i: int) -> Seq<u8>
    decreases s.len() - i,
    via spec_runs_decreases
{
    if i < 0 || i >= s.len() {
        Seq::empty()
    } else {
        seq![run_len(s, i) as u8].add(spec_runs(s, i + run_len(s, i)))
    }
}

#[via_fn]
proof fn spec_runs_decreases(s: Seq<Piece>, i: int) {
    if 0 <= i < s.len() {
        lemma_run_len_bounds(s, i);
    }
}

/// The number of pieces covered by the first `g` groups.
pub open spec fn lens_prefix(lens: Seq<u8>, g: int) -> int
    decreases g,
{
    if g <= 0 {
        0
    } else {
        lens_prefix(lens, g - 1) + lens[g - 1]
    }
}

/// Group prefixes grow with the group index.
pub proof fn lemma_lens_prefix_mono(lens: Seq<u8>, g1: int, g2: int)
    requires
        0 <= g1 <= g2,
    ensures
        lens_prefix(lens, g1) <= lens_prefix(lens, g2),
    decreases g2,
{
    if g1 < g2 {
        lemma_lens_prefix_mono(lens, g1, g2 - 1);
    }
}

/// The runs from position `i` cover exactly the pieces from `i` on.
pub proof fn lemma_runs_cover(s: Seq<Piece>, i: int)
    requires
        0 <= i <= s.len(),
        s.len() <= 255,
    ensures
        lens_prefix(spec_runs(s, i), spec_runs(s, i).len() as int) == s.len() - i,
        spec_runs(s, i).len() <= s.len() - i,
        forall|g: int|
            0 <= g <= spec_runs(s, i).len() ==> #[trigger] lens_prefix(spec_runs(s, i), g) <= s.len()
                - i,
    decreases s.len() - i,
{
    if i < s.len() {
        lemma_run_len_bounds(s, i);
        let r = run_len(s, i);
        lemma_runs_cover(s, i + r);
        let tail = spec_runs(s, i + r);
        let whole = spec_runs(s, i);
        assert(whole == seq![r as u8].add(tail));
        assert forall|g: int| 0 <= g <= whole.len() implies #[trigger] lens_prefix(whole, g)
            <= s.len() - i by {
            lemma_prefix_shift(r as u8, tail, g);
        }
        lemma_prefix_shift(r as u8, tail, whole.len() as int);
    }
}

/// The length of the leading group: the three leading unique pieces
/// when at least three piece kinds are unique, else the two kings.
pub open spec fn spec_first_len(m: Material) -> int {
    if m.spec_unique_pieces() >= 3 {
        3
    } else {
        2
    }
}

/// The number of leading-group square configurations after symmetry
/// reduction: a literal constant of the format for each symmetry class.
pub open spec fn spec_lead_size(m: Material, connected_kings: bool) -> Option<int> {
    if m.spec_unique_pieces() >= 3 {
        Some(31332int)
    } else if m.spec_unique_pieces() == 2 {
        if connected_kings {
            Some(518int)
        } else {
            Some(462int)
        }
    } else if m.spec_min_like_man() == 2 {
        Some(278int)
    } else {
        None
    }
}

/// The groups of a piece list: the leading group, then the maximal runs
/// of equal pieces after it.
pub open spec fn spec_lens(s: Seq<Piece>, first: int) -> Seq<u8> {
    seq![first as u8].add(spec_runs(s, first))
}

/// Product of the sizes of the non-leading groups before group `t`:
/// group `g` placed on a board with `64 − prefix(g)` free squares
/// contributes one combination per choice of its squares.
pub open spec fn spec_prod_c(lens: Seq<u8>, t: int) -> int
    decreases t,
{
    if t <= 1 {
        1
    } else {
        spec_prod_c(lens, t - 1) * binom(
            (64 - lens_prefix(lens, t - 1)) as nat,
            lens[t - 1] as nat,
        )
    }
}

/// The multiplicative weight of group `g` in the index formula. The
/// `order` nibble says after how many non-leading groups the leading
/// group is placed; groups placed later weigh the sizes of all groups
/// placed before them.
pub open spec fn spec_factor(lens: Seq<u8>, order: int, lead: int, g: int) -> int {
    if g == 0 {
        spec_prod_c(lens, order + 1)
    } else if g > order {
        spec_prod_c(lens, g) * lead
    } else {
        spec_prod_c(lens, g)
    }
}

/// The total number of table entries: every group placed.
pub open spec fn spec_table_size(lens: Seq<u8>, lead: int) -> int {
    spec_prod_c(lens, lens.len() as int) * lead
}

/// Whether group and factor computation succeeds for this piece list.
pub open spec fn spec_groups_ok(s: Seq<Piece>, order: int, connected_kings: bool) -> bool {
    let m = Material::spec_from_pieces(s);
    &&& s.len() >= spec_first_len(m)
    &&& spec_lead_size(m, connected_kings) is Some
    &&& order < spec_lens(s, spec_first_len(m)).len()
    &&& spec_table_size(spec_lens(s, spec_first_len(m)), spec_lead_size(m, connected_kings)->0)
        < 0x1_0000_0000_0000_0000
}

/// A binomial with enough squares for its group is at least one.
pub proof fn lemma_binom_pos(n: nat, k: nat)
    requires
        k <= n,
    ensures
        binom(n, k) >= 1,
    decreases n,
{
    if k > 0 {
        lemma_binom_pos((n - 1) as nat, (k - 1) as nat);
    }
}

/// Group size products are positive and grow with the group index.
pub proof fn lemma_prod_c_le(lens: Seq<u8>, t1: int, t2: int)
    requires
        1 <= t1 <= t2 <= lens.len(),
        lens_prefix(lens, lens.len() as int) <= 64,
    ensures
        1 <= spec_prod_c(lens, t1) <= spec_prod_c(lens, t2),
    decreases t2,
{
    if t1 == t2 {
        if t1 == 1 {
        } else {
            lemma_prod_c_le(lens, t1 - 1, t1 - 1);
            let c = binom((64 - lens_prefix(lens, t1 - 1)) as nat, lens[t1 - 1] as nat);
            lemma_lens_prefix_mono(lens, t1, lens.len() as int);
            lemma_lens_prefix_mono(lens, 0, t1 - 1);
            assert(lens_prefix(lens, t1) == lens_prefix(lens, t1 - 1) + lens[t1 - 1]);
            lemma_binom_pos((64 - lens_prefix(lens, t1 - 1)) as nat, lens[t1 - 1] as nat);
            assert(spec_prod_c(lens, t1 - 1) * c >= 1) by (nonlinear_arith)
                requires
                    spec_prod_c(lens, t1 - 1) >= 1,
                    c >= 1,
            ;
        }
    } else {
        lemma_prod_c_le(lens, t1, t2 - 1);
        lemma_prod_c_le(lens, t2 - 1, t2 - 1);
        let c = binom((64 - lens_prefix(lens, t2 - 1)) as nat, lens[t2 - 1] as nat);
        lemma_lens_prefix_mono(lens, t2, lens.len() as int);
        lemma_lens_prefix_mono(lens, 0, t2 - 1);
        assert(lens_prefix(lens, t2) == lens_prefix(lens, t2 - 1) + lens[t2 - 1]);
        lemma_binom_pos((64 - lens_prefix(lens, t2 - 1)) as nat, lens[t2 - 1] as nat);
        assert(spec_prod_c(lens, t2 - 1) * c >= spec_prod_c(lens, t2 - 1)) by (nonlinear_arith)
            requires
                spec_prod_c(lens, t2 - 1) >= 1,
                c >= 1,
        ;
    }
}

/// Prefix sums of a sequence with one element put in front.
proof fn lemma_prefix_shift(head: u8, tail: Seq<u8>, g: int)
    requires
        0 <= g <= tail.len() + 1,
    ensures
        lens_prefix(seq![head].add(tail), g) == if g == 0 {
            0int
        } else {
            head + lens_prefix(tail, g - 1)
        },
    decreases g,
{
    if g > 0 {
        lemma_prefix_shift(head, tail, g - 1);
        assert(seq![head].add(tail)[g - 1] == if g == 1 {
            head
        } else {
            tail[g - 2]
        });
    }
}

/// A run observed piecewise is the run the model gives.
proof fn lemma_run_len_eq(s: Seq<Piece>, i: int, j: int)
    requires
        0 <= i < j <= s.len(),
        forall|t: int| i <= t < j ==> s[t] == s[i],
        j == s.len() || s[j] != s[i],
    ensures
        run_len(s, i) == j - i,
    decreases j - i,
{
    if i + 1 < j {
        assert(s[i + 1] == s[i]);
        lemma_run_len_eq(s, i + 1, j);
    }
}

/// The group list of one side of a table, with the factor of each group
/// in the index formula.
pub struct GroupData {
    /// The ordered piece list; order fixes which piece fills which slot.
    pub pieces: Vec<Piece>,
    /// Group sizes partitioning `pieces`.
    pub lens: Vec<u8>,
    /// The order nibble this side was built with.
    pub order: u8,
    /// Weight of each group; the last entry is the table size.
    pub factors: Vec<u64>,
}

impl GroupData {
    /// The group data a well-formed table holds: group sizes are the
    /// model's runs and every factor matches the index formula.
    pub open spec fn wf(self, connected_kings: bool) -> bool {
        let s = self.pieces@;
        let m = Material::spec_from_pieces(s);
        let first = spec_first_len(m);
        let lead = spec_lead_size(m, connected_kings)->0;
        &&& s.len() <= 7
        &&& spec_groups_ok(s, self.order as int, connected_kings)
        &&& self.lens@ == spec_lens(s, first)
        &&& lens_prefix(self.lens@, self.lens@.len() as int) == s.len()
        &&& self.factors@.len() == self.lens@.len() + 1
        &&& forall|g: int|
            0 <= g <= self.lens@.len() ==> self.factors@[g] == spec_factor(
                self.lens@,
                self.order as int,
                lead,
                g,
            )
    }

    /// The total table size this side indexes.
    pub open spec fn spec_size(self) -> u64 {
        self.factors@[self.lens@.len() as int]
    }

    /// Split a side's piece list into groups and compute each group's
    /// factor; fails on a list that no well-formed table produces.
    pub fn new(pieces: Vec<Piece>, order: u8, connected_kings: bool) -> (r: Result<
        GroupData,
        ProbeError,
    >)
        requires
            pieces@.len() <= 7,
            order < 16,
        ensures
            r is Ok <==> spec_groups_ok(pieces@, order as int, connected_kings),
            r is Ok ==> r->Ok_0.wf(connected_kings) && r->Ok_0.pieces@ == pieces@ && r->Ok_0.order
                == order,
            r is Err ==> r->Err_0 == ProbeError::CorruptedTable,
    {
        let ghost s = pieces@;
        let ghost m = Material::spec_from_pieces(s);
        let material = Material::from_pieces(&pieces);
        let unique = material.unique_pieces();
        let first: usize = if unique >= 3 {
            3
        } else {
            2
        };
        if pieces.len() < first {
            return Err(ProbeError::CorruptedTable);
        }
        let lead: u64 = if unique >= 3 {
            31332
        } else if unique == 2 {
            if connected_kings {
                518
            } else {
                462
            }
        } else if material.min_like_man() == 2 {
            278
        } else {
            return Err(ProbeError::CorruptedTable);
        };
        assert(Some(lead as int) == spec_lead_size(m, connected_kings));

        let mut lens: Vec<u8> = Vec::new();
        lens.push(first as u8);
        let mut i: usize = first;
        proof {
            assert(lens@ =~= seq![first as u8]);
        }
        while i < pieces.len()
            invariant
                s == pieces@,
                s.len() <= 7,
                first <= i <= s.len(),
                lens@.len() >= 1,
                lens@.add(spec_runs(s, i as int)) =~= spec_lens(s, first as int),
            decreases s.len() - i,
        {
            let p = pieces[i];
            let mut j: usize = i + 1;
            while j < pieces.len() && pieces[j] == p
                invariant
                    s == pieces@,
                    i < j <= s.len(),
                    p == s[i as int],
                    forall|t: int| i <= t < j ==> s[t] == s[i as int],
                decreases s.len() - j,
            {
                j = j + 1;
            }
            proof {
                lemma_run_len_eq(s, i as int, j as int);
                assert(spec_runs(s, i as int) =~= seq![(j - i) as u8].add(
                    spec_runs(s, j as int),
                ));
                assert(lens@.push((j - i) as u8).add(spec_runs(s, j as int)) =~= lens@.add(
                    spec_runs(s, i as int),
                ));
            }
            lens.push((j - i) as u8);
            i = j;
        }
        proof {
            assert(spec_runs(s, i as int) =~= Seq::<u8>::empty());
            assert(lens@ =~= spec_lens(s, first as int));
            lemma_runs_cover(s, first as int);
            lemma_prefix_shift(first as u8, spec_runs(s, first as int), lens@.len() as int);
        }
        let big_l: usize = lens.len();
        proof {
            assert(big_l <= 8);
            assert(lens@[0] == first as u8);
            assert(lens_prefix(lens@, 0) == 0);
            assert(lens_prefix(lens@, 1) == lens@[0]);
        }
        if order as usize >= big_l {
            // the order nibble never reaches the leading group
            proof {
                assert(!spec_groups_ok(s, order as int, connected_kings));
            }
            return Err(ProbeError::CorruptedTable);
        }

        let mut factors: Vec<u64> = Vec::new();
        let mut t: usize = 0;
        while t < big_l + 1
            invariant
                big_l <= 8,
                factors@.len() == t,
                t <= big_l + 1,
            decreases big_l + 1 - t,
        {
            factors.push(0);
            t = t + 1;
        }
        let mut f: u64 = 1;
        let mut n_free: u64 = 64 - first as u64;
        let mut g: usize = 1;
        let mut k: u32 = 0;
        let mut placed = false;
        while g < big_l || !placed
            invariant
                s == pieces@,
                s.len() <= 7,
                m == Material::spec_from_pieces(s),
                first == spec_first_len(m),
                Some(lead as int) == spec_lead_size(m, connected_kings),
                1 <= lead <= 31332,
                lens@ == spec_lens(s, first as int),
                big_l == lens@.len(),
                1 <= big_l <= 8,
                order < big_l,
                lens_prefix(lens@, big_l as int) == s.len(),
                factors@.len() == big_l + 1,
                1 <= g <= big_l,
                !placed ==> k == g - 1 && k <= order,
                placed ==> k == g && order < k,
                n_free == 64 - lens_prefix(lens@, g as int),
                f as int == spec_prod_c(lens@, g as int) * (if placed {
                    lead as int
                } else {
                    1int
                }),
                forall|g2: int|
                    1 <= g2 < g ==> factors@[g2] == spec_factor(
                        lens@,
                        order as int,
                        lead as int,
                        g2,
                    ),
                placed ==> factors@[0] == spec_factor(lens@, order as int, lead as int, 0),
            decreases big_l + 1 - k,
        {
            if !placed && k == order as u32 {
                factors.set(0, f);
                f = match f.checked_mul(lead) {
                    Some(x) => x,
                    None => {
                        proof {
                            overflow_means_too_big(lens@, lead as int, g as int);
                        }
                        return Err(ProbeError::CorruptedTable);
                    },
                };
                placed = true;
            } else {
                proof {
                    assert(g < big_l);
                    lemma_lens_prefix_mono(lens@, 0, g as int);
                    lemma_lens_prefix_mono(lens@, g + 1, big_l as int);
                    assert(lens_prefix(lens@, g + 1) == lens_prefix(lens@, g as int) + lens@[g as int]);
                }
                factors.set(g, f);
                let c = binomial(n_free, lens[g] as u64);
                let ghost f_old = f;
                f = match f.checked_mul(c) {
                    Some(x) => x,
                    None => {
                        proof {
                            let pg = spec_prod_c(lens@, g as int);
                            let cc = binom(
                                (64 - lens_prefix(lens@, g as int)) as nat,
                                lens@[g as int] as nat,
                            );
                            if placed {
                                assert((pg * lead) * cc == (pg * cc) * lead) by (nonlinear_arith);
                                assert(spec_prod_c(lens@, g + 1) * lead
                                    >= 0x1_0000_0000_0000_0000);
                            } else {
                                assert(spec_prod_c(lens@, g + 1) >= 0x1_0000_0000_0000_0000);
                                assert(spec_prod_c(lens@, g + 1) * lead >= spec_prod_c(
                                    lens@,
                                    g + 1,
                                )) by (nonlinear_arith)
                                    requires
                                        lead >= 1,
                                        spec_prod_c(lens@, g + 1) >= 0,
                                ;
                            }
                            overflow_means_too_big(lens@, lead as int, g + 1);
                        }
                        return Err(ProbeError::CorruptedTable);
                    },
                };
                proof {
                    if placed {
                        assert(f_old as int * c as int == (spec_prod_c(lens@, g as int) * binom(
                            (64 - lens_prefix(lens@, g as int)) as nat,
                            lens@[g as int] as nat,
                        )) * lead) by (nonlinear_arith)
                            requires
                                f_old as int == spec_prod_c(lens@, g as int) * lead,
                                c == binom(
                                    (64 - lens_prefix(lens@, g as int)) as nat,
                                    lens@[g as int] as nat,
                                ),
                        ;
                    }
                }
                n_free = n_free - lens[g] as u64;
                g = g + 1;
            }
            k = k + 1;
        }
        factors.set(big_l, f);
        Ok(GroupData { pieces, lens, order, factors })
    }
}

/// When a factor product no longer fits in 64 bits, the table size
/// cannot fit either.
proof fn overflow_means_too_big(lens: Seq<u8>, lead: int, g: int)
    requires
        1 <= g <= lens.len(),
        lens_prefix(lens, lens.len() as int) <= 64,
        1 <= lead,
        spec_prod_c(lens, g) * lead >= 0x1_0000_0000_0000_0000,
    ensures
        spec_table_size(lens, lead) >= 0x1_0000_0000_0000_0000,
{
    lemma_prod_c_le(lens, g, lens.len() as int);
    assert(spec_prod_c(lens, g) * lead <= spec_prod_c(lens, lens.len() as int) * lead)
        by (nonlinear_arith)
        requires
            spec_prod_c(lens, g) <= spec_prod_c(lens, lens.len() as int),
            lead >= 1,
    ;
}

} // verus!
