//! A set of opened tables, looked up by canonical material key.

use vstd::prelude::*;

use crate::errors::{ProbeError, ProbeResultExt, SyzygyError, SyzygyResult};
use crate::material::Material;
use crate::position::Position;
use crate::table::Table;
use crate::types::{Metric, Wdl};

verus! {

/// A collection of opened WDL tables. Adding a table parses and checks
/// it once; probing selects the table of the position's canonical
/// material key.
pub struct Tablebases {
    /// The opened tables.
    pub tables: Vec<Table>,
}

impl Tablebases {
    /// Every held table is well formed.
    pub open spec fn wf(self) -> bool {
        forall|i: int| 0 <= i < self.tables@.len() ==> (#[trigger] self.tables@[i]).wf()
    }

    /// Whether some held table answers for the given canonical key.
    pub open spec fn spec_has_table(self, key: Material) -> bool {
        exists|i: int| 0 <= i < self.tables@.len() && (#[trigger] self.tables@[i]).material == key
    }

    /// An empty set of tables.
    pub fn new() -> (r: Tablebases)
        ensures
            r.wf(),
            r.tables@.len() == 0,
    {
        Tablebases { tables: Vec::new() }
    }

    /// Open one table over the given bytes and add it to the set.
    pub fn add_table(&mut self, bytes: Vec<u8>) -> (r: Result<(), ProbeError>)
        requires
            old(self).wf(),
        ensures
            final(self).wf(),
            r is Ok ==> {
                let n = old(self).tables@.len() as int;
                &&& final(self).tables@.len() == n + 1
                &&& forall|i: int| 0 <= i < n ==> final(self).tables@[i] == old(self).tables@[i]
                &&& final(self).tables@[n].wf()
                &&& final(self).tables@[n].bytes@ == bytes@
            },
            r is Err ==> *final(self) == *old(self) && (r->Err_0 == ProbeError::CorruptedTable || r
                ->Err_0 matches ProbeError::Magic { .. }),
    {
        match Table::new(bytes) {
            Ok(t) => {
                self.tables.push(t);
                Ok(())
            },
            Err(e) => Err(e),
        }
    }

    /// Probe the win/draw/loss value of a position, from the side to
    /// move's point of view. A position with castling rights cannot be
    /// probed; one with more pieces than tables hold is rejected; one
    /// whose canonical material key has no table reports the missing
    /// table; and any failure inside the chosen table is wrapped with
    /// the material context.
    pub fn probe_wdl(&self, pos: &Position) -> (r: SyzygyResult<Wdl>)
        requires
            self.wf(),
            pos.wf(),
        ensures
            pos.castling ==> r == Err::<Wdl, SyzygyError>(SyzygyError::Castling),
            !pos.castling && pos.spec_piece_count() > 7 ==> r == Err::<Wdl, SyzygyError>(
                SyzygyError::TooManyPieces,
            ),
            !pos.castling && pos.spec_piece_count() <= 7 && !self.spec_has_table(
                pos.spec_material().spec_normalized(),
            ) ==> r == Err::<Wdl, SyzygyError>(
                SyzygyError::MissingTable {
                    metric: Metric::Wdl,
                    material: pos.spec_material().spec_normalized(),
                },
            ),
            !pos.castling && pos.spec_piece_count() <= 7 && self.spec_has_table(
                pos.spec_material().spec_normalized(),
            ) ==> (r is Ok || (r matches Err(
                SyzygyError::ProbeFailed { metric, material, error },
            ) && metric == Metric::Wdl && material == pos.spec_material().spec_normalized() && (
            error == ProbeError::CorruptedTable || error == ProbeError::Mismatch))),
            r is Err ==> (r->Err_0 == SyzygyError::Castling || r->Err_0
                == SyzygyError::TooManyPieces || r->Err_0 matches SyzygyError::MissingTable { .. }
                || r->Err_0 matches SyzygyError::ProbeFailed { .. }),
    {
        if pos.has_castling_rights() {
            return Err(SyzygyError::Castling);
        }
        if pos.piece_count() > 7 {
            return Err(SyzygyError::TooManyPieces);
        }
        let key = pos.material().into_normalized();
        let mut i: usize = 0;
        while i < self.tables.len()
            invariant
                self.wf(),
                pos.wf(),
                !pos.castling,
                pos.spec_piece_count() <= 7,
                key == pos.spec_material().spec_normalized(),
                i <= self.tables@.len(),
                forall|j: int| 0 <= j < i ==> (#[trigger] self.tables@[j]).material != key,
            decreases self.tables@.len() - i,
        {
            if self.tables[i].material == key {
                proof {
                    assert(self.spec_has_table(key));
                    pos.spec_material().lemma_normalized_canonical();
                }
                return self.tables[i].probe_wdl(pos).ctx(Metric::Wdl, key);
            }
            i = i + 1;
        }
        Err(SyzygyError::MissingTable { metric: Metric::Wdl, material: key })
    }
}

} // verus!
