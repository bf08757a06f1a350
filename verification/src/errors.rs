//! Errors reported while probing tablebases.

use vstd::prelude::*;

use crate::material::Material;
use crate::types::Metric;

verus! {

/// Error from probing inside one table.
#[derive(Clone, Copy, PartialEq, Eq, Structural, Debug)]
pub enum ProbeError {
    /// The underlying byte range could not be read.
    Read,
    /// The table file starts with unexpected magic bytes; the four bytes
    /// are packed little-endian into the value.
    Magic { magic: u32 },
    /// An invariant of the table format is broken: a bad offset, a
    /// non-monotone base array, an invalid piece or value byte, or an
    /// unexpected end of data.
    CorruptedTable,
    /// The probed position's pieces do not match the table's piece
    /// list, so a listed piece has no square to take.
    Mismatch,
}

/// Error from a tablebase query.
#[derive(Clone, PartialEq, Eq, Structural, Debug)]
pub enum SyzygyError {
    /// The position has castling rights, which tables do not index.
    Castling,
    /// The position has more pieces than any table supports.
    TooManyPieces,
    /// No table is loaded for the needed material and metric.
    MissingTable { metric: Metric, material: Material },
    /// A loaded table failed to answer.
    ProbeFailed { metric: Metric, material: Material, error: ProbeError },
}

/// Outcome of a query against a set of tables.
pub type SyzygyResult<T> = Result<T, SyzygyError>;

/// Outcome of work inside one table.
pub type ProbeResult<T> = Result<T, ProbeError>;

/// Adds material and metric context to low-level probe errors.
pub trait ProbeResultExt<T> {
    /// What `ctx` returns.
    spec fn spec_ctx(self, metric: Metric, material: Material) -> SyzygyResult<T>;

    /// Wrap the error case, if any, as a `ProbeFailed` with the given
    /// context; the material is reported in its canonical orientation.
    fn ctx(self, metric: Metric, material: Material) -> (r: SyzygyResult<T>)
        ensures
            r == self.spec_ctx(metric, material),
    ;
}

impl<T> ProbeResultExt<T> for ProbeResult<T> {
    open spec fn spec_ctx(self, metric: Metric, material: Material) -> SyzygyResult<T> {
        match self {
            Ok(v) => Ok(v),
            Err(error) => Err(
                SyzygyError::ProbeFailed {
                    metric,
                    material: material.spec_normalized(),
                    error,
                },
            ),
        }
    }

    fn ctx(self, metric: Metric, material: Material) -> (r: SyzygyResult<T>) {
        match self {
            Ok(v) => Ok(v),
            Err(error) => Err(
                SyzygyError::ProbeFailed { metric, material: material.into_normalized(), error },
            ),
        }
    }
}

} // verus!
