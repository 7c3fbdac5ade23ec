use vstd::prelude::*;

verus! {

/// The failures a build or a query can report.
///
/// Every build failure aborts the whole build; no partial artifact is
/// meaningful.  At query time, `CorruptArtifact` and `LabelOutOfRange`
/// describe a damaged artifact file; a clean miss is not an error and
/// is reported as `Ok(None)` by the query itself.
#[derive(Clone, Copy, Debug, PartialEq, Eq, Structural)]
pub enum Error {
    /// A source stream was not valid gzip data.
    BadGzip,
    /// A decoded record is not a valid cell index.
    InvalidCell(u64),
    /// A source's deduplicated cells do not share one resolution, so
    /// the set cannot be compacted.
    MixedResolutions,
    /// More sources than a one-byte label can address.
    TooManySources(usize),
    /// The feature at this position carries no properties object.
    MissingProperties(usize),
    /// The feature at this position carries no geometry.
    MissingGeometry(usize),
    /// The geometry of the feature at this position could not be
    /// rasterized into cells.
    BadGeometry(usize),
    /// The artifact's bytes cannot be read back as a spatial mapping
    /// followed by a label table and a trailing table pointer.
    CorruptArtifact,
    /// The mapping resolved a cell to a label with no interned value.
    LabelOutOfRange(u8),
}

} // verus!
