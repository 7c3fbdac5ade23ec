use vstd::prelude::*;
use crate::cells::{cell_ancestor, cell_valid, covers};
use crate::err::Error;

verus! {

#[verifier::external_type_specification]
#[verifier::external_body]
#[verifier::reject_recursive_types(V)]
#[verifier::reject_recursive_types(C)]
pub struct ExHexTreeMap<V, C>(hextree::HexTreeMap<V, C>);

#[verifier::external_type_specification]
#[verifier::external_body]
pub struct ExNullCompactor(hextree::compaction::NullCompactor);

/// The in-memory spatial mapping: cells to one-byte labels.
pub type LabelMap = hextree::HexTreeMap<u8, hextree::compaction::NullCompactor>;

/// The leaf entries of a spatial mapping: the cells it stores, each
/// with its label.  No leaf is an ancestor of another.
pub uninterp spec fn map_leaves(m: LabelMap) -> Map<u64, u8>;

/// Whether a strict ancestor of `cell` already holds a leaf, so that
/// an insertion of `cell` is dropped.
pub open spec fn blocked(leaves: Map<u64, u8>, cell: u64) -> bool {
    exists|a: u64| #[trigger] leaves.dom().contains(a) && cell_ancestor(a, cell)
}

/// One insertion into the leaf map: an exact leaf is overwritten; a
/// cell under an existing leaf is dropped; otherwise the cell becomes
/// a leaf and every leaf below it is removed.
pub open spec fn spec_insert(leaves: Map<u64, u8>, cell: u64, label: u8) -> Map<u64, u8> {
    if leaves.dom().contains(cell) {
        leaves.insert(cell, label)
    } else if blocked(leaves, cell) {
        leaves
    } else {
        Map::new(
            |k: u64| (leaves.dom().contains(k) && !cell_ancestor(cell, k)) || k == cell,
            |k: u64|
                if k == cell {
                    label
                } else {
                    leaves[k]
                },
        )
    }
}

/// The label a point query resolves `c` to: the label of the leaf at
/// `c` or at an ancestor of `c`, if one exists.
pub open spec fn resolve_cell(leaves: Map<u64, u8>, c: u64) -> Option<u8> {
    if exists|a: u64| #[trigger] leaves.dom().contains(a) && covers(a, c) {
        Some(leaves[choose|a: u64| #[trigger] leaves.dom().contains(a) && covers(a, c)])
    } else {
        None
    }
}

/// The leaf map after inserting every cell of `cells`, in order, with
/// one label.
pub open spec fn insert_all(m: Map<u64, u8>, cells: Seq<u64>, label: u8) -> Map<u64, u8>
    decreases cells.len(),
{
    if cells.len() == 0 {
        m
    } else {
        spec_insert(insert_all(m, cells.drop_last(), label), cells.last(), label)
    }
}

/// The leaf map after inserting every source's cells in source order,
/// the position of a source being its label.
pub open spec fn map_after(sources: Seq<Seq<u64>>) -> Map<u64, u8>
    decreases sources.len(),
{
    if sources.len() == 0 {
        Map::empty()
    } else {
        insert_all(map_after(sources.drop_last()), sources.last(), (sources.len() - 1) as u8)
    }
}

/// The leaf map with no entries.
pub open spec fn empty_leaves() -> Map<u64, u8> {
    Map::empty()
}

/// Relies on hextree::HexTreeMap::new: the empty mapping.
#[verifier::external_body]
pub(crate) fn map_new() -> (r: LabelMap)
    ensures
        map_leaves(r) == empty_leaves(),
{
    hextree::HexTreeMap::new()
}

/// Relies on hextree::HexTreeMap::insert: a cell whose strict ancestor
/// already holds a leaf is dropped; otherwise the cell becomes a leaf,
/// replacing any leaf at the cell itself and removing every leaf below
/// it.
#[verifier::external_body]
pub(crate) fn map_insert(m: &mut LabelMap, cell: u64, label: u8)
    requires
        cell_valid(cell),
    ensures
        map_leaves(*final(m)) == spec_insert(map_leaves(*old(m)), cell, label),
{
    m.insert(hextree::Cell::from_raw(cell).expect("a valid cell index"), label);
}

/// What reading a disktree byte stream resolves a cell to: `None` when
/// the bytes cannot be read as a disktree, otherwise the label of the
/// nearest enclosing leaf, if any.  Named after
/// hextree::disktree::DiskTreeMap, whose answers depend on the bytes
/// and the cell alone.
pub uninterp spec fn tree_lookup_of(bytes: Seq<u8>, cell: u64) -> Option<Option<u8>>;

/// The serialized form of a spatial mapping with the given leaves.
/// Named after hextree::HexTreeMap::to_disktree: the node tree holds
/// parents exactly along the paths to its leaves, so the tree and the
/// writer's fixed traversal of it are functions of the leaf entries
/// alone.
pub uninterp spec fn tree_bytes_of(leaves: Map<u64, u8>) -> Seq<u8>;

/// Relies on hextree::HexTreeMap::to_disktree and
/// hextree::disktree::DiskTreeMap::get: the serialized tree answers
/// point queries as the in-memory map does, and its reader never looks
/// past the serialized bytes, so appending more bytes changes no
/// answer.  Serializing into a memory buffer cannot fail: writes and
/// seeks on a growable buffer are infallible, and each value is one
/// byte, far below the length-prefix cap.
#[verifier::external_body]
pub(crate) fn map_to_tree_bytes(m: &LabelMap) -> (r: Vec<u8>)
    ensures
        r@ == tree_bytes_of(map_leaves(*m)),
        forall|bytes2: Seq<u8>, c: u64|
            cell_valid(c) && r@.is_prefix_of(bytes2) ==> #[trigger] tree_lookup_of(bytes2, c)
                == Some(resolve_cell(map_leaves(*m), c)),
{
    let mut cur = std::io::Cursor::new(Vec::new());
    m.to_disktree(&mut cur, |wtr, val: &u8| std::io::Write::write_all(wtr, &[*val]))
        .expect("writing into a memory buffer cannot fail");
    cur.into_inner()
}

/// Relies on hextree::disktree::DiskTreeMap: `with_buf` checks the
/// header and `get` resolves a cell to the value bytes of its nearest
/// enclosing leaf, reading from the given bytes alone.  The reader
/// trusts a leaf's declared value range, so the copy it is given is
/// padded past the largest range a leaf can declare (its length prefix
/// is a varint below 1 << 27): on damaged bytes the read then yields
/// padding instead of indexing out of bounds.  A version byte above
/// 0xFE, which the reader rejects, is rejected here first: the
/// reader's check would subtract it from 0xFE.
#[verifier::external_body]
pub(crate) fn tree_bytes_get(bytes: &Vec<u8>, cell: u64) -> (r: Result<Option<u8>, Error>)
    requires
        cell_valid(cell),
    ensures
        match r {
            Ok(o) => tree_lookup_of(bytes@, cell) == Some(o),
            Err(e) => tree_lookup_of(bytes@, cell) is None && e == Error::CorruptArtifact,
        },
{
    if bytes.len() > 8 && bytes[8] > 0xfe {
        return Err(Error::CorruptArtifact);
    }
    let mut buf = bytes.clone();
    buf.resize(bytes.len() + (1 << 27) + 64, 0);
    let tree = match hextree::disktree::DiskTreeMap::with_buf(buf) {
        Ok(t) => t,
        Err(_) => return Err(Error::CorruptArtifact),
    };
    match tree.get(hextree::Cell::from_raw(cell).expect("a valid cell index")) {
        Ok(Some((_, v))) => v.first().map(|b| Some(*b)).ok_or(Error::CorruptArtifact),
        Ok(None) => Ok(None),
        Err(_) => Err(Error::CorruptArtifact),
    }
}

} // verus!
