use vstd::prelude::*;
use crate::bytes::{le64_bytes, lemma_le64_roundtrip, push_le64, read_le64, u64_from_le};
use crate::cells::cell_valid;
use crate::err::Error;
use crate::lut::{lemma_lut_roundtrip, lut_bytes, lut_decode, lut_decode_exec, lut_encode};
use crate::tree::{insert_all, map_after, map_insert, map_leaves, map_new, map_to_tree_bytes,
    resolve_cell, tree_bytes_get, tree_bytes_of, tree_lookup_of};

verus! {

/// Whether every cell of every set is a valid cell index.
pub open spec fn all_cells_valid(cellsets: Seq<Seq<u64>>) -> bool {
    forall|i: int, j: int|
        0 <= i < cellsets.len() && 0 <= j < cellsets[i].len() ==> cell_valid(
            #[trigger] cellsets[i][j],
        )
}

/// The exact bytes of the artifact built from a leaf mapping and the
/// interned values: the serialized mapping, the serialized label
/// table, and the table's position in eight little-endian bytes.  The
/// artifact is a function of the sources alone, so rebuilding from the
/// same inputs reproduces it byte for byte.
pub open spec fn artifact_bytes(leaves: Map<u64, u8>, values: Seq<Seq<u8>>) -> Seq<u8> {
    tree_bytes_of(leaves) + lut_bytes(values) + le64_bytes(tree_bytes_of(leaves).len() as u64)
}

/// The artifact's fixed layout: the serialized spatial mapping, then
/// the serialized label table, then eight little-endian bytes holding
/// the position where the table begins — equal to the mapping's
/// length.
pub open spec fn artifact_layout(art: Seq<u8>, values: Seq<Seq<u8>>) -> bool {
    let ptr = u64_from_le(art.skip(art.len() - 8)) as int;
    &&& art.len() >= 8
    &&& 0 <= ptr <= art.len() - 8
    &&& art == art.subrange(0, ptr) + lut_bytes(values) + le64_bytes(ptr as u64)
}

/// Assembles the artifact for the given sources, in order: the
/// position of a source is its one-byte label, `values` its interned
/// table entries, `cellsets` the normalized cells each source claims.
/// The artifact is the serialized spatial mapping, then the serialized
/// label table, then the eight-byte little-endian position where the
/// table starts.
pub fn assemble_artifact(values: Vec<Vec<u8>>, cellsets: Vec<Vec<u64>>) -> (r: Result<
    Vec<u8>,
    Error,
>)
    requires
        values@.len() == cellsets@.len(),
        all_cells_valid(cellsets.deep_view()),
    ensures
        values@.len() <= 256 ==> r is Ok,
        match r {
            Ok(art) => {
                &&& values@.len() <= 256
                &&& art@.len() >= 8
                &&& forall|c: u64|
                    cell_valid(c) ==> #[trigger] tree_lookup_of(art@, c) == Some(
                        resolve_cell(map_after(cellsets.deep_view()), c),
                    )
                &&& lut_decode(art@, u64_from_le(art@.skip(art@.len() - 8)) as int) == Some(
                    values.deep_view(),
                )
                &&& artifact_layout(art@, values.deep_view())
                &&& art@ == artifact_bytes(map_after(cellsets.deep_view()), values.deep_view())
            },
            Err(e) => e == Error::TooManySources(values@.len() as usize) && values@.len() > 256,
        },
{
    let n = values.len();
    if n > 256 {
        return Err(Error::TooManySources(n));
    }
    let ghost sets = cellsets.deep_view();
    assert(sets.len() == cellsets@.len());
    let mut m = map_new();
    let mut i: usize = 0;
    assert(map_leaves(m) =~= map_after(sets.subrange(0, 0)));
    while i < cellsets.len()
        invariant
            i <= cellsets@.len() == n <= 256,
            sets == cellsets.deep_view(),
            sets.len() == cellsets@.len(),
            forall|k: int| 0 <= k < cellsets@.len() ==> sets[k] == cellsets@[k]@,
            all_cells_valid(sets),
            map_leaves(m) == map_after(sets.subrange(0, i as int)),
        decreases cellsets@.len() - i,
    {
        let cells = &cellsets[i];
        let label = i as u8;
        let ghost start = map_leaves(m);
        let mut j: usize = 0;
        assert(insert_all(start, cells@.subrange(0, 0), label) == start);
        while j < cells.len()
            invariant
                j <= cells@.len(),
                i < cellsets@.len(),
                cells@ == cellsets@[i as int]@,
                sets == cellsets.deep_view(),
                sets.len() == cellsets@.len(),
                forall|k: int| 0 <= k < cellsets@.len() ==> sets[k] == cellsets@[k]@,
                all_cells_valid(sets),
                map_leaves(m) == insert_all(start, cells@.subrange(0, j as int), label),
            decreases cells@.len() - j,
        {
            let cell = cells[j];
            assert(cell_valid(cell)) by {
                assert(sets[i as int][j as int] == cell);
            }
            map_insert(&mut m, cell, label);
            j = j + 1;
            proof {
                let cur = cells@.subrange(0, j as int);
                assert(cur.drop_last() =~= cells@.subrange(0, j - 1));
                assert(cur.last() == cell);
            }
        }
        i = i + 1;
        proof {
            assert(cells@.subrange(0, cells@.len() as int) =~= cells@);
            let cur = sets.subrange(0, i as int);
            assert(cur.drop_last() =~= sets.subrange(0, i - 1));
            assert(cur.last() == cells@);
            assert(cur.len() == i);
        }
    }
    assert(sets.subrange(0, i as int) =~= sets);
    let tree_b = map_to_tree_bytes(&m);
    let lut_b = lut_encode(&values);
    // Each interned value fits its eight-byte length prefix: its
    // length is bounded by the machine's word.
    let mut vi: usize = 0;
    while vi < values.len()
        invariant
            vi <= values@.len(),
            forall|k: int| 0 <= k < vi ==> (#[trigger] values@[k])@.len() <= u64::MAX,
        decreases values@.len() - vi,
    {
        let l = values[vi].len();
        assert(l <= u64::MAX);
        vi = vi + 1;
    }
    let pos = tree_b.len();
    let mut art = tree_b;
    let mut lut_owned = lut_b;
    let ghost tree_view = art@;
    let ghost lut_view = lut_owned@;
    art.append(&mut lut_owned);
    push_le64(&mut art, pos as u64);
    proof {
        assert(art@ == tree_view + lut_view + le64_bytes(pos as u64));
        assert(tree_view.is_prefix_of(art@)) by {
            assert(art@.subrange(0, tree_view.len() as int) =~= tree_view);
        }
        lemma_le64_roundtrip(pos as u64);
        assert(art@.skip(art@.len() - 8) =~= le64_bytes(pos as u64));
        assert(u64_from_le(art@.skip(art@.len() - 8)) as int == pos as int);
        assert forall|k: int| 0 <= k < values.deep_view().len() implies (
        #[trigger] values.deep_view()[k]).len() <= u64::MAX by {
            assert(values.deep_view()[k] =~= values@[k]@);
        }
        lemma_lut_roundtrip(tree_view, values.deep_view(), le64_bytes(pos as u64));
        assert(lut_view == lut_bytes(values.deep_view()));
        assert(tree_view + lut_bytes(values.deep_view()) + le64_bytes(pos as u64) =~= art@);
        assert(artifact_layout(art@, values.deep_view())) by {
            assert(art@.subrange(0, pos as int) =~= tree_view);
            assert(art@.subrange(0, pos as int) + lut_bytes(values.deep_view()) + le64_bytes(
                pos as u64,
            ) =~= art@);
        }
        assert(art@ == artifact_bytes(map_after(sets), values.deep_view())) by {
            assert(tree_view == tree_bytes_of(map_after(sets)));
        }
    }
    Ok(art)
}

/// What a point query reads out of an artifact's bytes: the trailing
/// pointer locates the label table; the mapping resolves the cell to a
/// label, or to no entry; the label indexes the table.
pub open spec fn query_spec(art: Seq<u8>, cell: u64) -> Result<Option<Seq<u8>>, Error> {
    if art.len() < 8 {
        Err(Error::CorruptArtifact)
    } else {
        let ptr = u64_from_le(art.skip(art.len() - 8)) as int;
        match lut_decode(art, ptr) {
            None => Err(Error::CorruptArtifact),
            Some(lut) => match tree_lookup_of(art, cell) {
                None => Err(Error::CorruptArtifact),
                Some(None) => Ok(None),
                Some(Some(label)) => if label < lut.len() {
                    Ok(Some(lut[label as int]))
                } else {
                    Err(Error::LabelOutOfRange(label))
                },
            },
        }
    }
}

/// Resolves one cell against an artifact, validating the cell index
/// first: an invalid index is rejected, never silently coerced.
pub fn lookup(art: &Vec<u8>, cell: u64) -> (r: Result<Option<Vec<u8>>, Error>)
    ensures
        !cell_valid(cell) ==> r == Err::<Option<Vec<u8>>, Error>(Error::InvalidCell(cell)),
        cell_valid(cell) ==> match r {
            Ok(o) => match o {
                Some(v) => query_spec(art@, cell) == Ok::<Option<Seq<u8>>, Error>(Some(v@)),
                None => query_spec(art@, cell) == Ok::<Option<Seq<u8>>, Error>(None),
            },
            Err(e) => query_spec(art@, cell) == Err::<Option<Seq<u8>>, Error>(e),
        },
{
    if !crate::cells::cell_is_valid(cell) {
        return Err(Error::InvalidCell(cell));
    }
    query_artifact(art, cell)
}

/// Resolves one cell against an artifact: recovers the label table
/// through the trailing pointer, queries the spatial mapping, and
/// interprets the resolved label.  A missing entry is a clean `None`,
/// not an error.
pub fn query_artifact(art: &Vec<u8>, cell: u64) -> (r: Result<Option<Vec<u8>>, Error>)
    requires
        cell_valid(cell),
    ensures
        match r {
            Ok(o) => match o {
                Some(v) => query_spec(art@, cell) == Ok::<Option<Seq<u8>>, Error>(Some(v@)),
                None => query_spec(art@, cell) == Ok::<Option<Seq<u8>>, Error>(None),
            },
            Err(e) => query_spec(art@, cell) == Err::<Option<Seq<u8>>, Error>(e),
        },
{
    let len = art.len();
    if len < 8 {
        return Err(Error::CorruptArtifact);
    }
    let ptr = read_le64(art, len - 8);
    proof {
        assert(art@.subrange(len - 8, len as int) =~= art@.skip(art@.len() - 8));
    }
    if ptr > len as u64 {
        assert(lut_decode(art@, ptr as int) is None);
        return Err(Error::CorruptArtifact);
    }
    let mut lut = match lut_decode_exec(art, ptr as usize) {
        Ok(v) => v,
        Err(e) => {
            return Err(e);
        },
    };
    let resolved = match tree_bytes_get(art, cell) {
        Ok(o) => o,
        Err(e) => {
            return Err(e);
        },
    };
    match resolved {
        None => Ok(None),
        Some(label) => {
            let ghost lutdv = lut.deep_view();
            if (label as usize) < lut.len() {
                let v = lut.remove(label as usize);
                assert(v@ == lutdv[label as int]);
                Ok(Some(v))
            } else {
                Err(Error::LabelOutOfRange(label))
            }
        },
    }
}

} // verus!
