use vstd::prelude::*;
use crate::artifact::query_spec;
use crate::bytes::u64_from_le;
use crate::cells::{cell_ancestor, cell_valid, covers};
use crate::err::Error;
use crate::generate::{cells_of, generate_witness, names_of, NamedSet, SetInput};
use crate::lut::lut_decode;
use crate::tree::{blocked, insert_all, map_after, resolve_cell, spec_insert, tree_lookup_of};

verus! {

/// Whether some source of the run claims the cell `c` itself.
pub open spec fn claims(sources: Seq<Seq<u64>>, c: u64) -> bool {
    exists|k: int| 0 <= k < sources.len() && (#[trigger] sources[k]).contains(c)
}

/// The position of the last source claiming `c`.
pub open spec fn last_claim(sources: Seq<Seq<u64>>, c: u64) -> int
    decreases sources.len(),
{
    if sources.len() == 0 {
        -1
    } else if sources.last().contains(c) {
        sources.len() - 1
    } else {
        last_claim(sources.drop_last(), c)
    }
}

/// Whether no cell of any source is a strict ancestor of `c`: then no
/// source hides or shadows `c` from above.
pub open spec fn no_ancestor_claims(sources: Seq<Seq<u64>>, c: u64) -> bool {
    forall|k: int, x: u64|
        0 <= k < sources.len() && #[trigger] sources[k].contains(x) ==> !cell_ancestor(x, c)
}

proof fn lemma_insert_all_cell(m: Map<u64, u8>, cells: Seq<u64>, label: u8, c: u64)
    requires
        forall|x: u64| #[trigger] cells.contains(x) ==> !cell_ancestor(x, c),
        forall|a: u64| #[trigger] m.dom().contains(a) ==> !cell_ancestor(a, c),
    ensures
        insert_all(m, cells, label).dom().contains(c) == (cells.contains(c) || m.dom().contains(
            c,
        )),
        cells.contains(c) ==> insert_all(m, cells, label)[c] == label,
        !cells.contains(c) && m.dom().contains(c) ==> insert_all(m, cells, label)[c] == m[c],
        forall|a: u64|
            #[trigger] insert_all(m, cells, label).dom().contains(a) ==> !cell_ancestor(a, c),
        forall|a: u64|
            #[trigger] insert_all(m, cells, label).dom().contains(a) ==> m.dom().contains(a)
                || cells.contains(a),
    decreases cells.len(),
{
    if cells.len() == 0 {
        assert(!cells.contains(c));
    } else {
        let x = cells.last();
        let rest = cells.drop_last();
        assert(cells.contains(x)) by {
            assert(cells[cells.len() - 1] == x);
        }
        assert forall|y: u64| #[trigger] rest.contains(y) implies cells.contains(y) by {
            let k = choose|k: int| 0 <= k < rest.len() && rest[k] == y;
            assert(cells[k] == y);
        }
        lemma_insert_all_cell(m, rest, label, c);
        let m1 = insert_all(m, rest, label);
        assert(insert_all(m, cells, label) == spec_insert(m1, x, label));
        assert(cells.contains(c) == (rest.contains(c) || x == c)) by {
            if cells.contains(c) && x != c {
                let k = choose|k: int| 0 <= k < cells.len() && cells[k] == c;
                assert(rest[k] == c);
                assert(rest.contains(c));
            }
        }
        if m1.dom().contains(x) {
            assert(spec_insert(m1, x, label) == m1.insert(x, label));
        } else if blocked(m1, x) {
            // the insertion is dropped; no leaf of m1 is an ancestor of c,
            // so the blocking leaf cannot sit at c, and c cannot be x
            let a = choose|a: u64| #[trigger] m1.dom().contains(a) && cell_ancestor(a, x);
            assert(!cell_ancestor(a, c));
            assert(spec_insert(m1, x, label) == m1);
            if x == c {
                assert(false);
            }
        } else {
            assert(spec_insert(m1, x, label) == Map::new(
                |k: u64| (m1.dom().contains(k) && !cell_ancestor(x, k)) || k == x,
                |k: u64|
                    if k == x {
                        label
                    } else {
                        m1[k]
                    },
            ));
            assert(!cell_ancestor(x, c));
        }
    }
}

/// How a built mapping answers for a cell that no source shadows from
/// above: the last source claiming the cell wins, and a cell that no
/// source claims stays absent.
pub proof fn lemma_map_after_cell(sources: Seq<Seq<u64>>, c: u64)
    requires
        no_ancestor_claims(sources, c),
    ensures
        claims(sources, c) ==> {
            &&& 0 <= last_claim(sources, c) < sources.len()
            &&& map_after(sources).dom().contains(c)
            &&& map_after(sources)[c] == last_claim(sources, c) as u8
            &&& resolve_cell(map_after(sources), c) == Some(last_claim(sources, c) as u8)
        },
        !claims(sources, c) ==> {
            &&& !map_after(sources).dom().contains(c)
            &&& resolve_cell(map_after(sources), c) is None
        },
        forall|a: u64| #[trigger] map_after(sources).dom().contains(a) ==> !cell_ancestor(a, c),
        forall|a: u64|
            #[trigger] map_after(sources).dom().contains(a) ==> exists|k: int|
                0 <= k < sources.len() && (#[trigger] sources[k]).contains(a),
    decreases sources.len(),
{
    if sources.len() == 0 {
        assert(map_after(sources) == Map::<u64, u8>::empty());
        assert(!claims(sources, c));
        assert(resolve_cell(map_after(sources), c) is None) by {
            assert(forall|a: u64| !(#[trigger] map_after(sources).dom().contains(a)));
        }
    } else {
        let rest = sources.drop_last();
        let cells = sources.last();
        assert(sources.contains(cells)) by {
            assert(sources[sources.len() - 1] == cells);
        }
        assert forall|k: int, x: u64|
            0 <= k < rest.len() && #[trigger] rest[k].contains(x) implies !cell_ancestor(
            x,
            c,
        ) by {
            assert(sources[k] == rest[k]);
        }
        lemma_map_after_cell(rest, c);
        let m = map_after(rest);
        assert forall|x: u64| #[trigger] cells.contains(x) implies !cell_ancestor(x, c) by {
            assert(sources[sources.len() - 1] == cells);
        }
        lemma_insert_all_cell(m, cells, (sources.len() - 1) as u8, c);
        assert(map_after(sources) == insert_all(m, cells, (sources.len() - 1) as u8));
        assert(claims(sources, c) == (cells.contains(c) || claims(rest, c))) by {
            if claims(sources, c) {
                let k = choose|k: int|
                    0 <= k < sources.len() && (#[trigger] sources[k]).contains(c);
                if k < sources.len() - 1 {
                    assert(rest[k].contains(c));
                }
            }
            if claims(rest, c) {
                let k = choose|k: int| 0 <= k < rest.len() && (#[trigger] rest[k]).contains(c);
                assert(sources[k].contains(c));
            }
        }
        let ma = map_after(sources);
        assert forall|a: u64| #[trigger] ma.dom().contains(a) implies exists|k: int|
            0 <= k < sources.len() && (#[trigger] sources[k]).contains(a) by {
            if m.dom().contains(a) {
                let k = choose|k: int| 0 <= k < rest.len() && (#[trigger] rest[k]).contains(a);
                assert(sources[k].contains(a));
            } else {
                assert(cells.contains(a));
                assert(sources[sources.len() - 1].contains(a));
            }
        }
        if claims(sources, c) {
            assert(ma.dom().contains(c));
            assert(ma[c] == last_claim(sources, c) as u8);
            assert(resolve_cell(ma, c) == Some(ma[c])) by {
                assert(ma.dom().contains(c) && covers(c, c));
                let a = choose|a: u64| #[trigger] ma.dom().contains(a) && covers(a, c);
                assert(!cell_ancestor(a, c));
                assert(a == c);
            }
        } else {
            assert(!ma.dom().contains(c));
            assert(resolve_cell(ma, c) is None) by {
                if exists|a: u64| #[trigger] ma.dom().contains(a) && covers(a, c) {
                    let a = choose|a: u64| #[trigger] ma.dom().contains(a) && covers(a, c);
                    assert(!cell_ancestor(a, c));
                    assert(a == c);
                }
            }
        }
    }
}

proof fn lemma_last_claim_at(sources: Seq<Seq<u64>>, c: u64, j: int)
    requires
        0 <= j < sources.len(),
        sources[j].contains(c),
        forall|k: int| j < k < sources.len() ==> !(#[trigger] sources[k]).contains(c),
    ensures
        last_claim(sources, c) == j,
    decreases sources.len(),
{
    if j == sources.len() - 1 {
        assert(sources.last().contains(c));
    } else {
        assert(!sources.last().contains(c)) by {
            assert(sources[sources.len() - 1] == sources.last());
        }
        let rest = sources.drop_last();
        assert(rest[j] == sources[j]);
        assert(forall|k: int| j < k < rest.len() ==> !(#[trigger] rest[k]).contains(c)) by {
            assert(forall|k: int| 0 <= k < rest.len() ==> rest[k] == sources[k]);
        }
        lemma_last_claim_at(rest, c, j);
    }
}

/// Overlap determinism: when two sources claim the same cell, nothing
/// claims it later, and nothing shadows it from above, the mapping
/// resolves the cell to the later source's label — consistently, since
/// the mapping is a function of the sorted sources alone.
pub proof fn lemma_overlap_later_source_wins(sources: Seq<Seq<u64>>, c: u64, i: int, j: int)
    requires
        0 <= i < j < sources.len(),
        sources[i].contains(c),
        sources[j].contains(c),
        forall|k: int| j < k < sources.len() ==> !(#[trigger] sources[k]).contains(c),
        no_ancestor_claims(sources, c),
    ensures
        resolve_cell(map_after(sources), c) == Some(j as u8),
{
    assert(claims(sources, c));
    lemma_last_claim_at(sources, c, j);
    lemma_map_after_cell(sources, c);
}

/// A cell claimed by exactly one source, and shadowed by none,
/// resolves to that source's label.
pub proof fn lemma_unique_source_wins(sources: Seq<Seq<u64>>, c: u64, i: int)
    requires
        0 <= i < sources.len(),
        sources[i].contains(c),
        forall|k: int|
            0 <= k < sources.len() && k != i ==> !(#[trigger] sources[k]).contains(c),
        no_ancestor_claims(sources, c),
    ensures
        resolve_cell(map_after(sources), c) == Some(i as u8),
{
    assert(claims(sources, c));
    lemma_last_claim_at(sources, c, i);
    lemma_map_after_cell(sources, c);
}

/// A cell covered by one source's cell `o` — itself, or an ancestor
/// that normalization coalesced it into — resolves to the label of the
/// last source claiming `o`, provided nothing else covers the cell and
/// nothing shadows `o` from above.
pub proof fn lemma_covering_source_wins(sources: Seq<Seq<u64>>, c: u64, o: u64, i: int)
    requires
        0 <= i < sources.len(),
        sources[i].contains(o),
        covers(o, c),
        forall|k: int| i < k < sources.len() ==> !(#[trigger] sources[k]).contains(o),
        no_ancestor_claims(sources, o),
        forall|k: int, x: u64|
            0 <= k < sources.len() && #[trigger] sources[k].contains(x) && covers(x, c) ==> x == o,
    ensures
        resolve_cell(map_after(sources), c) == Some(i as u8),
{
    lemma_last_claim_at(sources, o, i);
    assert(claims(sources, o)) by {
        assert(sources[i].contains(o));
    }
    lemma_map_after_cell(sources, o);
    let m = map_after(sources);
    assert(m.dom().contains(o) && m[o] == i as u8);
    assert(m.dom().contains(o) && covers(o, c));
    let a0 = choose|a: u64| #[trigger] m.dom().contains(a) && covers(a, c);
    assert(resolve_cell(m, c) == Some(m[a0]));
    assert(a0 == o) by {
        let k = choose|k: int| 0 <= k < sources.len() && (#[trigger] sources[k]).contains(a0);
        assert(sources[k].contains(a0) && covers(a0, c));
    }
}

/// A cell that no source claims or covers resolves to no entry — a
/// clean miss, not an error and not the first label.
pub proof fn lemma_unclaimed_cell_misses(sources: Seq<Seq<u64>>, c: u64)
    requires
        !claims(sources, c),
        no_ancestor_claims(sources, c),
    ensures
        resolve_cell(map_after(sources), c) is None,
{
    lemma_map_after_cell(sources, c);
}

/// End to end, for an artifact built from binary sources: a cell
/// covered by one cell `o` of the source at sorted position `i` — the
/// cell itself, or an ancestor its normalization coalesced it into —
/// with `o` claimed by no later source, covered by nothing else, and
/// shadowed by none, is looked up as that source's region name.
pub proof fn lemma_generate_lookup(
    inputs: Seq<SetInput>,
    art: Seq<u8>,
    arranged: Seq<NamedSet>,
    c: u64,
    o: u64,
    i: int,
)
    requires
        art.len() >= 8,
        generate_witness(inputs, art, arranged),
        cell_valid(c),
        0 <= i < arranged.len() <= 256,
        arranged[i].cells@.contains(o),
        covers(o, c),
        forall|k: int| i < k < arranged.len() ==> !(#[trigger] arranged[k]).cells@.contains(o),
        no_ancestor_claims(cells_of(arranged), o),
        forall|k: int, x: u64|
            0 <= k < cells_of(arranged).len() && #[trigger] cells_of(arranged)[k].contains(x)
                && covers(x, c) ==> x == o,
    ensures
        query_spec(art, c) == Ok::<Option<Seq<u8>>, Error>(Some(arranged[i].name@)),
{
    let sources = cells_of(arranged);
    assert(sources[i] == arranged[i].cells@);
    assert(sources[i].contains(o));
    assert forall|k: int| i < k < sources.len() implies !(#[trigger] sources[k]).contains(o) by {
        assert(sources[k] == arranged[k].cells@);
    }
    lemma_covering_source_wins(sources, c, o, i);
    assert(tree_lookup_of(art, c) == Some(resolve_cell(map_after(sources), c)));
    let ptr = u64_from_le(art.skip(art.len() - 8)) as int;
    assert(lut_decode(art, ptr) == Some(names_of(arranged)));
    assert(names_of(arranged)[i] == arranged[i].name@);
}

/// End to end: a valid cell that no source claims or covers is looked
/// up as "no entry", never as an error and never as a label.
pub proof fn lemma_generate_miss(
    inputs: Seq<SetInput>,
    art: Seq<u8>,
    arranged: Seq<NamedSet>,
    c: u64,
)
    requires
        art.len() >= 8,
        generate_witness(inputs, art, arranged),
        cell_valid(c),
        !claims(cells_of(arranged), c),
        no_ancestor_claims(cells_of(arranged), c),
    ensures
        query_spec(art, c) == Ok::<Option<Seq<u8>>, Error>(None),
{
    lemma_map_after_cell(cells_of(arranged), c);
    let ptr = u64_from_le(art.skip(art.len() - 8)) as int;
    assert(lut_decode(art, ptr) == Some(names_of(arranged)));
    assert(tree_lookup_of(art, c) == Some(resolve_cell(map_after(cells_of(arranged)), c)));
}

/// End to end, for an artifact built from a geometry collection: a
/// cell covered by one cell `o` of the feature at position `i`'s
/// normalized rasterization — the cell itself, or an ancestor it was
/// coalesced into — with `o` claimed by no later feature, covered by
/// nothing else, and shadowed by none, is looked up as that feature's
/// properties.
pub proof fn lemma_world_lookup(
    art: Seq<u8>,
    features: Seq<crate::world::FeatureSource>,
    entries: Seq<Seq<u64>>,
    c: u64,
    o: u64,
    i: int,
)
    requires
        art.len() >= 8,
        crate::world::world_witness(art, features.len() as int, entries),
        lut_decode(art, u64_from_le(art.skip(art.len() - 8)) as int) == Some(
            crate::world::properties_of(features),
        ),
        cell_valid(c),
        0 <= i < entries.len() <= 256,
        entries[i].contains(o),
        covers(o, c),
        forall|k: int| i < k < entries.len() ==> !(#[trigger] entries[k]).contains(o),
        no_ancestor_claims(entries, o),
        forall|k: int, x: u64|
            0 <= k < entries.len() && #[trigger] entries[k].contains(x) && covers(x, c) ==> x == o,
    ensures
        query_spec(art, c) == Ok::<Option<Seq<u8>>, Error>(
            Some(features[i].properties.unwrap()@),
        ),
{
    lemma_covering_source_wins(entries, c, o, i);
    assert(tree_lookup_of(art, c) == Some(resolve_cell(map_after(entries), c)));
    let ptr = u64_from_le(art.skip(art.len() - 8)) as int;
    assert(lut_decode(art, ptr) == Some(crate::world::properties_of(features)));
    assert(crate::world::properties_of(features)[i] == features[i].properties.unwrap()@);
}

/// A trailing pointer that points past the end of the artifact makes
/// every query fail with a corruption error: the label table cannot be
/// read there, and no silent empty table appears.
pub proof fn lemma_corrupt_pointer_fails(art: Seq<u8>, c: u64)
    requires
        art.len() >= 8,
        u64_from_le(art.skip(art.len() - 8)) + 8 > art.len(),
    ensures
        query_spec(art, c) == Err::<Option<Seq<u8>>, Error>(Error::CorruptArtifact),
{
    let ptr = u64_from_le(art.skip(art.len() - 8)) as int;
    assert(lut_decode(art, ptr) is None);
}

} // verus!
