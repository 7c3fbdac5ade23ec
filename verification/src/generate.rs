use vstd::prelude::*;
use vstd::seq_lib::group_to_multiset_ensures;
use crate::artifact::{all_cells_valid, assemble_artifact};
use crate::bytes::{records_of, u64_from_le};
use crate::cells::{cell_valid, compact_of, sorted_dedup};
use crate::err::Error;
use crate::lut::lut_decode;
use crate::source::{dot_prefix, gunzip_of, read_binary_source, region_name};
use crate::tree::{map_after, resolve_cell, tree_lookup_of};

verus! {

/// One binary-mode input: the base name of its file and the raw bytes
/// of its gzip-compressed cell stream.
pub struct SetInput {
    /// The file's base name; the source's region name is its prefix up
    /// to the first dot.
    pub base_name: Vec<u8>,
    /// The gzip-compressed stream of eight-byte little-endian cells.
    pub data: Vec<u8>,
}

/// One named source with its normalized cells, tagged with its
/// position among the inputs so that sorting is deterministic.
pub struct NamedSet {
    /// The source's region name.
    pub name: Vec<u8>,
    /// Where the source stood among the inputs.
    pub tag: usize,
    /// The source's normalized cells.
    pub cells: Vec<u64>,
}

/// Strict lexicographic order on byte strings.
pub open spec fn bytes_lt(a: Seq<u8>, b: Seq<u8>) -> bool
    decreases a.len(),
{
    if b.len() == 0 {
        false
    } else if a.len() == 0 {
        true
    } else if a[0] < b[0] {
        true
    } else if a[0] > b[0] {
        false
    } else {
        bytes_lt(a.skip(1), b.skip(1))
    }
}

/// A source's sort key: its name, ties broken by input position.
pub open spec fn key_of(e: NamedSet) -> (Seq<u8>, int) {
    (e.name@, e.tag as int)
}

/// Strict order on sort keys.
pub open spec fn klt(a: (Seq<u8>, int), b: (Seq<u8>, int)) -> bool {
    bytes_lt(a.0, b.0) || (a.0 == b.0 && a.1 < b.1)
}

/// Whether a run of sources is sorted by key: no later key is below an
/// earlier one.
pub open spec fn sorted_sets(v: Seq<NamedSet>) -> bool {
    forall|i: int, j: int| 0 <= i < j < v.len() ==> !klt(key_of(#[trigger] v[j]), #[trigger] key_of(v[i]))
}

proof fn lemma_bytes_lt_connected(a: Seq<u8>, b: Seq<u8>)
    ensures
        bytes_lt(a, b) || bytes_lt(b, a) || a == b,
    decreases a.len(),
{
    if b.len() == 0 && a.len() == 0 {
        assert(a =~= b);
    } else if b.len() > 0 && a.len() > 0 && a[0] == b[0] {
        lemma_bytes_lt_connected(a.skip(1), b.skip(1));
        if !bytes_lt(a, b) && !bytes_lt(b, a) {
            assert(a.skip(1) =~= b.skip(1) ==> a =~= b) by {
                if a.skip(1) =~= b.skip(1) {
                    assert(forall|i: int| 1 <= i < a.len() ==> a[i] == a.skip(1)[i - 1]);
                    assert(forall|i: int| 1 <= i < b.len() ==> b[i] == b.skip(1)[i - 1]);
                }
            }
        }
    }
}

proof fn lemma_bytes_lt_irrefl(a: Seq<u8>)
    ensures
        !bytes_lt(a, a),
    decreases a.len(),
{
    if a.len() > 0 {
        lemma_bytes_lt_irrefl(a.skip(1));
    }
}

proof fn lemma_bytes_lt_trans(a: Seq<u8>, b: Seq<u8>, c: Seq<u8>)
    requires
        bytes_lt(a, b),
        bytes_lt(b, c),
    ensures
        bytes_lt(a, c),
    decreases a.len(),
{
    if a.len() > 0 && b.len() > 0 && c.len() > 0 && a[0] == b[0] && b[0] == c[0] {
        lemma_bytes_lt_trans(a.skip(1), b.skip(1), c.skip(1));
    }
}

proof fn lemma_klt_connected(a: (Seq<u8>, int), b: (Seq<u8>, int))
    ensures
        klt(a, b) || klt(b, a) || a == b,
{
    lemma_bytes_lt_connected(a.0, b.0);
}

proof fn lemma_klt_irrefl(a: (Seq<u8>, int))
    ensures
        !klt(a, a),
{
    lemma_bytes_lt_irrefl(a.0);
}

proof fn lemma_klt_trans(a: (Seq<u8>, int), b: (Seq<u8>, int), c: (Seq<u8>, int))
    requires
        klt(a, b),
        klt(b, c),
    ensures
        klt(a, c),
{
    if bytes_lt(a.0, b.0) && bytes_lt(b.0, c.0) {
        lemma_bytes_lt_trans(a.0, b.0, c.0);
    }
}

proof fn lemma_bytes_lt_shift(a: Seq<u8>, b: Seq<u8>, k: int)
    requires
        0 <= k <= a.len(),
        k <= b.len(),
        forall|j: int| 0 <= j < k ==> a[j] == b[j],
    ensures
        bytes_lt(a, b) == bytes_lt(a.skip(k), b.skip(k)),
    decreases k,
{
    if k > 0 {
        assert(a.len() > 0 && b.len() > 0 && a[0] == b[0]);
        assert(forall|j: int| 0 <= j < k - 1 ==> a.skip(1)[j] == b.skip(1)[j]);
        lemma_bytes_lt_shift(a.skip(1), b.skip(1), k - 1);
        assert(a.skip(1).skip(k - 1) =~= a.skip(k));
        assert(b.skip(1).skip(k - 1) =~= b.skip(k));
        assert(bytes_lt(a, b) == bytes_lt(a.skip(1), b.skip(1)));
    } else {
        assert(a.skip(0) =~= a);
        assert(b.skip(0) =~= b);
    }
}

/// Compares two byte strings lexicographically.
pub fn bytes_lt_exec(a: &Vec<u8>, b: &Vec<u8>) -> (r: bool)
    ensures
        r == bytes_lt(a@, b@),
{
    let mut i: usize = 0;
    while i < a.len() && i < b.len() && a[i] == b[i]
        invariant
            i <= a@.len(),
            i <= b@.len(),
            forall|j: int| 0 <= j < i ==> a@[j] == b@[j],
        decreases a@.len() - i,
    {
        i = i + 1;
    }
    proof {
        lemma_bytes_lt_shift(a@, b@, i as int);
    }
    if i < b.len() {
        if i < a.len() {
            a[i] < b[i]
        } else {
            true
        }
    } else {
        false
    }
}

/// Whether `a` sorts strictly before `b`: by name, ties broken by
/// input position.
pub fn set_before(a: &NamedSet, b: &NamedSet) -> (r: bool)
    ensures
        r == klt(key_of(*a), key_of(*b)),
{
    if bytes_lt_exec(&a.name, &b.name) {
        true
    } else if bytes_lt_exec(&b.name, &a.name) {
        false
    } else {
        proof {
            lemma_bytes_lt_connected(a.name@, b.name@);
        }
        a.tag < b.tag
    }
}

/// Inserts a source into a key-sorted run, keeping it sorted.
pub fn insert_set(v: &mut Vec<NamedSet>, e: NamedSet)
    requires
        sorted_sets(old(v)@),
    ensures
        sorted_sets(final(v)@),
        final(v)@.to_multiset() == old(v)@.to_multiset().insert(e),
    decreases old(v)@.len(),
{
    broadcast use group_to_multiset_ensures;

    if v.len() == 0 {
        v.push(e);
        assert(final(v)@ =~= old(v)@.push(e));
    } else {
        let nlen = v.len();
        let goes_below = set_before(&e, &v[nlen - 1]);
        let ghost last = v@.last();
        if goes_below {
            let popped = v.pop().unwrap();
            assert(sorted_sets(v@)) by {
                assert(forall|i: int| 0 <= i < v@.len() ==> v@[i] == old(v)@[i]);
            }
            insert_set(v, e);
            let ghost mid = v@;
            v.push(popped);
            proof {
                assert(v@ =~= mid.push(popped));
                assert forall|i: int, j: int| 0 <= i < j < v@.len() implies !klt(
                    key_of(#[trigger] v@[j]),
                    key_of(#[trigger] v@[i]),
                ) by {
                    if j < v@.len() - 1 {
                        assert(!klt(key_of(mid[j]), key_of(mid[i])));
                    } else {
                        let x = v@[i];
                        assert(mid.to_multiset().contains(x)) by {
                            assert(mid.contains(x));
                        }
                        assert(old(v)@.drop_last().to_multiset().insert(e).contains(x)) by {
                            assert(old(v)@.drop_last() =~= old(v)@.subrange(
                                0,
                                old(v)@.len() - 1,
                            ));
                        }
                        if x == e {
                            lemma_klt_irrefl(key_of(popped));
                            if klt(key_of(popped), key_of(e)) {
                                lemma_klt_trans(key_of(popped), key_of(e), key_of(popped));
                            }
                        } else {
                            assert(old(v)@.drop_last().to_multiset().contains(x));
                            assert(old(v)@.drop_last().contains(x));
                            let k = choose|k: int|
                                0 <= k < old(v)@.drop_last().len() && old(v)@.drop_last()[k] == x;
                            assert(old(v)@[k] == x);
                            assert(!klt(key_of(old(v)@[old(v)@.len() - 1]), key_of(old(v)@[k])));
                        }
                    }
                }
                assert(v@.to_multiset() =~= old(v)@.to_multiset().insert(e)) by {
                    assert(old(v)@ =~= old(v)@.drop_last().push(last));
                    assert(old(v)@.to_multiset() =~= old(v)@.drop_last().to_multiset().insert(
                        last,
                    ));
                }
            }
        } else {
            v.push(e);
            proof {
                assert(v@ =~= old(v)@.push(e));
                let klast = key_of(last);
                let ke = key_of(e);
                assert forall|i: int, j: int| 0 <= i < j < v@.len() implies !klt(
                    key_of(#[trigger] v@[j]),
                    key_of(#[trigger] v@[i]),
                ) by {
                    if j == v@.len() - 1 {
                        let kx = key_of(v@[i]);
                        assert(!klt(key_of(old(v)@[old(v)@.len() - 1]), key_of(old(v)@[i]))
                            || i == old(v)@.len() - 1);
                        lemma_klt_connected(kx, klast);
                        if klt(ke, kx) {
                            if klt(kx, klast) {
                                lemma_klt_trans(ke, kx, klast);
                            }
                        }
                    }
                }
            }
        }
    }
}

/// Sorts the sources by name, ties broken by input position.
pub fn sort_sets(mut v: Vec<NamedSet>) -> (r: Vec<NamedSet>)
    ensures
        sorted_sets(r@),
        r@.to_multiset() == v@.to_multiset(),
{
    broadcast use group_to_multiset_ensures;
    broadcast use vstd::multiset::group_multiset_axioms;

    let mut out: Vec<NamedSet> = Vec::new();
    let ghost orig = v@;
    while v.len() > 0
        invariant
            out@.to_multiset().add(v@.to_multiset()) == orig.to_multiset(),
            sorted_sets(out@),
        decreases v@.len(),
    {
        let ghost before = v@;
        let ghost pre_out = out@;
        let e = v.pop().unwrap();
        insert_set(&mut out, e);
        proof {
            broadcast use group_to_multiset_ensures;
            broadcast use vstd::multiset::group_multiset_axioms;

            assert(before =~= v@.push(e));
            assert(v@.push(e).to_multiset() == v@.to_multiset().insert(e));
            assert(before.to_multiset() == v@.to_multiset().insert(e));
            let lhs = out@.to_multiset().add(v@.to_multiset());
            let rhs = pre_out.to_multiset().add(before.to_multiset());
            assert forall|x: NamedSet| lhs.count(x) == rhs.count(x) by {
                if x == e {
                    assert(vstd::multiset::Multiset::singleton(e).count(x) == 1);
                } else {
                    assert(vstd::multiset::Multiset::singleton(e).count(x) == 0);
                }
            }
            assert(lhs =~= rhs);
        }
    }
    proof {
        assert(v@.to_multiset() =~= vstd::multiset::Multiset::<NamedSet>::empty());
        assert(out@.to_multiset().add(v@.to_multiset()) =~= out@.to_multiset());
    }
    out
}

/// Whether `e` is the faithful reading of input `inp` at position `i`:
/// named by the base name's prefix up to the first dot, tagged `i`,
/// its cells the normalized records of the inflated stream.
pub open spec fn is_reading(inp: SetInput, i: int, e: NamedSet) -> bool {
    &&& e.name@ == dot_prefix(inp.base_name@)
    &&& e.tag == i
    &&& gunzip_of(inp.data@) is Some
    &&& forall|k: int|
        0 <= k < records_of(gunzip_of(inp.data@).unwrap()).len() ==> cell_valid(
            #[trigger] records_of(gunzip_of(inp.data@).unwrap())[k],
        )
    &&& e.cells@ == compact_of(sorted_dedup(records_of(gunzip_of(inp.data@).unwrap())))
}

/// The cell sequences of a run of sources, in order.
pub open spec fn cells_of(v: Seq<NamedSet>) -> Seq<Seq<u64>> {
    v.map_values(|e: NamedSet| e.cells@)
}

/// The names of a run of sources, in order.
pub open spec fn names_of(v: Seq<NamedSet>) -> Seq<Seq<u8>> {
    v.map_values(|e: NamedSet| e.name@)
}

/// Whether some source of the run carries tag `i`.
pub open spec fn has_tag(arranged: Seq<NamedSet>, i: int) -> bool {
    exists|k: int| 0 <= k < arranged.len() && (#[trigger] arranged[k]).tag == i
}

/// Whether `arranged` explains an artifact built from `inputs`: it is
/// the key-sorted run of the inputs' readings, the artifact's mapping
/// resolves every valid cell against it with positions as labels, and
/// the artifact's label table interns its names in that order.
pub open spec fn generate_witness(
    inputs: Seq<SetInput>,
    art: Seq<u8>,
    arranged: Seq<NamedSet>,
) -> bool {
    &&& arranged.len() == inputs.len()
    &&& sorted_sets(arranged)
    &&& forall|k: int|
        #![trigger arranged[k]]
        0 <= k < arranged.len() ==> 0 <= arranged[k].tag < inputs.len() && is_reading(
            inputs[arranged[k].tag as int],
            arranged[k].tag as int,
            arranged[k],
        )
    &&& forall|i: int| 0 <= i < inputs.len() ==> #[trigger] has_tag(arranged, i)
    &&& forall|c: u64|
        cell_valid(c) ==> #[trigger] tree_lookup_of(art, c) == Some(
            resolve_cell(map_after(cells_of(arranged)), c),
        )
    &&& lut_decode(art, u64_from_le(art.skip(art.len() - 8)) as int) == Some(names_of(arranged))
    &&& crate::artifact::artifact_layout(art, names_of(arranged))
    &&& art == crate::artifact::artifact_bytes(map_after(cells_of(arranged)), names_of(arranged))
}

/// Builds an artifact from binary sources.  Fails on more than 256
/// sources before reading anything; otherwise reads and normalizes
/// each set, sorts the sources by region name (ascending, ties broken
/// by input position), interns the names in that order, and assembles
/// the artifact, so that later-sorting sources win overlapping cells.
pub fn generate(inputs: Vec<SetInput>) -> (r: Result<Vec<u8>, Error>)
    ensures
        inputs@.len() > 256 ==> (r matches Err(e) && e == Error::TooManySources(
            inputs@.len() as usize,
        )),
        match r {
            Ok(art) => {
                &&& inputs@.len() <= 256
                &&& art@.len() >= 8
                &&& exists|arranged: Seq<NamedSet>| generate_witness(
                    inputs@,
                    art@,
                    arranged,
                )
            },
            Err(e) => match e {
                Error::TooManySources(n) => n == inputs@.len() && inputs@.len() > 256,
                Error::BadGzip => exists|i: int|
                    0 <= i < inputs@.len() && gunzip_of((#[trigger] inputs@[i]).data@) is None,
                Error::InvalidCell(c) => !cell_valid(c) && exists|i: int|
                    0 <= i < inputs@.len() && gunzip_of((#[trigger] inputs@[i]).data@) is Some
                        && records_of(gunzip_of(inputs@[i].data@).unwrap()).contains(c),
                Error::MixedResolutions => exists|i: int|
                    {
                        &&& 0 <= i < inputs@.len()
                        &&& gunzip_of((#[trigger] inputs@[i]).data@) is Some
                        &&& {
                            let recs = records_of(gunzip_of(inputs@[i].data@).unwrap());
                            exists|a: int, b: int|
                                0 <= a < recs.len() && 0 <= b < recs.len() && crate::cells::cell_res(
                                    #[trigger] recs[a],
                                ) != crate::cells::cell_res(#[trigger] recs[b])
                        }
                    },
                _ => false,
            },
        },
{
    broadcast use group_to_multiset_ensures;

    let n = inputs.len();
    if n > 256 {
        return Err(Error::TooManySources(n));
    }
    let mut readings: Vec<NamedSet> = Vec::new();
    let mut i: usize = 0;
    while i < inputs.len()
        invariant
            i <= inputs@.len(),
            inputs@.len() <= 256,
            readings@.len() == i,
            forall|k: int|
                0 <= k < i ==> is_reading(inputs@[k], k, #[trigger] readings@[k])
                    && readings@[k].tag == k,
            forall|k: int, j: int|
                0 <= k < i && 0 <= j < readings@[k].cells@.len() ==> cell_valid(
                    #[trigger] readings@[k].cells@[j],
                ),
        decreases inputs@.len() - i,
    {
        let name = region_name(&inputs[i].base_name);
        let cells = match read_binary_source(&inputs[i].data) {
            Ok(v) => v,
            Err(e) => {
                return Err(e);
            },
        };
        readings.push(NamedSet { name, tag: i, cells });
        i = i + 1;
    }
    let ghost r0 = readings@;
    let arranged = sort_sets(readings);
    let ghost arr = arranged@;
    proof {
        assert(arr.to_multiset().len() == arr.len());
        assert(r0.to_multiset().len() == r0.len());
        assert(arr.len() == r0.len());
        assert forall|k: int| #![trigger arr[k]] 0 <= k < arr.len() implies 0 <= arr[k].tag
            < inputs@.len() && is_reading(
            inputs@[arr[k].tag as int],
            arr[k].tag as int,
            arr[k],
        ) && (forall|j: int|
            0 <= j < arr[k].cells@.len() ==> cell_valid(#[trigger] arr[k].cells@[j])) by {
            assert(arr.contains(arr[k]));
            assert(arr.to_multiset().contains(arr[k]));
            assert(r0.to_multiset().contains(arr[k]));
            assert(r0.contains(arr[k]));
            let m = choose|m: int| 0 <= m < r0.len() && r0[m] == arr[k];
            assert(is_reading(inputs@[m], m, r0[m]));
        }
        assert forall|i2: int| #![trigger inputs@[i2]] 0 <= i2 < inputs@.len() implies exists|
            k: int,
        |
            0 <= k < arr.len() && (#[trigger] arr[k]).tag == i2 by {
            assert(r0.contains(r0[i2]));
            assert(r0.to_multiset().contains(r0[i2]));
            assert(arr.to_multiset().contains(r0[i2]));
            assert(arr.contains(r0[i2]));
            let k = choose|k: int| 0 <= k < arr.len() && arr[k] == r0[i2];
            assert(arr[k].tag == i2);
        }
    }
    let mut rest = arranged;
    let mut values: Vec<Vec<u8>> = Vec::new();
    let mut cellsets: Vec<Vec<u64>> = Vec::new();
    while rest.len() > 0
        invariant
            values@.len() == cellsets@.len(),
            values@.len() + rest@.len() == arr.len(),
            forall|k: int| 0 <= k < values@.len() ==> #[trigger] values@[k]@ == arr[k].name@,
            forall|k: int| 0 <= k < cellsets@.len() ==> #[trigger] cellsets@[k]@ == arr[k].cells@,
            forall|k: int| 0 <= k < rest@.len() ==> #[trigger] rest@[k] == arr[
                k + values@.len()],
        decreases rest@.len(),
    {
        let e = rest.remove(0);
        values.push(e.name);
        cellsets.push(e.cells);
        proof {
            assert(forall|k: int| 0 <= k < rest@.len() ==> #[trigger] rest@[k] == arr[k
                + values@.len()]);
        }
    }
    proof {
        assert(cellsets.deep_view() =~~= cells_of(arr));
        assert(values.deep_view() =~~= names_of(arr));
        assert(crate::artifact::all_cells_valid(cellsets.deep_view()));
    }
    let result = assemble_artifact(values, cellsets);
    match result {
        Ok(art) => {
            proof {
                assert(arr.len() == inputs@.len());
                assert forall|i2: int| 0 <= i2 < inputs@.len() implies #[trigger] has_tag(
                    arr,
                    i2,
                ) by {
                    let probe = inputs@[i2];
                }
                assert(arr.len() == inputs@.len());
                assert(sorted_sets(arr));
                assert(forall|k: int|
                    #![trigger arr[k]]
                    0 <= k < arr.len() ==> 0 <= arr[k].tag < inputs@.len() && is_reading(
                        inputs@[arr[k].tag as int],
                        arr[k].tag as int,
                        arr[k],
                    ));
                assert(forall|c: u64|
                    cell_valid(c) ==> #[trigger] tree_lookup_of(art@, c) == Some(
                        resolve_cell(map_after(cells_of(arr)), c),
                    ));
                assert(lut_decode(art@, u64_from_le(art@.skip(art@.len() - 8)) as int) == Some(
                    names_of(arr),
                ));
                assert(art@ == crate::artifact::artifact_bytes(
                    map_after(cells_of(arr)),
                    names_of(arr),
                ));
                assert(generate_witness(inputs@, art@, arr));
            }
            Ok(art)
        },
        Err(e) => {
            // unreachable: at most 256 sources reach assembly
            proof {
                assert(false);
            }
            Err(e)
        },
    }
}

} // verus!
