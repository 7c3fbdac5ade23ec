use vstd::prelude::*;
use crate::err::Error;

verus! {

/// Whether a 64-bit word is a valid cell index of the tessellation.
/// Named after h3o::CellIndex::try_from, which accepts exactly the
/// canonical cell indexes.
pub uninterp spec fn cell_valid(c: u64) -> bool;

/// Relies on h3o::CellIndex::try_from: it succeeds exactly on valid
/// cell indexes.
#[verifier::external_body]
pub(crate) fn cell_is_valid(raw: u64) -> (r: bool)
    ensures
        r == cell_valid(raw),
{
    h3o::CellIndex::try_from(raw).is_ok()
}

/// Checks every cell of a set, so that callers of the build and query
/// entry points can establish validity before demanding it.
pub fn cells_all_valid(cells: &Vec<u64>) -> (r: bool)
    ensures
        r == forall|i: int| 0 <= i < cells@.len() ==> cell_valid(#[trigger] cells@[i]),
{
    let mut i: usize = 0;
    while i < cells.len()
        invariant
            i <= cells@.len(),
            forall|j: int| 0 <= j < i ==> cell_valid(#[trigger] cells@[j]),
        decreases cells@.len() - i,
    {
        if !cell_is_valid(cells[i]) {
            return false;
        }
        i = i + 1;
    }
    true
}

/// The resolution field of a cell index: four bits starting at bit 52.
pub open spec fn cell_res(c: u64) -> u64 {
    (c >> 52) & 0xf
}

/// The index of the ancestor of `c` at the coarser resolution `r`: the
/// resolution field is lowered to `r` and the digits below `r` are set
/// to the unused marker (all ones).
pub open spec fn parent_at(c: u64, r: u64) -> u64
    recommends
        r < cell_res(c),
{
    (c & !(0xfu64 << 52)) | (r << 52) | ((1u64 << ((45 - 3 * (r as int)) as u64)) - 1) as u64
}

/// Whether `a` is a strict ancestor of `c` in the cell hierarchy.
pub open spec fn cell_ancestor(a: u64, c: u64) -> bool {
    cell_res(a) < cell_res(c) && a == parent_at(c, cell_res(a))
}

/// Whether the area of `a` covers the area of `c`: they are the same
/// cell, or `a` is a strict ancestor of `c`.
pub open spec fn covers(a: u64, c: u64) -> bool {
    a == c || cell_ancestor(a, c)
}

/// The result of compacting a set of cells: the minimal set of
/// coarser-or-equal cells covering exactly the same area.  Named after
/// h3o::CellIndex::compact, whose result depends on the cells alone.
pub uninterp spec fn compact_of(cells: Seq<u64>) -> Seq<u64>;

/// Relies on h3o::CellIndex::compact: on unique cells of one shared
/// resolution it succeeds, replacing every complete sibling set by its
/// parent, recursively; mixed resolutions are rejected.  The result
/// covers exactly the input's area — every input cell is covered by an
/// output cell, every valid input-resolution cell under an output cell
/// is an input cell — and no output cell sits under another, and the
/// result is never larger than the input.
#[verifier::external_body]
pub(crate) fn compact_cells(cells: Vec<u64>) -> (r: Result<Vec<u64>, Error>)
    requires
        forall|i: int| 0 <= i < cells@.len() ==> cell_valid(#[trigger] cells@[i]),
        forall|i: int, j: int| 0 <= i < j < cells@.len() ==> cells@[i] < cells@[j],
    ensures
        match r {
            Ok(v) => {
                &&& v@ == compact_of(cells@)
                &&& v@.len() <= cells@.len()
                &&& cells@.len() == 0 ==> v@ == Seq::<u64>::empty()
                &&& forall|i: int| 0 <= i < v@.len() ==> cell_valid(#[trigger] v@[i])
                &&& forall|i: int|
                    0 <= i < cells@.len() ==> exists|j: int|
                        0 <= j < v@.len() && covers(v@[j], #[trigger] cells@[i])
                &&& forall|i: int, j: int|
                    0 <= i < cells@.len() && 0 <= j < cells@.len() ==> cell_res(
                        #[trigger] cells@[i],
                    ) == cell_res(#[trigger] cells@[j])
                &&& forall|i: int, j: int|
                    0 <= i < v@.len() && 0 <= j < v@.len() && i != j ==> !cell_ancestor(
                        #[trigger] v@[i],
                        #[trigger] v@[j],
                    )
                &&& cells@.len() > 0 ==> forall|j: int, x: u64|
                    0 <= j < v@.len() && #[trigger] covers(v@[j], x) && cell_valid(x) && cell_res(
                        x,
                    ) == cell_res(cells@[0]) ==> cells@.contains(x)
            },
            Err(e) => {
                &&& e == Error::MixedResolutions
                &&& exists|i: int, j: int|
                    0 <= i < cells@.len() && 0 <= j < cells@.len() && cell_res(#[trigger] cells@[i])
                        != cell_res(#[trigger] cells@[j])
            },
        },
{
    let mut cs: Vec<h3o::CellIndex> = Vec::with_capacity(cells.len());
    for c in cells.iter() {
        cs.push(h3o::CellIndex::try_from(*c).expect("a valid cell index"));
    }
    match h3o::CellIndex::compact(&mut cs) {
        Ok(()) => Ok(cs.into_iter().map(u64::from).collect()),
        Err(_) => Err(Error::MixedResolutions),
    }
}

/// Inserts `x` into the sorted duplicate-free sequence `v`, keeping it
/// sorted and duplicate-free.
pub open spec fn insert_sorted(v: Seq<u64>, x: u64) -> Seq<u64>
    decreases v.len(),
{
    if v.len() == 0 {
        seq![x]
    } else if x < v.last() {
        insert_sorted(v.drop_last(), x).push(v.last())
    } else if x == v.last() {
        v
    } else {
        v.push(x)
    }
}

/// The sorted, duplicate-free reading of a raw cell multiset.
pub open spec fn sorted_dedup(s: Seq<u64>) -> Seq<u64>
    decreases s.len(),
{
    if s.len() == 0 {
        Seq::empty()
    } else {
        insert_sorted(sorted_dedup(s.drop_last()), s.last())
    }
}

/// Whether a sequence is strictly increasing.
pub open spec fn strictly_sorted(v: Seq<u64>) -> bool {
    forall|i: int, j: int| 0 <= i < j < v.len() ==> v[i] < v[j]
}

pub proof fn lemma_insert_sorted_props(v: Seq<u64>, x: u64)
    requires
        strictly_sorted(v),
    ensures
        strictly_sorted(insert_sorted(v, x)),
        forall|y: u64| #[trigger] insert_sorted(v, x).contains(y) <==> v.contains(y) || y == x,
    decreases v.len(),
{
    let w = insert_sorted(v, x);
    if v.len() == 0 {
        assert(w == seq![x]);
        assert(w[0] == x);
        assert forall|y: u64| #[trigger] w.contains(y) implies v.contains(y) || y == x by {
            let i = choose|i: int| 0 <= i < w.len() && w[i] == y;
            assert(i == 0);
        }
        assert(w.contains(x));
    } else if x < v.last() {
        assert(strictly_sorted(v.drop_last()));
        lemma_insert_sorted_props(v.drop_last(), x);
        let u = insert_sorted(v.drop_last(), x);
        assert forall|i: int| 0 <= i < u.len() implies u[i] < v.last() by {
            assert(u.contains(u[i]));
            if u[i] != x {
                assert(v.drop_last().contains(u[i]));
                let k = choose|k: int| 0 <= k < v.drop_last().len() && v.drop_last()[k] == u[i];
                assert(v[k] == u[i] && v[k] < v.last());
            }
        }
        assert(w == u.push(v.last()));
        assert(strictly_sorted(w)) by {
            assert(forall|i: int| 0 <= i < u.len() ==> w[i] == u[i]);
            assert(w[w.len() - 1] == v.last());
        }
        assert forall|y: u64| #[trigger] w.contains(y) implies v.contains(y) || y == x by {
            let i = choose|i: int| 0 <= i < w.len() && w[i] == y;
            if i < u.len() {
                assert(u.contains(y));
                if y != x {
                    assert(v.drop_last().contains(y));
                    let k = choose|k: int|
                        0 <= k < v.drop_last().len() && v.drop_last()[k] == y;
                    assert(v[k] == y);
                }
            } else {
                assert(y == v.last());
                assert(v[v.len() - 1] == y);
            }
        }
        assert forall|y: u64| v.contains(y) || y == x implies #[trigger] w.contains(y) by {
            if y == x {
                assert(u.contains(x));
                let k = choose|k: int| 0 <= k < u.len() && u[k] == x;
                assert(w[k] == x);
            } else {
                let i = choose|i: int| 0 <= i < v.len() && v[i] == y;
                if i < v.len() - 1 {
                    assert(v.drop_last()[i] == y);
                    assert(v.drop_last().contains(y));
                    assert(u.contains(y));
                    let k = choose|k: int| 0 <= k < u.len() && u[k] == y;
                    assert(w[k] == y);
                } else {
                    assert(w[w.len() - 1] == y);
                }
            }
        }
    } else if x == v.last() {
        assert(v[v.len() - 1] == x);
        assert(v.contains(x));
    } else {
        assert forall|i: int| 0 <= i < v.len() implies v[i] < x by {
            if i < v.len() - 1 {
                assert(v[i] < v.last());
            }
        }
        assert(w == v.push(x));
        assert(strictly_sorted(w)) by {
            assert(forall|i: int| 0 <= i < v.len() ==> w[i] == v[i]);
            assert(w[w.len() - 1] == x);
        }
        assert forall|y: u64| #[trigger] w.contains(y) implies v.contains(y) || y == x by {
            let i = choose|i: int| 0 <= i < w.len() && w[i] == y;
            if i < v.len() {
                assert(v[i] == y);
            }
        }
        assert forall|y: u64| v.contains(y) || y == x implies #[trigger] w.contains(y) by {
            if y == x {
                assert(w[w.len() - 1] == x);
            } else {
                let i = choose|i: int| 0 <= i < v.len() && v[i] == y;
                assert(w[i] == y);
            }
        }
    }
}

/// Deduplication keeps exactly the distinct members: the sorted,
/// duplicate-free reading of a raw set is strictly increasing and
/// holds the same cells as the raw set.
pub proof fn lemma_sorted_dedup_props(s: Seq<u64>)
    ensures
        strictly_sorted(sorted_dedup(s)),
        forall|y: u64| #[trigger] sorted_dedup(s).contains(y) <==> s.contains(y),
    decreases s.len(),
{
    if s.len() == 0 {
    } else {
        lemma_sorted_dedup_props(s.drop_last());
        lemma_insert_sorted_props(sorted_dedup(s.drop_last()), s.last());
        assert forall|y: u64| #[trigger] sorted_dedup(s).contains(y) implies s.contains(y) by {
            if y == s.last() {
                assert(s[s.len() - 1] == y);
            } else {
                assert(sorted_dedup(s.drop_last()).contains(y));
                assert(s.drop_last().contains(y));
                let i = choose|i: int| 0 <= i < s.drop_last().len() && s.drop_last()[i] == y;
                assert(s[i] == y);
            }
        }
        assert forall|y: u64| s.contains(y) implies #[trigger] sorted_dedup(s).contains(y) by {
            let i = choose|i: int| 0 <= i < s.len() && s[i] == y;
            if i < s.len() - 1 {
                assert(s.drop_last()[i] == y);
                assert(s.drop_last().contains(y));
                assert(sorted_dedup(s.drop_last()).contains(y));
            } else {
                assert(y == s.last());
            }
        }
    }
}

/// Inserts `x` into the sorted duplicate-free vector `v`.
pub fn insert_sorted_vec(v: &mut Vec<u64>, x: u64)
    ensures
        final(v)@ == insert_sorted(old(v)@, x),
    decreases old(v)@.len(),
{
    if v.len() == 0 {
        v.push(x);
        assert(final(v)@ =~= seq![x]);
    } else {
        let last = v[v.len() - 1];
        assert(last == old(v)@.last());
        if x < last {
            let popped = v.pop().unwrap();
            insert_sorted_vec(v, x);
            v.push(popped);
        } else if x > last {
            v.push(x);
        }
    }
}

/// Sorts a raw cell multiset and removes exact duplicates.
pub fn sorted_dedup_vec(s: &Vec<u64>) -> (r: Vec<u64>)
    ensures
        r@ == sorted_dedup(s@),
{
    let mut out: Vec<u64> = Vec::new();
    let mut i: usize = 0;
    assert(out@ =~= sorted_dedup(s@.subrange(0, 0)));
    while i < s.len()
        invariant
            i <= s@.len(),
            out@ == sorted_dedup(s@.subrange(0, i as int)),
        decreases s@.len() - i,
    {
        let x = s[i];
        insert_sorted_vec(&mut out, x);
        i = i + 1;
        proof {
            let pre = s@.subrange(0, i - 1);
            let cur = s@.subrange(0, i as int);
            assert(cur.drop_last() =~= pre);
            assert(cur.last() == x);
        }
    }
    assert(s@.subrange(0, i as int) =~= s@);
    out
}

/// The minimal covering reading of one source's raw cell multiset:
/// sorted, deduplicated, then compacted.  Succeeds exactly when the
/// distinct cells share one resolution; the result covers exactly the
/// raw set's area — a valid cell at the raw resolution is covered by
/// the result if and only if the raw set holds it — and no member of
/// the result sits under another.
pub fn normalize_cells(raw: Vec<u64>) -> (r: Result<Vec<u64>, Error>)
    requires
        forall|i: int| 0 <= i < raw@.len() ==> cell_valid(#[trigger] raw@[i]),
    ensures
        match r {
            Ok(v) => {
                &&& v@ == compact_of(sorted_dedup(raw@))
                &&& forall|i: int| 0 <= i < v@.len() ==> cell_valid(#[trigger] v@[i])
                &&& forall|c: u64|
                    #[trigger] raw@.contains(c) ==> exists|j: int|
                        0 <= j < v@.len() && covers(v@[j], c)
                &&& forall|i: int, j: int|
                    0 <= i < raw@.len() && 0 <= j < raw@.len() ==> cell_res(#[trigger] raw@[i])
                        == cell_res(#[trigger] raw@[j])
                &&& forall|i: int, j: int|
                    0 <= i < v@.len() && 0 <= j < v@.len() && i != j ==> !cell_ancestor(
                        #[trigger] v@[i],
                        #[trigger] v@[j],
                    )
                &&& raw@.len() == 0 ==> v@ == Seq::<u64>::empty()
                &&& raw@.len() > 0 ==> forall|j: int, x: u64|
                    0 <= j < v@.len() && #[trigger] covers(v@[j], x) && cell_valid(x) && cell_res(
                        x,
                    ) == cell_res(raw@[0]) ==> raw@.contains(x)
            },
            Err(e) => {
                &&& e == Error::MixedResolutions
                &&& exists|i: int, j: int|
                    0 <= i < raw@.len() && 0 <= j < raw@.len() && cell_res(#[trigger] raw@[i])
                        != cell_res(#[trigger] raw@[j])
            },
        },
{
    let deduped = sorted_dedup_vec(&raw);
    proof {
        lemma_sorted_dedup_props(raw@);
        assert forall|i: int| 0 <= i < deduped@.len() implies cell_valid(
            #[trigger] deduped@[i],
        ) by {
            assert(deduped@.contains(deduped@[i]));
            assert(raw@.contains(deduped@[i]));
            let k = choose|k: int| 0 <= k < raw@.len() && raw@[k] == deduped@[i];
            assert(cell_valid(raw@[k]));
        }
    }
    let r = compact_cells(deduped);
    proof {
        match &r {
            Ok(v) => {
                assert forall|c: u64| #[trigger] raw@.contains(c) implies exists|j: int|
                    0 <= j < v@.len() && covers(v@[j], c) by {
                    assert(sorted_dedup(raw@).contains(c));
                    let i = choose|i: int|
                        0 <= i < sorted_dedup(raw@).len() && sorted_dedup(raw@)[i] == c;
                    assert(exists|j: int|
                        0 <= j < v@.len() && covers(v@[j], #[trigger] sorted_dedup(raw@)[i]));
                }
                assert forall|i: int, j: int|
                    0 <= i < raw@.len() && 0 <= j < raw@.len() implies cell_res(
                    #[trigger] raw@[i],
                ) == cell_res(#[trigger] raw@[j]) by {
                    assert(raw@.contains(raw@[i]) && raw@.contains(raw@[j]));
                    assert(deduped@.contains(raw@[i]) && deduped@.contains(raw@[j]));
                    let a = choose|a: int| 0 <= a < deduped@.len() && deduped@[a] == raw@[i];
                    let b = choose|b: int| 0 <= b < deduped@.len() && deduped@[b] == raw@[j];
                    assert(cell_res(deduped@[a]) == cell_res(deduped@[b]));
                }
                if raw@.len() > 0 {
                    assert(raw@.contains(raw@[0]));
                    assert(deduped@.contains(raw@[0]));
                    assert(deduped@.len() > 0);
                    let a = choose|a: int| 0 <= a < deduped@.len() && deduped@[a] == raw@[0];
                    assert(cell_res(deduped@[0]) == cell_res(deduped@[a]));
                    assert forall|j: int, x: u64|
                        0 <= j < v@.len() && #[trigger] covers(v@[j], x) && cell_valid(x)
                            && cell_res(x) == cell_res(raw@[0]) implies raw@.contains(x) by {
                        assert(cell_res(x) == cell_res(deduped@[0]));
                        assert(deduped@.contains(x));
                        assert(raw@.contains(x));
                    }
                }
            },
            Err(_) => {
                let (i, j) = choose|i: int, j: int|
                    0 <= i < deduped@.len() && 0 <= j < deduped@.len() && cell_res(
                        #[trigger] deduped@[i],
                    ) != cell_res(#[trigger] deduped@[j]);
                assert(deduped@.contains(deduped@[i]));
                assert(deduped@.contains(deduped@[j]));
                assert(raw@.contains(deduped@[i]));
                assert(raw@.contains(deduped@[j]));
                let a = choose|a: int| 0 <= a < raw@.len() && raw@[a] == deduped@[i];
                let b = choose|b: int| 0 <= b < raw@.len() && raw@[b] == deduped@[j];
                assert(cell_res(raw@[a]) != cell_res(raw@[b]));
            },
        }
    }
    r
}

} // verus!
