use vstd::prelude::*;
use crate::bytes::{copy_range, le64_bytes, lemma_le64_roundtrip, push_le64, read_le64, u64_from_le};
use crate::err::Error;

verus! {

/// One serialized table entry: an eight-byte little-endian length,
/// then the entry's bytes.
pub open spec fn lut_entry_bytes(v: Seq<u8>) -> Seq<u8>
    recommends
        v.len() <= u64::MAX,
{
    le64_bytes(v.len() as u64) + v
}

/// The serialized entries of a table, one after the other.
pub open spec fn entries_bytes(vals: Seq<Seq<u8>>) -> Seq<u8>
    decreases vals.len(),
{
    if vals.len() == 0 {
        Seq::empty()
    } else {
        entries_bytes(vals.drop_last()) + lut_entry_bytes(vals.last())
    }
}

/// The serialized label table: an eight-byte little-endian entry
/// count, then each entry, length-prefixed, in label order.
pub open spec fn lut_bytes(vals: Seq<Seq<u8>>) -> Seq<u8>
    recommends
        vals.len() <= u64::MAX,
{
    le64_bytes(vals.len() as u64) + entries_bytes(vals)
}

/// Reads `n` length-prefixed entries at `pos`; `None` when the bytes
/// run out.
pub open spec fn decode_entries(b: Seq<u8>, pos: int, n: int) -> Option<Seq<Seq<u8>>>
    decreases n,
{
    if n <= 0 {
        Some(Seq::empty())
    } else if pos + 8 > b.len() {
        None
    } else {
        let el = u64_from_le(b.subrange(pos, pos + 8)) as int;
        if pos + 8 + el > b.len() {
            None
        } else {
            match decode_entries(b, pos + 8 + el, n - 1) {
                None => None,
                Some(rest) => Some(seq![b.subrange(pos + 8, pos + 8 + el)] + rest),
            }
        }
    }
}

/// Reads a label table at `pos`: the entry count, then its entries.
/// `None` when the bytes cannot be read that way; bytes after the
/// table are ignored.
pub open spec fn lut_decode(b: Seq<u8>, pos: int) -> Option<Seq<Seq<u8>>> {
    if pos < 0 || pos + 8 > b.len() {
        None
    } else {
        decode_entries(b, pos + 8, u64_from_le(b.subrange(pos, pos + 8)) as int)
    }
}

/// Serializes the label table: entry count, then each entry with its
/// length prefix, in order.
pub fn lut_encode(vals: &Vec<Vec<u8>>) -> (r: Vec<u8>)
    ensures
        r@ == lut_bytes(vals.deep_view()),
{
    let mut out: Vec<u8> = Vec::new();
    push_le64(&mut out, vals.len() as u64);
    assert(out@ =~= le64_bytes(vals.deep_view().len() as u64) + entries_bytes(
        vals.deep_view().subrange(0, 0),
    ));
    let mut i: usize = 0;
    while i < vals.len()
        invariant
            i <= vals@.len(),
            vals.deep_view().len() == vals@.len(),
            forall|k: int| 0 <= k < vals@.len() ==> vals.deep_view()[k] == vals@[k]@,
            out@ == le64_bytes(vals.deep_view().len() as u64) + entries_bytes(
                vals.deep_view().subrange(0, i as int),
            ),
        decreases vals@.len() - i,
    {
        let entry = &vals[i];
        push_le64(&mut out, entry.len() as u64);
        let mut j: usize = 0;
        while j < entry.len()
            invariant
                j <= entry@.len(),
                entry@ == vals@[i as int]@,
                i < vals@.len(),
                out@ == le64_bytes(vals.deep_view().len() as u64) + entries_bytes(
                    vals.deep_view().subrange(0, i as int),
                ) + le64_bytes(entry@.len() as u64) + entry@.subrange(0, j as int),
            decreases entry@.len() - j,
        {
            out.push(entry[j]);
            j = j + 1;
            assert(entry@.subrange(0, j - 1).push(entry@[j - 1]) =~= entry@.subrange(0, j as int));
            assert(out@ =~= le64_bytes(vals.deep_view().len() as u64) + entries_bytes(
                vals.deep_view().subrange(0, i as int),
            ) + le64_bytes(entry@.len() as u64) + entry@.subrange(0, j as int));
        }
        i = i + 1;
        proof {
            let dv = vals.deep_view();
            assert(entry@.subrange(0, entry@.len() as int) =~= entry@);
            let pre = dv.subrange(0, i - 1);
            let cur = dv.subrange(0, i as int);
            assert(cur.drop_last() =~= pre);
            assert(cur.last() == entry@);
            assert(entries_bytes(cur) =~= entries_bytes(pre) + lut_entry_bytes(entry@));
            assert(out@ =~= le64_bytes(dv.len() as u64) + entries_bytes(cur));
        }
    }
    assert(vals.deep_view().subrange(0, i as int) =~= vals.deep_view());
    out
}

/// Reads a label table back from `b` at `pos`, failing exactly where
/// the bytes cannot be read as one.
pub fn lut_decode_exec(b: &Vec<u8>, pos: usize) -> (r: Result<Vec<Vec<u8>>, Error>)
    ensures
        match r {
            Ok(v) => lut_decode(b@, pos as int) == Some(v.deep_view()),
            Err(e) => lut_decode(b@, pos as int) is None && e == Error::CorruptArtifact,
        },
{
    let len = b.len();
    if len < 8 || pos > len - 8 {
        return Err(Error::CorruptArtifact);
    }
    let n = read_le64(b, pos);
    let ghost n0 = n as int;
    let mut out: Vec<Vec<u8>> = Vec::new();
    let mut k: u64 = 0;
    let mut cur: usize = pos + 8;
    while k < n
        invariant
            k <= n,
            pos + 8 <= cur <= b@.len(),
            n0 == n as int,
            lut_decode(b@, pos as int) == decode_entries(b@, pos + 8, n0),
            out.deep_view().len() == k as int,
            decode_entries(b@, pos + 8, n0) == match decode_entries(b@, cur as int, n0 - k) {
                None => None::<Seq<Seq<u8>>>,
                Some(rest) => Some(out.deep_view() + rest),
            },
        decreases n - k,
    {
        if b.len() - cur < 8 {
            return Err(Error::CorruptArtifact);
        }
        let el = read_le64(b, cur);
        if el > (b.len() - cur - 8) as u64 {
            return Err(Error::CorruptArtifact);
        }
        let elu = el as usize;
        let entry = copy_range(b, cur + 8, cur + 8 + elu);
        let ghost old_out = out.deep_view();
        out.push(entry);
        proof {
            assert(out.deep_view() =~~= old_out.push(entry@));
        }
        cur = cur + 8 + elu;
        k = k + 1;
        proof {
            let rest_opt = decode_entries(b@, cur as int, n0 - k);
            match rest_opt {
                None => {},
                Some(rest) => {
                    assert(old_out.push(entry@) + rest =~~= old_out + (seq![entry@] + rest));
                },
            }
        }
    }
    proof {
        assert(decode_entries(b@, cur as int, 0) == Some(Seq::<Seq<u8>>::empty()));
        assert(out.deep_view() + Seq::<Seq<u8>>::empty() =~= out.deep_view());
    }
    Ok(out)
}

/// Reading a serialized label table back, at the position where it was
/// written and with any bytes around it, yields exactly the table.
pub proof fn lemma_lut_roundtrip(pre: Seq<u8>, vals: Seq<Seq<u8>>, suf: Seq<u8>)
    requires
        vals.len() <= u64::MAX,
        forall|i: int| 0 <= i < vals.len() ==> (#[trigger] vals[i]).len() <= u64::MAX,
    ensures
        lut_decode(pre + lut_bytes(vals) + suf, pre.len() as int) == Some(vals),
{
    let b = pre + lut_bytes(vals) + suf;
    let pos = pre.len() as int;
    lemma_le64_roundtrip(vals.len() as u64);
    assert(b.subrange(pos, pos + 8) =~= le64_bytes(vals.len() as u64));
    assert(u64_from_le(b.subrange(pos, pos + 8)) as int == vals.len() as int);
    lemma_decode_entries(pre + le64_bytes(vals.len() as u64), vals, suf);
    assert(pre + le64_bytes(vals.len() as u64) + entries_bytes(vals) + suf =~= b);
    assert((pre + le64_bytes(vals.len() as u64)).len() as int == pos + 8);
}

proof fn lemma_decode_entries(pre: Seq<u8>, vals: Seq<Seq<u8>>, suf: Seq<u8>)
    requires
        forall|i: int| 0 <= i < vals.len() ==> (#[trigger] vals[i]).len() <= u64::MAX,
    ensures
        decode_entries(pre + entries_bytes(vals) + suf, pre.len() as int, vals.len() as int)
            == Some(vals),
    decreases vals.len(),
{
    let b = pre + entries_bytes(vals) + suf;
    let pos = pre.len() as int;
    if vals.len() == 0 {
        assert(decode_entries(b, pos, 0) == Some(Seq::<Seq<u8>>::empty()));
        assert(Seq::<Seq<u8>>::empty() =~= vals);
    } else {
        let first = vals[0];
        let rest = vals.skip(1);
        assert(vals[0].len() <= u64::MAX);
        lemma_entries_bytes_cons(vals);
        assert(entries_bytes(vals) =~= lut_entry_bytes(first) + entries_bytes(rest));
        lemma_le64_roundtrip(first.len() as u64);
        assert(b.subrange(pos, pos + 8) =~= le64_bytes(first.len() as u64));
        let el = u64_from_le(b.subrange(pos, pos + 8)) as int;
        assert(el == first.len() as int);
        assert(b.subrange(pos + 8, pos + 8 + el) =~= first);
        assert forall|i: int| 0 <= i < rest.len() implies (#[trigger] rest[i]).len()
            <= u64::MAX by {
            assert(rest[i] == vals[i + 1]);
        }
        lemma_decode_entries(pre + lut_entry_bytes(first), rest, suf);
        assert(pre + lut_entry_bytes(first) + entries_bytes(rest) + suf =~= b);
        assert((pre + lut_entry_bytes(first)).len() as int == pos + 8 + el);
        assert(decode_entries(b, pos + 8 + el, rest.len() as int) == Some(rest));
        assert(seq![first] + rest =~= vals);
    }
}

/// The serialized entries, read from the front: the first entry's
/// bytes, then the rest.
proof fn lemma_entries_bytes_cons(vals: Seq<Seq<u8>>)
    requires
        vals.len() > 0,
    ensures
        entries_bytes(vals) == lut_entry_bytes(vals[0]) + entries_bytes(vals.skip(1)),
    decreases vals.len(),
{
    if vals.len() == 1 {
        assert(vals.drop_last() =~= Seq::<Seq<u8>>::empty());
        assert(vals.skip(1) =~= Seq::<Seq<u8>>::empty());
        assert(entries_bytes(vals) =~= lut_entry_bytes(vals[0]) + entries_bytes(vals.skip(1)));
    } else {
        lemma_entries_bytes_cons(vals.drop_last());
        assert(vals.drop_last()[0] == vals[0]);
        assert(vals.skip(1).drop_last() =~= vals.drop_last().skip(1));
        assert(vals.skip(1).last() == vals.last());
        assert(entries_bytes(vals.skip(1)) == entries_bytes(vals.skip(1).drop_last())
            + lut_entry_bytes(vals.skip(1).last()));
        assert(entries_bytes(vals) =~= lut_entry_bytes(vals[0]) + entries_bytes(vals.skip(1)));
    }
}

} // verus!
