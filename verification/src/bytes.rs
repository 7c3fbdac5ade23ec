use vstd::prelude::*;

verus! {

/// The eight little-endian bytes of a 64-bit integer.
pub open spec fn le64_bytes(v: u64) -> Seq<u8> {
    seq![
        (v & 0xff) as u8,
        ((v >> 8) & 0xff) as u8,
        ((v >> 16) & 0xff) as u8,
        ((v >> 24) & 0xff) as u8,
        ((v >> 32) & 0xff) as u8,
        ((v >> 40) & 0xff) as u8,
        ((v >> 48) & 0xff) as u8,
        ((v >> 56) & 0xff) as u8,
    ]
}

/// The 64-bit integer whose little-endian bytes are `b`.
pub open spec fn u64_from_le(b: Seq<u8>) -> u64
    recommends
        b.len() == 8,
{
    ((b[0] as u64)
        | (b[1] as u64) << 8
        | (b[2] as u64) << 16
        | (b[3] as u64) << 24
        | (b[4] as u64) << 32
        | (b[5] as u64) << 40
        | (b[6] as u64) << 48
        | (b[7] as u64) << 56) as u64
}

/// Reading back the eight little-endian bytes of `v` gives `v` again.
pub proof fn lemma_le64_roundtrip(v: u64)
    ensures
        u64_from_le(le64_bytes(v)) == v,
{
    assert(((v & 0xff) as u8 as u64)
        | (((v >> 8) & 0xff) as u8 as u64) << 8
        | (((v >> 16) & 0xff) as u8 as u64) << 16
        | (((v >> 24) & 0xff) as u8 as u64) << 24
        | (((v >> 32) & 0xff) as u8 as u64) << 32
        | (((v >> 40) & 0xff) as u8 as u64) << 40
        | (((v >> 48) & 0xff) as u8 as u64) << 48
        | (((v >> 56) & 0xff) as u8 as u64) << 56 == v) by (bit_vector);
}

/// Appends the eight little-endian bytes of `v`.
pub fn push_le64(out: &mut Vec<u8>, v: u64)
    ensures
        final(out)@ == old(out)@ + le64_bytes(v),
{
    out.push((v & 0xff) as u8);
    out.push(((v >> 8) & 0xff) as u8);
    out.push(((v >> 16) & 0xff) as u8);
    out.push(((v >> 24) & 0xff) as u8);
    out.push(((v >> 32) & 0xff) as u8);
    out.push(((v >> 40) & 0xff) as u8);
    out.push(((v >> 48) & 0xff) as u8);
    out.push(((v >> 56) & 0xff) as u8);
    assert(final(out)@ =~= old(out)@ + le64_bytes(v));
}

/// Reads the 64-bit integer stored little-endian at `off`.
pub fn read_le64(b: &Vec<u8>, off: usize) -> (r: u64)
    requires
        off + 8 <= b@.len(),
    ensures
        r == u64_from_le(b@.subrange(off as int, off + 8)),
{
    let n = b.len();
    assert(off + 8 <= n);
    let r = (b[off] as u64)
        | (b[off + 1] as u64) << 8
        | (b[off + 2] as u64) << 16
        | (b[off + 3] as u64) << 24
        | (b[off + 4] as u64) << 32
        | (b[off + 5] as u64) << 40
        | (b[off + 6] as u64) << 48
        | (b[off + 7] as u64) << 56;
    proof {
        let s = b@.subrange(off as int, off + 8);
        assert(s[0] == b@[off as int] && s[1] == b@[off + 1] && s[2] == b@[off + 2] && s[3]
            == b@[off + 3] && s[4] == b@[off + 4] && s[5] == b@[off + 5] && s[6] == b@[off + 6]
            && s[7] == b@[off + 7]);
    }
    r
}

/// The fixed-width records of a byte stream: consecutive eight-byte
/// little-endian integers, a trailing partial record dropped.
pub open spec fn records_of(b: Seq<u8>) -> Seq<u64>
    decreases b.len(),
{
    if b.len() < 8 {
        Seq::empty()
    } else {
        seq![u64_from_le(b.subrange(0, 8))] + records_of(b.skip(8))
    }
}

proof fn lemma_records_step(b: Seq<u8>, i: int)
    requires
        0 <= i,
        i + 8 <= b.len(),
    ensures
        records_of(b.skip(i)) == seq![u64_from_le(b.subrange(i, i + 8))] + records_of(
            b.skip(i + 8),
        ),
{
    assert(b.skip(i).subrange(0, 8) =~= b.subrange(i, i + 8));
    assert(b.skip(i).skip(8) =~= b.skip(i + 8));
}

/// Decodes every complete eight-byte little-endian record of `b`; a
/// trailing partial record is treated as end of stream.
pub fn decode_records(b: &Vec<u8>) -> (r: Vec<u64>)
    ensures
        r@ == records_of(b@),
{
    let mut out: Vec<u64> = Vec::new();
    let mut i: usize = 0;
    let n = b.len();
    proof {
        assert(b@.skip(0int) =~= b@);
        assert(out@ + records_of(b@) =~= records_of(b@));
    }
    while n - i >= 8
        invariant
            i <= n == b@.len(),
            out@ + records_of(b@.skip(i as int)) == records_of(b@),
        decreases b@.len() - i,
    {
        let v = read_le64(b, i);
        proof {
            lemma_records_step(b@, i as int);
        }
        out.push(v);
        i = i + 8;
        assert(out@ + records_of(b@.skip(i as int)) =~= records_of(b@));
    }
    assert(records_of(b@.skip(i as int)) =~= Seq::<u64>::empty());
    assert(out@ =~= records_of(b@));
    out
}

/// Copies the bytes of `b` between `from` and `to`.
pub fn copy_range(b: &Vec<u8>, from: usize, to: usize) -> (r: Vec<u8>)
    requires
        from <= to <= b@.len(),
    ensures
        r@ == b@.subrange(from as int, to as int),
{
    let mut out: Vec<u8> = Vec::new();
    let mut i: usize = from;
    while i < to
        invariant
            from <= i <= to <= b@.len(),
            out@ == b@.subrange(from as int, i as int),
        decreases to - i,
    {
        out.push(b[i]);
        i = i + 1;
        assert(out@ =~= b@.subrange(from as int, i as int));
    }
    out
}

} // verus!
