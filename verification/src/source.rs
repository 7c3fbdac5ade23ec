use vstd::prelude::*;
use crate::bytes::{decode_records, records_of};
use crate::cells::{cell_is_valid, cell_res, cell_valid, compact_of, covers, normalize_cells,
    sorted_dedup};
use crate::err::Error;

verus! {

/// What inflating a gzip stream yields: the decompressed bytes, or
/// nothing when the stream is malformed.  Named after flate2's
/// GzDecoder, whose output depends on the stream alone.
pub uninterp spec fn gunzip_of(b: Seq<u8>) -> Option<Seq<u8>>;

/// Relies on flate2::read::GzDecoder: inflating a gzip stream is a
/// function of its bytes alone, and fails exactly on malformed data.
#[verifier::external_body]
pub(crate) fn gunzip(b: &Vec<u8>) -> (r: Result<Vec<u8>, Error>)
    ensures
        match r {
            Ok(v) => gunzip_of(b@) == Some(v@),
            Err(e) => gunzip_of(b@) is None && e == Error::BadGzip,
        },
{
    let mut out = Vec::new();
    let mut dec = flate2::read::GzDecoder::new(b.as_slice());
    match std::io::Read::read_to_end(&mut dec, &mut out) {
        Ok(_) => Ok(out),
        Err(_) => Err(Error::BadGzip),
    }
}

/// The name of a source: the bytes of its file's base name up to the
/// first dot.
pub open spec fn dot_prefix(s: Seq<u8>) -> Seq<u8>
    decreases s.len(),
{
    if s.len() == 0 {
        s
    } else if s[0] == 46u8 {
        Seq::empty()
    } else {
        seq![s[0]] + dot_prefix(s.skip(1))
    }
}

proof fn lemma_dot_prefix_cut(s: Seq<u8>, i: int)
    requires
        0 <= i <= s.len(),
        forall|j: int| 0 <= j < i ==> s[j] != 46u8,
        i == s.len() || s[i] == 46u8,
    ensures
        dot_prefix(s) == s.subrange(0, i),
    decreases s.len(),
{
    if s.len() == 0 {
        assert(dot_prefix(s) =~= s.subrange(0, 0));
    } else if i == 0 {
        assert(s.subrange(0, 0) =~= Seq::<u8>::empty());
    } else {
        lemma_dot_prefix_cut(s.skip(1), i - 1);
        assert(seq![s[0]] + s.skip(1).subrange(0, i - 1) =~= s.subrange(0, i));
    }
}

/// Derives a source's name from its file's base name: everything up
/// to the first dot.
pub fn region_name(base: &Vec<u8>) -> (r: Vec<u8>)
    ensures
        r@ == dot_prefix(base@),
{
    let mut out: Vec<u8> = Vec::new();
    let mut i: usize = 0;
    while i < base.len() && base[i] != 46u8
        invariant
            i <= base@.len(),
            forall|j: int| 0 <= j < i ==> base@[j] != 46u8,
            out@ == base@.subrange(0, i as int),
        decreases base@.len() - i,
    {
        out.push(base[i]);
        i = i + 1;
        assert(out@ =~= base@.subrange(0, i as int));
    }
    proof {
        lemma_dot_prefix_cut(base@, i as int);
    }
    out
}

/// Reads one binary source: inflates the gzip stream, decodes its
/// eight-byte little-endian records, validates each cell, and yields
/// the normalized (sorted, deduplicated, compacted) cell set.
pub fn read_binary_source(data: &Vec<u8>) -> (r: Result<Vec<u64>, Error>)
    ensures
        match r {
            Ok(v) => gunzip_of(data@) is Some && {
                let recs = records_of(gunzip_of(data@).unwrap());
                &&& forall|i: int| 0 <= i < recs.len() ==> cell_valid(#[trigger] recs[i])
                &&& v@ == compact_of(sorted_dedup(recs))
                &&& forall|i: int| 0 <= i < v@.len() ==> cell_valid(#[trigger] v@[i])
                &&& forall|c: u64|
                    #[trigger] recs.contains(c) ==> exists|j: int|
                        0 <= j < v@.len() && covers(v@[j], c)
            },
            Err(e) => match e {
                Error::BadGzip => gunzip_of(data@) is None,
                Error::InvalidCell(c) => gunzip_of(data@) is Some && records_of(
                    gunzip_of(data@).unwrap(),
                ).contains(c) && !cell_valid(c),
                Error::MixedResolutions => gunzip_of(data@) is Some && {
                    let recs = records_of(gunzip_of(data@).unwrap());
                    exists|i: int, j: int|
                        0 <= i < recs.len() && 0 <= j < recs.len() && cell_res(#[trigger] recs[i])
                            != cell_res(#[trigger] recs[j])
                },
                _ => false,
            },
        },
{
    let raw = match gunzip(data) {
        Ok(v) => v,
        Err(e) => {
            return Err(e);
        },
    };
    let recs = decode_records(&raw);
    let mut i: usize = 0;
    while i < recs.len()
        invariant
            i <= recs@.len(),
            gunzip_of(data@) == Some(raw@),
            recs@ == records_of(raw@),
            forall|j: int| 0 <= j < i ==> cell_valid(#[trigger] recs@[j]),
        decreases recs@.len() - i,
    {
        if !cell_is_valid(recs[i]) {
            let bad = recs[i];
            proof {
                assert(gunzip_of(data@) == Some(raw@));
                assert(gunzip_of(data@).unwrap() == raw@);
                assert(records_of(gunzip_of(data@).unwrap()) == recs@);
                assert(recs@.contains(bad));
            }
            return Err(Error::InvalidCell(bad));
        }
        i = i + 1;
    }
    proof {
        assert(gunzip_of(data@).unwrap() == raw@);
        assert(records_of(gunzip_of(data@).unwrap()) == recs@);
    }
    normalize_cells(recs)
}

} // verus!
