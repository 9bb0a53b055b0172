//! The run-length codec: each run of equal bytes becomes one
//! `(value, count)` record of two bytes.

use vstd::prelude::*;
use crate::error::CodecError;
use crate::rle_laws::{
    lemma_encoding_is_well_formed, lemma_longest_run_is_unique, lemma_round_trip,
};
use crate::rle_model::{decoding, encoding, encoding_from, expansion, run, well_formed, MAX_RUN};

verus! {

/// Compresses `data` into `(value, count)` records.
///
/// An empty buffer is not compressed: it is rejected as `EmptyInput`. Any
/// other buffer gives one record for each longest run of at most `MAX_RUN`
/// equal bytes; the stream decodes to `data` again and is at most twice as
/// long.
pub fn compress(data: &[u8]) -> (result: Result<Vec<u8>, CodecError>)
    ensures
        match result {
            Ok(stream) => {
                &&& data@.len() > 0
                &&& stream@ == encoding(data@)
                &&& well_formed(stream@)
                &&& stream@.len() <= 2 * data@.len()
                &&& decoding(stream@) == Ok::<Seq<u8>, CodecError>(data@)
            },
            Err(e) => data@.len() == 0 && e == CodecError::EmptyInput,
        },
{
    if data.len() == 0 {
        return Err(CodecError::EmptyInput);
    }
    let mut stream: Vec<u8> = Vec::new();
    let mut count: u8 = 1;
    let mut current: u8 = data[0];
    let mut i: usize = 1;
    while i < data.len()
        invariant
            1 <= count <= i <= data.len(),
            current == data@[i - count],
            forall|j: int| i - count <= j < i ==> #[trigger] data@[j] == current,
            encoding(data@) == stream@ + encoding_from(data@, i - count),
        decreases data.len() - i,
    {
        let byte = data[i];
        if byte == current && count < MAX_RUN {
            count += 1;
        } else {
            proof {
                lemma_longest_run_is_unique(data@, i - count, count as nat);
            }
            stream.push(current);
            stream.push(count);
            current = byte;
            count = 1;
        }
        i += 1;
    }
    proof {
        lemma_longest_run_is_unique(data@, i - count, count as nat);
    }
    stream.push(current);
    stream.push(count);
    proof {
        assert(encoding_from(data@, i as int) =~= Seq::<u8>::empty());
        lemma_encoding_is_well_formed(data@);
        lemma_round_trip(data@);
    }
    Ok(stream)
}

/// Decompresses a stream of `(value, count)` records: each record stands
/// for `count` copies of `value`.
///
/// A stream of odd length ends in the middle of a record and is rejected as
/// `TruncatedInput`; every other stream decodes.
pub fn decompress(data: &[u8]) -> (result: Result<Vec<u8>, CodecError>)
    ensures
        match result {
            Ok(bytes) => data@.len() % 2 == 0 && bytes@ == expansion(data@),
            Err(e) => data@.len() % 2 == 1 && e == CodecError::TruncatedInput,
        },
        match result {
            Ok(bytes) => decoding(data@) == Ok::<Seq<u8>, CodecError>(bytes@),
            Err(e) => decoding(data@) == Err::<Seq<u8>, CodecError>(e),
        },
{
    if data.len() % 2 != 0 {
        return Err(CodecError::TruncatedInput);
    }
    let mut out: Vec<u8> = Vec::new();
    let mut i: usize = 0;
    assert(data@.skip(0) =~= data@);
    while i < data.len()
        invariant
            i <= data.len(),
            i % 2 == 0,
            data.len() % 2 == 0,
            expansion(data@) == out@ + expansion(data@.skip(i as int)),
        decreases data.len() - i,
    {
        let ghost rest = data@.skip(i as int);
        let ghost before = out@;
        let value = data[i];
        let count = data[i + 1];
        assert(rest.skip(2) =~= data@.skip(i + 2));
        let mut j: u8 = 0;
        while j < count
            invariant
                j <= count,
                out@ == before + run(value, j as nat),
            decreases count - j,
        {
            out.push(value);
            j += 1;
        }
        i += 2;
    }
    Ok(out)
}

} // verus!
