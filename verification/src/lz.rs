//! The sliding-window codec: repeated substrings within a bounded look-back
//! window become `(offset, length)` back-references, everything else is
//! emitted as literal bytes.

use vstd::prelude::*;
use crate::error::CodecError;
use crate::lz_laws::{
    lemma_best_candidate, lemma_chosen_match, lemma_encoding_is_well_formed,
    lemma_longest_match_is_unique, lemma_match_length_is_longest, lemma_round_trip,
};
use crate::lz_model::{
    best_candidate, chosen_length, chosen_source, copy_back, decoding, decoding_onto, encoding,
    encoding_from, match_length, well_formed, window_start, LITERAL_TAG, MATCH_TAG,
    MAX_LENGTH, MIN_MATCH_LENGTH, WINDOW_SIZE,
};

verus! {

/// The encoder's two parameters: how far back it looks for a repeat, and how
/// long a repeat must be to become a match record. Both fit the one-byte
/// fields of a match record; the minimum match length is never below
/// `MIN_MATCH_LENGTH`.
#[derive(Debug, Clone, Copy)]
pub struct Config {
    window_size: u8,
    min_match_length: u8,
}

impl Config {
    #[verifier::type_invariant]
    spec fn valid(&self) -> bool {
        self.min_match_length >= MIN_MATCH_LENGTH
    }

    /// The look-back distance.
    pub closed spec fn window(&self) -> u8 {
        self.window_size
    }

    /// The minimum match length.
    pub closed spec fn min_len(&self) -> u8 {
        self.min_match_length
    }

    /// A configuration with the given look-back distance and minimum match
    /// length, or `None` if the minimum is below `MIN_MATCH_LENGTH`.
    pub fn new(window_size: u8, min_match_length: u8) -> (config: Option<Config>)
        ensures
            match config {
                Some(c) => min_match_length >= MIN_MATCH_LENGTH && c.window() == window_size
                    && c.min_len() == min_match_length,
                None => min_match_length < MIN_MATCH_LENGTH,
            },
    {
        if min_match_length >= MIN_MATCH_LENGTH {
            Some(Config { window_size, min_match_length })
        } else {
            None
        }
    }

    /// The standard configuration: a window of `WINDOW_SIZE` positions and
    /// matches of at least `MIN_MATCH_LENGTH` bytes.
    pub fn standard() -> (config: Config)
        ensures
            config.window() == WINDOW_SIZE,
            config.min_len() == MIN_MATCH_LENGTH,
    {
        Config { window_size: WINDOW_SIZE, min_match_length: MIN_MATCH_LENGTH }
    }

    /// The look-back distance.
    pub fn window_size(&self) -> (w: u8)
        ensures
            w == self.window(),
    {
        self.window_size
    }

    /// The minimum match length.
    pub fn min_match_length(&self) -> (m: u8)
        ensures
            m == self.min_len(),
            m >= MIN_MATCH_LENGTH,
    {
        proof {
            use_type_invariant(self);
        }
        self.min_match_length
    }
}

/// Measures the match at `pos` whose source starts at `i`.
fn find_match_length(data: &[u8], i: usize, pos: usize) -> (length: u8)
    requires
        i <= pos <= data.len(),
    ensures
        length == match_length(data@, i as int, pos as int),
{
    let mut length: usize = 0;
    while pos + length < data.len() && length < MAX_LENGTH as usize && i + length < pos && data[i
        + length] == data[pos + length]
        invariant
            i <= pos <= data.len(),
            length <= MAX_LENGTH,
            i + length <= pos,
            pos + length <= data.len(),
            forall|j: int| i <= j < i + length ==> #[trigger] data@[j] == data@[j + (pos - i)],
        decreases MAX_LENGTH - length,
    {
        length += 1;
    }
    proof {
        lemma_longest_match_is_unique(data@, i as int, pos as int, length as nat);
    }
    length as u8
}

/// Scans the window at `pos` from its oldest position to its newest and
/// returns the offset and length of the match that the encoder keeps. With
/// no candidate, or no candidate that matches at all, the length is zero.
fn find_best_match(data: &[u8], pos: usize, window: u8) -> (best: (u8, u8))
    requires
        pos <= data.len(),
    ensures
        best.1 == chosen_length(data@, pos as int, window),
        best.1 > 0 ==> best.0 == pos - chosen_source(data@, pos as int, window),
{
    let start: usize = if pos > window as usize {
        pos - window as usize
    } else {
        0
    };
    let mut best_offset: u8 = 0;
    let mut best_length: u8 = 0;
    let mut i: usize = start;
    while i < pos
        invariant
            start == window_start(pos as int, window),
            start <= i <= pos <= data.len(),
            i == start ==> best_length == 0,
            i > start ==> best_length == match_length(
                data@,
                best_candidate(data@, pos as int, start as int, i as int),
                pos as int,
            ),
            best_length > 0 ==> best_offset == pos - best_candidate(
                data@,
                pos as int,
                start as int,
                i as int,
            ),
        decreases pos - i,
    {
        let length = find_match_length(data, i, pos);
        proof {
            if i > start {
                lemma_best_candidate(data@, pos as int, start as int, i as int);
            }
        }
        if length > best_length {
            best_length = length;
            best_offset = (pos - i) as u8;
        }
        i += 1;
    }
    (best_offset, best_length)
}

/// Compresses `data` with the given configuration.
///
/// Every buffer is accepted and gives the greedy encoding, which decodes to
/// `data` again. An empty buffer gives an empty stream.
pub fn compress_with(data: &[u8], config: &Config) -> (result: Result<Vec<u8>, CodecError>)
    ensures
        result is Ok,
        result->Ok_0@ == encoding(data@, config.window(), config.min_len()),
        well_formed(result->Ok_0@, config.window(), config.min_len()),
        decoding(result->Ok_0@) == Ok::<Seq<u8>, CodecError>(data@),
{
    let window = config.window_size();
    let min_len = config.min_match_length();
    let mut stream: Vec<u8> = Vec::new();
    let mut pos: usize = 0;
    while pos < data.len()
        invariant
            pos <= data.len(),
            min_len >= MIN_MATCH_LENGTH,
            encoding(data@, window, min_len) == stream@ + encoding_from(
                data@,
                pos as int,
                window,
                min_len,
            ),
        decreases data.len() - pos,
    {
        let (offset, length) = find_best_match(data, pos, window);
        if length >= min_len {
            proof {
                lemma_chosen_match(data@, pos as int, window);
                lemma_match_length_is_longest(
                    data@,
                    chosen_source(data@, pos as int, window),
                    pos as int,
                );
            }
            stream.push(MATCH_TAG);
            stream.push(offset);
            stream.push(length);
            pos += length as usize;
        } else {
            stream.push(LITERAL_TAG);
            stream.push(data[pos]);
            pos += 1;
        }
    }
    proof {
        lemma_encoding_is_well_formed(data@, window, min_len);
        lemma_round_trip(data@, window, min_len);
    }
    Ok(stream)
}

/// Compresses `data` with the standard configuration: a window of
/// `WINDOW_SIZE` positions and matches of at least `MIN_MATCH_LENGTH` bytes.
///
/// Every buffer is accepted; an empty buffer gives an empty stream.
pub fn compress(data: &[u8]) -> (result: Result<Vec<u8>, CodecError>)
    ensures
        result is Ok,
        result->Ok_0@ == encoding(data@, WINDOW_SIZE, MIN_MATCH_LENGTH),
        well_formed(result->Ok_0@, WINDOW_SIZE, MIN_MATCH_LENGTH),
        decoding(result->Ok_0@) == Ok::<Seq<u8>, CodecError>(data@),
{
    let config = Config::standard();
    compress_with(data, &config)
}

/// Decompresses a stream of literal and match records.
///
/// Records are applied in order. The first malformed one ends the decoding
/// with its error: `TruncatedInput` where the stream ends inside a record,
/// `InvalidMarker` for an unknown tag, `InvalidOffset` for a match whose
/// source is not within the bytes decoded so far.
pub fn decompress(data: &[u8]) -> (result: Result<Vec<u8>, CodecError>)
    ensures
        match result {
            Ok(bytes) => decoding(data@) == Ok::<Seq<u8>, CodecError>(bytes@),
            Err(e) => decoding(data@) == Err::<Seq<u8>, CodecError>(e),
        },
{
    let mut out: Vec<u8> = Vec::new();
    let mut i: usize = 0;
    assert(data@.skip(0) =~= data@);
    while i < data.len()
        invariant
            i <= data.len(),
            decoding_onto(data@.skip(i as int), out@) == decoding(data@),
        decreases data.len() - i,
    {
        let ghost rest = data@.skip(i as int);
        let tag = data[i];
        if tag == LITERAL_TAG {
            if data.len() - i < 2 {
                return Err(CodecError::TruncatedInput);
            }
            assert(rest.skip(2) =~= data@.skip(i + 2));
            out.push(data[i + 1]);
            i += 2;
        } else if tag == MATCH_TAG {
            if data.len() - i < 3 {
                return Err(CodecError::TruncatedInput);
            }
            let offset = data[i + 1] as usize;
            let length = data[i + 2] as usize;
            assert(rest.skip(3) =~= data@.skip(i + 3));
            if offset > out.len() || (offset == 0 && length > 0) {
                return Err(CodecError::InvalidOffset);
            }
            let start = out.len() - offset;
            let ghost before = out@;
            let mut j: usize = 0;
            while j < length
                invariant
                    j <= length <= MAX_LENGTH,
                    offset <= before.len(),
                    length > 0 ==> offset >= 1,
                    start == before.len() - offset,
                    out@.len() == before.len() + j,
                    copy_back(out@, offset as nat, (length - j) as nat) == copy_back(
                        before,
                        offset as nat,
                        length as nat,
                    ),
                decreases length - j,
            {
                assert(start + j < out.len());
                let byte = out[start + j];
                out.push(byte);
                j += 1;
            }
            i += 3;
        } else {
            return Err(CodecError::InvalidMarker);
        }
    }
    Ok(out)
}

} // verus!
