//! The mathematical model of the sliding-window codec: what a stream of
//! tagged records means, and which stream the greedy encoder produces.

use vstd::prelude::*;
use crate::error::CodecError;

verus! {

/// Tag byte of a literal record: `[0x00, value]`.
pub const LITERAL_TAG: u8 = 0x00;

/// Tag byte of a match record: `[0x01, offset, length]`.
pub const MATCH_TAG: u8 = 0x01;

/// Largest value of the one-byte length field of a match record.
pub const MAX_LENGTH: u8 = 255;

/// Shortest repeat worth a match record: a match costs three bytes, a
/// literal two, so nothing shorter than three bytes is ever a match.
pub const MIN_MATCH_LENGTH: u8 = 3;

/// Look-back distance of the standard configuration.
pub const WINDOW_SIZE: u8 = 20;

/// Number of leading positions at which `a` and `b` hold the same byte.
pub open spec fn common_prefix_len(a: Seq<u8>, b: Seq<u8>) -> nat
    decreases a.len(),
{
    if a.len() == 0 || b.len() == 0 || a[0] != b[0] {
        0
    } else {
        1 + common_prefix_len(a.skip(1), b.skip(1))
    }
}

/// Length of the match at `pos` whose source starts at candidate `i`: the
/// longest common prefix of the already-seen bytes `s[i..pos]` and the
/// bytes still to encode `s[pos..]`, capped by the length field. The source
/// never reaches `pos`, so `i + match_length <= pos`.
pub open spec fn match_length(s: Seq<u8>, i: int, pos: int) -> nat
    recommends
        0 <= i <= pos <= s.len(),
{
    let n = common_prefix_len(s.subrange(i, pos), s.skip(pos));
    if n > MAX_LENGTH as nat {
        MAX_LENGTH as nat
    } else {
        n
    }
}

/// Whether the `n` bytes at `pos` repeat the `n` bytes at `i`, with the
/// source wholly before `pos` and `n` within the length field.
pub open spec fn is_match(s: Seq<u8>, i: int, pos: int, n: nat) -> bool {
    &&& n <= MAX_LENGTH as nat
    &&& i + n <= pos
    &&& pos + n <= s.len()
    &&& forall|j: int| i <= j < i + n ==> #[trigger] s[j] == s[j + (pos - i)]
}

/// Whether the match of `n` bytes from `i` at `pos` cannot be made longer:
/// the length field is full, the source has reached `pos`, the input has
/// ended, or the next two bytes differ.
pub open spec fn is_longest_match(s: Seq<u8>, i: int, pos: int, n: nat) -> bool {
    &&& is_match(s, i, pos, n)
    &&& (n == MAX_LENGTH as nat || i + n == pos || pos + n == s.len() || s[i + n] != s[pos + n])
}

/// First candidate position of the search window at `pos`: the window holds
/// the last `window` positions before `pos`.
pub open spec fn window_start(pos: int, window: u8) -> int {
    if pos > window as int {
        pos - window as int
    } else {
        0
    }
}

/// The candidate kept after scanning `lo..hi` from oldest to newest: a later
/// candidate replaces the one held only if its match is strictly longer.
/// For an empty range the result is `lo`.
pub open spec fn best_candidate(s: Seq<u8>, pos: int, lo: int, hi: int) -> int
    recommends
        0 <= lo <= hi <= pos <= s.len(),
    decreases hi - lo,
{
    if hi - lo <= 1 {
        lo
    } else {
        let held = best_candidate(s, pos, lo, hi - 1);
        if match_length(s, hi - 1, pos) > match_length(s, held, pos) {
            hi - 1
        } else {
            held
        }
    }
}

/// Source position of the match chosen at `pos`.
pub open spec fn chosen_source(s: Seq<u8>, pos: int, window: u8) -> int {
    best_candidate(s, pos, window_start(pos, window), pos)
}

/// Length of the match chosen at `pos`; zero at position zero, where the
/// window is empty.
pub open spec fn chosen_length(s: Seq<u8>, pos: int, window: u8) -> nat {
    match_length(s, chosen_source(s, pos, window), pos)
}

/// Whether the record emitted at `pos` is a match: the chosen match must be
/// at least `min_len` long, and never shorter than `MIN_MATCH_LENGTH`.
pub open spec fn emits_match(s: Seq<u8>, pos: int, window: u8, min_len: u8) -> bool {
    let n = chosen_length(s, pos, window);
    n >= min_len as nat && n >= MIN_MATCH_LENGTH as nat
}

/// The records that the greedy encoder emits for `s[pos..]`, given that
/// `s[..pos]` has been encoded already.
pub open spec fn encoding_from(s: Seq<u8>, pos: int, window: u8, min_len: u8) -> Seq<u8>
    decreases
        if pos < s.len() {
            s.len() - pos
        } else {
            0
        },
{
    if pos < 0 || pos >= s.len() {
        Seq::empty()
    } else {
        let n = chosen_length(s, pos, window);
        if n >= min_len as nat && n >= MIN_MATCH_LENGTH as nat {
            let offset = pos - chosen_source(s, pos, window);
            seq![MATCH_TAG, offset as u8, n as u8] + encoding_from(s, pos + n, window, min_len)
        } else {
            seq![LITERAL_TAG, s[pos]] + encoding_from(s, pos + 1, window, min_len)
        }
    }
}

/// The compressed stream of `s` for a look-back of `window` positions and a
/// minimum match length of `min_len`.
pub open spec fn encoding(s: Seq<u8>, window: u8, min_len: u8) -> Seq<u8> {
    encoding_from(s, 0, window, min_len)
}

/// `out` after a match of `n` bytes at distance `offset`: each byte is read
/// `offset` positions behind the end and appended at once, so that a later
/// read may see an earlier append of the same match.
pub open spec fn copy_back(out: Seq<u8>, offset: nat, n: nat) -> Seq<u8>
    recommends
        n == 0 || 1 <= offset <= out.len(),
    decreases n,
{
    if n == 0 {
        out
    } else {
        copy_back(out.push(out[out.len() - offset]), offset, (n - 1) as nat)
    }
}

/// Whether a match of `n` bytes at distance `offset` reads only bytes that
/// exist: the offset does not exceed the decoded length, and a match that
/// copies anything has an offset of at least one.
pub open spec fn source_in_bounds(decoded: nat, offset: nat, n: nat) -> bool {
    offset <= decoded && (n == 0 || offset >= 1)
}

/// The result of applying the records of `stream`, in order, to the bytes
/// `out` decoded so far. The first malformed record decides the error.
pub open spec fn decoding_onto(stream: Seq<u8>, out: Seq<u8>) -> Result<Seq<u8>, CodecError>
    decreases stream.len(),
{
    if stream.len() == 0 {
        Ok(out)
    } else if stream[0] == LITERAL_TAG {
        if stream.len() < 2 {
            Err(CodecError::TruncatedInput)
        } else {
            decoding_onto(stream.skip(2), out.push(stream[1]))
        }
    } else if stream[0] == MATCH_TAG {
        if stream.len() < 3 {
            Err(CodecError::TruncatedInput)
        } else if !source_in_bounds(out.len(), stream[1] as nat, stream[2] as nat) {
            Err(CodecError::InvalidOffset)
        } else {
            decoding_onto(stream.skip(3), copy_back(out, stream[1] as nat, stream[2] as nat))
        }
    } else {
        Err(CodecError::InvalidMarker)
    }
}

/// Whether `stream` is a sequence of whole records in which every match
/// has an offset of `1..=window` and a length of at least `min_len`, and
/// never below `MIN_MATCH_LENGTH`.
pub open spec fn well_formed(stream: Seq<u8>, window: u8, min_len: u8) -> bool
    decreases stream.len(),
{
    if stream.len() == 0 {
        true
    } else if stream[0] == LITERAL_TAG {
        stream.len() >= 2 && well_formed(stream.skip(2), window, min_len)
    } else if stream[0] == MATCH_TAG {
        &&& stream.len() >= 3
        &&& 1 <= stream[1] <= window
        &&& stream[2] >= min_len
        &&& stream[2] >= MIN_MATCH_LENGTH
        &&& well_formed(stream.skip(3), window, min_len)
    } else {
        false
    }
}

/// What a compressed stream decodes to, or why it does not.
pub open spec fn decoding(stream: Seq<u8>) -> Result<Seq<u8>, CodecError> {
    decoding_onto(stream, Seq::empty())
}

} // verus!
