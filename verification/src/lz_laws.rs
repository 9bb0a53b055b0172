//! Laws of the sliding-window codec, proved over its model.

use vstd::prelude::*;
use crate::error::CodecError;
use crate::lz_model::{
    best_candidate, chosen_length, chosen_source, common_prefix_len, copy_back, decoding,
    decoding_onto, emits_match, encoding, encoding_from, is_longest_match,
    match_length, source_in_bounds, well_formed, window_start, LITERAL_TAG, MATCH_TAG,
    MIN_MATCH_LENGTH,
};

verus! {

/// The common prefix length lies within both sequences, the sequences agree
/// below it, and they end or differ at it.
pub proof fn lemma_common_prefix_len(a: Seq<u8>, b: Seq<u8>)
    ensures
        common_prefix_len(a, b) <= a.len(),
        common_prefix_len(a, b) <= b.len(),
        forall|k: int| 0 <= k < common_prefix_len(a, b) ==> #[trigger] a[k] == b[k],
        common_prefix_len(a, b) == a.len() || common_prefix_len(a, b) == b.len() || a[common_prefix_len(
            a,
            b,
        ) as int] != b[common_prefix_len(a, b) as int],
    decreases a.len(),
{
    if a.len() == 0 || b.len() == 0 || a[0] != b[0] {
    } else {
        let a1 = a.skip(1);
        let b1 = b.skip(1);
        lemma_common_prefix_len(a1, b1);
        let n = common_prefix_len(a1, b1) as int;
        assert forall|k: int| 0 <= k < n + 1 implies #[trigger] a[k] == b[k] by {
            if k > 0 {
                assert(a1[k - 1] == b1[k - 1]);
            }
        }
    }
}

/// The match length at a candidate is a longest match: it is a match, and
/// no longer one starts there.
pub proof fn lemma_match_length_is_longest(s: Seq<u8>, i: int, pos: int)
    requires
        0 <= i <= pos <= s.len(),
    ensures
        is_longest_match(s, i, pos, match_length(s, i, pos)),
{
    let a = s.subrange(i, pos);
    let b = s.skip(pos);
    lemma_common_prefix_len(a, b);
    let n = match_length(s, i, pos) as int;
    assert forall|j: int| i <= j < i + n implies #[trigger] s[j] == s[j + (pos - i)] by {
        assert(a[j - i] == b[j - i]);
    }
}

/// There is exactly one longest match at a candidate: any `n` that is one
/// equals the match length.
pub proof fn lemma_longest_match_is_unique(s: Seq<u8>, i: int, pos: int, n: nat)
    requires
        0 <= i <= pos <= s.len(),
        is_longest_match(s, i, pos, n),
    ensures
        n == match_length(s, i, pos),
{
    lemma_match_length_is_longest(s, i, pos);
}

/// The candidate kept after a scan is the earliest of the longest: no
/// candidate of the range has a longer match, and every earlier one has a
/// strictly shorter match.
pub proof fn lemma_best_candidate(s: Seq<u8>, pos: int, lo: int, hi: int)
    requires
        lo < hi,
    ensures
        lo <= best_candidate(s, pos, lo, hi) < hi,
        forall|j: int|
            lo <= j < hi ==> #[trigger] match_length(s, j, pos) <= match_length(
                s,
                best_candidate(s, pos, lo, hi),
                pos,
            ),
        forall|j: int|
            lo <= j < best_candidate(s, pos, lo, hi) ==> #[trigger] match_length(s, j, pos)
                < match_length(s, best_candidate(s, pos, lo, hi), pos),
    decreases hi - lo,
{
    if hi - lo > 1 {
        lemma_best_candidate(s, pos, lo, hi - 1);
    }
}

/// The match chosen at `pos` is the earliest of the longest in the window:
/// its source lies in the window, no candidate has a longer match, and every
/// older candidate has a strictly shorter one.
pub proof fn lemma_chosen_match(s: Seq<u8>, pos: int, window: u8)
    requires
        window_start(pos, window) < pos,
    ensures
        window_start(pos, window) <= chosen_source(s, pos, window) < pos,
        forall|j: int|
            window_start(pos, window) <= j < pos ==> #[trigger] match_length(s, j, pos)
                <= chosen_length(s, pos, window),
        forall|j: int|
            window_start(pos, window) <= j < chosen_source(s, pos, window)
                ==> #[trigger] match_length(s, j, pos) < chosen_length(s, pos, window),
{
    lemma_best_candidate(s, pos, window_start(pos, window), pos);
}

/// Of two candidates in the window whose matches are equally long, the
/// newer one is never chosen: a tie goes to the candidate scanned first,
/// which is the one with the larger offset.
pub proof fn lemma_tie_break(s: Seq<u8>, pos: int, window: u8, older: int, newer: int)
    requires
        window_start(pos, window) <= older < newer < pos,
        match_length(s, older, pos) == match_length(s, newer, pos),
    ensures
        chosen_source(s, pos, window) != newer,
{
    lemma_chosen_match(s, pos, window);
}

/// Where no candidate in the window matches `MIN_MATCH_LENGTH` bytes or
/// more, the record emitted at `pos` is a literal.
pub proof fn lemma_short_repeats_are_literals(s: Seq<u8>, pos: int, window: u8, min_len: u8)
    requires
        0 <= pos < s.len(),
        forall|i: int|
            window_start(pos, window) <= i < pos ==> #[trigger] match_length(s, i, pos)
                < MIN_MATCH_LENGTH,
    ensures
        !emits_match(s, pos, window, min_len),
        encoding_from(s, pos, window, min_len) == seq![LITERAL_TAG, s[pos]] + encoding_from(
            s,
            pos + 1,
            window,
            min_len,
        ),
{
    if window_start(pos, window) < pos {
        lemma_chosen_match(s, pos, window);
    }
}

/// Where some candidate in the window matches at least `min_len` bytes, and
/// at least `MIN_MATCH_LENGTH`, the record emitted at `pos` is a match, at
/// least as long as that candidate's.
pub proof fn lemma_long_repeat_is_match(s: Seq<u8>, pos: int, window: u8, min_len: u8, i: int)
    requires
        0 <= pos < s.len(),
        window_start(pos, window) <= i < pos,
        match_length(s, i, pos) >= min_len,
        match_length(s, i, pos) >= MIN_MATCH_LENGTH,
    ensures
        emits_match(s, pos, window, min_len),
        chosen_length(s, pos, window) >= match_length(s, i, pos),
        encoding_from(s, pos, window, min_len) == seq![
            MATCH_TAG,
            (pos - chosen_source(s, pos, window)) as u8,
            chosen_length(s, pos, window) as u8,
        ] + encoding_from(s, pos + chosen_length(s, pos, window), window, min_len),
{
    lemma_chosen_match(s, pos, window);
}

/// A match lengthens the output by `n` bytes, leaves what was decoded before
/// untouched, and makes every new byte equal to the byte `offset` positions
/// before it, whether or not source and destination overlap.
pub proof fn lemma_copy_back(out: Seq<u8>, offset: nat, n: nat)
    requires
        1 <= offset <= out.len(),
    ensures
        copy_back(out, offset, n).len() == out.len() + n,
        forall|k: int| 0 <= k < out.len() ==> #[trigger] copy_back(out, offset, n)[k] == out[k],
        forall|k: int|
            out.len() <= k < out.len() + n ==> #[trigger] copy_back(out, offset, n)[k]
                == copy_back(out, offset, n)[k - offset],
    decreases n,
{
    if n > 0 {
        let next = out.push(out[out.len() - offset]);
        lemma_copy_back(next, offset, (n - 1) as nat);
        assert forall|k: int| 0 <= k < out.len() implies #[trigger] copy_back(out, offset, n)[k]
            == out[k] by {
            assert(next[k] == out[k]);
        }
    }
}

/// Copying back over a prefix of `s` whose continuation repeats at distance
/// `offset` yields the longer prefix.
proof fn lemma_copy_back_extends(s: Seq<u8>, pos: int, offset: nat, n: nat)
    requires
        1 <= offset <= pos,
        pos + n <= s.len(),
        forall|j: int| pos <= j < pos + n ==> #[trigger] s[j] == s[j - offset],
    ensures
        copy_back(s.take(pos), offset, n) == s.take(pos + n),
    decreases n,
{
    if n > 0 {
        assert(s.take(pos).push(s[pos]) =~= s.take(pos + 1));
        lemma_copy_back_extends(s, pos + 1, offset, (n - 1) as nat);
    }
}

/// Decoding the records that the encoder emits from `pos` on, onto the
/// first `pos` bytes of the input, gives the input back.
pub proof fn lemma_decoding_of_encoding(s: Seq<u8>, pos: int, window: u8, min_len: u8)
    requires
        0 <= pos <= s.len(),
    ensures
        decoding_onto(encoding_from(s, pos, window, min_len), s.take(pos)) == Ok::<
            Seq<u8>,
            CodecError,
        >(s),
    decreases s.len() - pos,
{
    let e = encoding_from(s, pos, window, min_len);
    if pos >= s.len() {
        assert(s.take(pos) =~= s);
    } else if emits_match(s, pos, window, min_len) {
        let n = chosen_length(s, pos, window);
        let source = chosen_source(s, pos, window);
        let offset = pos - source;
        lemma_chosen_match(s, pos, window);
        lemma_match_length_is_longest(s, source, pos);
        let rest = encoding_from(s, pos + n, window, min_len);
        assert(e.skip(3) =~= rest);
        lemma_copy_back_extends(s, pos, offset as nat, n);
        lemma_decoding_of_encoding(s, pos + n, window, min_len);
    } else {
        let rest = encoding_from(s, pos + 1, window, min_len);
        assert(e.skip(2) =~= rest);
        assert(s.take(pos).push(s[pos]) =~= s.take(pos + 1));
        lemma_decoding_of_encoding(s, pos + 1, window, min_len);
    }
}

/// Round trip: whatever the window and the minimum match length, the
/// encoding of `s` decodes to `s`.
pub proof fn lemma_round_trip(s: Seq<u8>, window: u8, min_len: u8)
    ensures
        decoding(encoding(s, window, min_len)) == Ok::<Seq<u8>, CodecError>(s),
{
    assert(s.take(0) =~= Seq::<u8>::empty());
    lemma_decoding_of_encoding(s, 0, window, min_len);
}

/// The records that the encoder emits from `pos` on are whole, and each
/// match among them has an offset within the window and a length of at
/// least `min_len` and `MIN_MATCH_LENGTH`.
pub proof fn lemma_encoding_from_is_well_formed(s: Seq<u8>, pos: int, window: u8, min_len: u8)
    requires
        0 <= pos <= s.len(),
    ensures
        well_formed(encoding_from(s, pos, window, min_len), window, min_len),
    decreases s.len() - pos,
{
    let e = encoding_from(s, pos, window, min_len);
    if pos >= s.len() {
    } else if emits_match(s, pos, window, min_len) {
        let n = chosen_length(s, pos, window);
        lemma_chosen_match(s, pos, window);
        lemma_match_length_is_longest(s, chosen_source(s, pos, window), pos);
        let rest = encoding_from(s, pos + n, window, min_len);
        assert(e.skip(3) =~= rest);
        lemma_encoding_from_is_well_formed(s, pos + n, window, min_len);
    } else {
        let rest = encoding_from(s, pos + 1, window, min_len);
        assert(e.skip(2) =~= rest);
        lemma_encoding_from_is_well_formed(s, pos + 1, window, min_len);
    }
}

/// Every stream that the encoder produces is well formed.
pub proof fn lemma_encoding_is_well_formed(s: Seq<u8>, window: u8, min_len: u8)
    ensures
        well_formed(encoding(s, window, min_len), window, min_len),
{
    lemma_encoding_from_is_well_formed(s, 0, window, min_len);
}

/// Records are applied in order: where `head` decodes without error, the
/// result of `head + tail` is that of `tail` applied to what `head` gave.
pub proof fn lemma_decoding_onto_append(head: Seq<u8>, tail: Seq<u8>, out: Seq<u8>)
    requires
        decoding_onto(head, out) is Ok,
    ensures
        decoding_onto(head + tail, out) == decoding_onto(tail, decoding_onto(head, out)->Ok_0),
    decreases head.len(),
{
    let whole = head + tail;
    if head.len() == 0 {
        assert(whole =~= tail);
    } else if head[0] == LITERAL_TAG {
        assert(whole.skip(2) =~= head.skip(2) + tail);
        lemma_decoding_onto_append(head.skip(2), tail, out.push(head[1]));
    } else {
        assert(whole.skip(3) =~= head.skip(3) + tail);
        lemma_decoding_onto_append(
            head.skip(3),
            tail,
            copy_back(out, head[1] as nat, head[2] as nat),
        );
    }
}

/// A stream that ends in the middle of a record, after records that decode
/// without error, is truncated: a lone tag, or a match tag with only its
/// offset.
pub proof fn lemma_incomplete_record_is_truncated(head: Seq<u8>, last: Seq<u8>)
    requires
        decoding(head) is Ok,
        (last.len() == 1 && (last[0] == LITERAL_TAG || last[0] == MATCH_TAG)) || (last.len() == 2
            && last[0] == MATCH_TAG),
    ensures
        decoding(head + last) == Err::<Seq<u8>, CodecError>(CodecError::TruncatedInput),
{
    lemma_decoding_onto_append(head, last, Seq::empty());
}

/// A record that starts with any tag but the two known ones, after records
/// that decode without error, is an invalid marker, whatever follows it.
pub proof fn lemma_unknown_tag_is_invalid_marker(head: Seq<u8>, tag: u8, tail: Seq<u8>)
    requires
        decoding(head) is Ok,
        tag != LITERAL_TAG,
        tag != MATCH_TAG,
    ensures
        decoding(head + seq![tag] + tail) == Err::<Seq<u8>, CodecError>(
            CodecError::InvalidMarker,
        ),
{
    let rest = seq![tag] + tail;
    assert(head + seq![tag] + tail =~= head + rest);
    lemma_decoding_onto_append(head, rest, Seq::empty());
}

/// A match record whose source is out of bounds, after records that decode
/// without error, is an invalid offset, whatever follows it.
pub proof fn lemma_out_of_bounds_match_is_invalid_offset(
    head: Seq<u8>,
    offset: u8,
    length: u8,
    tail: Seq<u8>,
)
    requires
        decoding(head) is Ok,
        !source_in_bounds(decoding(head)->Ok_0.len(), offset as nat, length as nat),
    ensures
        decoding(head + seq![MATCH_TAG, offset, length] + tail) == Err::<Seq<u8>, CodecError>(
            CodecError::InvalidOffset,
        ),
{
    let rest = seq![MATCH_TAG, offset, length] + tail;
    assert(head + seq![MATCH_TAG, offset, length] + tail =~= head + rest);
    lemma_decoding_onto_append(head, rest, Seq::empty());
}

} // verus!
