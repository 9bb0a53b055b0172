//! Laws of the run-length codec, proved over its model.

use vstd::prelude::*;
use crate::error::CodecError;
use crate::rle_model::{
    decoding, encoding, encoding_from, expansion, is_longest_run, leading_run, run_length,
    well_formed, MAX_RUN,
};

verus! {

/// The leading run of a non-empty sequence has at least one byte, lies
/// within the sequence, holds equal bytes only, and ends where the sequence
/// ends or the byte changes.
pub proof fn lemma_leading_run(s: Seq<u8>)
    requires
        s.len() > 0,
    ensures
        1 <= leading_run(s) <= s.len(),
        forall|k: int| 0 <= k < leading_run(s) ==> #[trigger] s[k] == s[0],
        leading_run(s) == s.len() || s[leading_run(s) as int] != s[0],
    decreases s.len(),
{
    if s.len() == 1 || s[1] != s[0] {
    } else {
        let rest = s.skip(1);
        lemma_leading_run(rest);
        let n = leading_run(rest) as int;
        assert forall|k: int| 0 <= k < n + 1 implies #[trigger] s[k] == s[0] by {
            if k > 0 {
                assert(rest[k - 1] == rest[0]);
            }
        }
    }
}

/// The count of the record at `start` is that of a longest run: it is a
/// run, and no longer one starts there.
pub proof fn lemma_run_length_is_longest(s: Seq<u8>, start: int)
    requires
        0 <= start < s.len(),
    ensures
        is_longest_run(s, start, run_length(s, start)),
{
    let tail = s.skip(start);
    lemma_leading_run(tail);
    let n = run_length(s, start) as int;
    assert forall|j: int| start <= j < start + n implies #[trigger] s[j] == s[start] by {
        assert(tail[j - start] == tail[0]);
    }
}

/// There is exactly one longest run at a position: any `n` that is one
/// equals the count of the record there.
pub proof fn lemma_longest_run_is_unique(s: Seq<u8>, start: int, n: nat)
    requires
        is_longest_run(s, start, n),
    ensures
        n == run_length(s, start),
{
    lemma_run_length_is_longest(s, start);
}

/// Run clamping: where more than `MAX_RUN` equal bytes follow each other,
/// the record at their start has the count `MAX_RUN`, and the next record
/// starts `MAX_RUN` bytes later.
pub proof fn lemma_long_run_is_split(s: Seq<u8>, start: int, n: nat)
    requires
        0 <= start,
        n > MAX_RUN,
        start + n <= s.len(),
        forall|j: int| start <= j < start + n ==> #[trigger] s[j] == s[start],
    ensures
        run_length(s, start) == MAX_RUN,
        encoding_from(s, start) == seq![s[start], MAX_RUN] + encoding_from(
            s,
            start + MAX_RUN as int,
        ),
{
    lemma_longest_run_is_unique(s, start, MAX_RUN as nat);
}

/// Expanding the records that the encoder emits from `start` on gives the
/// input from `start` on.
pub proof fn lemma_expansion_of_encoding(s: Seq<u8>, start: int)
    requires
        0 <= start <= s.len(),
    ensures
        expansion(encoding_from(s, start)) == s.skip(start),
    decreases s.len() - start,
{
    let e = encoding_from(s, start);
    if start < s.len() {
        let n = run_length(s, start);
        lemma_run_length_is_longest(s, start);
        assert(e.skip(2) =~= encoding_from(s, start + n));
        lemma_expansion_of_encoding(s, start + n);
    }
}

/// The records that the encoder emits from `start` on are whole, each has a
/// count of at least one, and together they take at most two bytes for
/// each byte of input.
pub proof fn lemma_encoding_from_is_well_formed(s: Seq<u8>, start: int)
    requires
        0 <= start <= s.len(),
    ensures
        well_formed(encoding_from(s, start)),
        encoding_from(s, start).len() <= 2 * (s.len() - start),
        start < s.len() ==> encoding_from(s, start).len() >= 2,
    decreases s.len() - start,
{
    let e = encoding_from(s, start);
    if start < s.len() {
        let n = run_length(s, start);
        lemma_run_length_is_longest(s, start);
        let rest = encoding_from(s, start + n);
        lemma_encoding_from_is_well_formed(s, start + n);
        assert forall|i: int| 0 <= i < e.len() && i % 2 == 1 implies #[trigger] e[i] >= 1 by {
            if i >= 2 {
                assert(e[i] == rest[i - 2]);
            }
        }
    }
}

/// Round trip: the encoding of `s` decodes to `s`.
pub proof fn lemma_round_trip(s: Seq<u8>)
    ensures
        decoding(encoding(s)) == Ok::<Seq<u8>, CodecError>(s),
{
    lemma_encoding_from_is_well_formed(s, 0);
    lemma_expansion_of_encoding(s, 0);
    assert(s.skip(0) =~= s);
}

/// Every stream that the encoder produces is well formed, and at most twice
/// as long as its input.
pub proof fn lemma_encoding_is_well_formed(s: Seq<u8>)
    ensures
        well_formed(encoding(s)),
        encoding(s).len() <= 2 * s.len(),
{
    lemma_encoding_from_is_well_formed(s, 0);
}

/// Records are independent: the expansion of two streams put together, the
/// first of them made of whole records, is the two expansions put together.
pub proof fn lemma_expansion_append(head: Seq<u8>, tail: Seq<u8>)
    requires
        head.len() % 2 == 0,
    ensures
        expansion(head + tail) == expansion(head) + expansion(tail),
    decreases head.len(),
{
    let whole = head + tail;
    if head.len() == 0 {
        assert(whole =~= tail);
    } else {
        assert(whole.skip(2) =~= head.skip(2) + tail);
        lemma_expansion_append(head.skip(2), tail);
    }
}

} // verus!
