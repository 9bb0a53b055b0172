//! The mathematical model of the run-length codec: what a stream of
//! `(value, count)` records means, and which stream the encoder produces.

use vstd::prelude::*;
use crate::error::CodecError;

verus! {

/// Largest count that the one-byte count field of a record can hold. A
/// longer run of equal bytes is split into several records.
pub const MAX_RUN: u8 = 255;

/// Number of leading bytes of `s` that equal its first byte.
pub open spec fn leading_run(s: Seq<u8>) -> nat
    decreases s.len(),
{
    if s.len() == 0 {
        0
    } else if s.len() == 1 || s[1] != s[0] {
        1
    } else {
        1 + leading_run(s.skip(1))
    }
}

/// Count of the record that starts at `start`: the number of consecutive
/// bytes from `start` on that equal `s[start]`, capped by the count field.
pub open spec fn run_length(s: Seq<u8>, start: int) -> nat
    recommends
        0 <= start < s.len(),
{
    let n = leading_run(s.skip(start));
    if n > MAX_RUN as nat {
        MAX_RUN as nat
    } else {
        n
    }
}

/// Whether the `n` bytes from `start` on are one run: at least one byte, at
/// most `MAX_RUN`, all equal to `s[start]`.
pub open spec fn is_run(s: Seq<u8>, start: int, n: nat) -> bool {
    &&& 1 <= n <= MAX_RUN as nat
    &&& 0 <= start
    &&& start + n <= s.len()
    &&& forall|j: int| start <= j < start + n ==> #[trigger] s[j] == s[start]
}

/// Whether the run of `n` bytes from `start` cannot be made longer: the
/// count field is full, the input has ended, or the next byte differs.
pub open spec fn is_longest_run(s: Seq<u8>, start: int, n: nat) -> bool {
    &&& is_run(s, start, n)
    &&& (n == MAX_RUN as nat || start + n == s.len() || s[start + n] != s[start])
}

/// The records that the encoder emits for `s[start..]`, a record starting
/// at `start`: the longest run there, then the records of what follows it.
pub open spec fn encoding_from(s: Seq<u8>, start: int) -> Seq<u8>
    decreases
        if start < s.len() {
            s.len() - start
        } else {
            0
        },
{
    if start < 0 || start >= s.len() {
        Seq::empty()
    } else {
        let n = run_length(s, start);
        seq![s[start], n as u8] + encoding_from(s, start + n)
    }
}

/// The compressed stream of `s`.
pub open spec fn encoding(s: Seq<u8>) -> Seq<u8> {
    encoding_from(s, 0)
}

/// `count` copies of `value`.
pub open spec fn run(value: u8, count: nat) -> Seq<u8> {
    Seq::new(count, |j: int| value)
}

/// The bytes that the records of `stream` stand for: the run of the first
/// record, then those of the records after it. A last odd byte counts for
/// nothing.
pub open spec fn expansion(stream: Seq<u8>) -> Seq<u8>
    decreases stream.len(),
{
    if stream.len() < 2 {
        Seq::empty()
    } else {
        run(stream[0], stream[1] as nat) + expansion(stream.skip(2))
    }
}

/// What a compressed stream decodes to, or why it does not: a stream of odd
/// length ends in the middle of a record.
pub open spec fn decoding(stream: Seq<u8>) -> Result<Seq<u8>, CodecError> {
    if stream.len() % 2 == 0 {
        Ok(expansion(stream))
    } else {
        Err(CodecError::TruncatedInput)
    }
}

/// Whether `stream` is a sequence of whole records, each with a count of at
/// least one.
pub open spec fn well_formed(stream: Seq<u8>) -> bool {
    &&& stream.len() % 2 == 0
    &&& forall|i: int| 0 <= i < stream.len() && i % 2 == 1 ==> #[trigger] stream[i] >= 1
}

} // verus!
