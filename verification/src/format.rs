//! The wire format, as a mathematical model.
//!
//! A payload is a sequence of tokens. The first byte of a token, its control
//! byte, tells what follows:
//!
//! | control byte | token | bytes after it | decodes to |
//! |---|---|---|---|
//! | `000L LLLL` | literal run | `L + 1` literals | those literals |
//! | `LLLR RRRR`, `LLL` in 1..=6 | short back-reference | `D` | `LLL + 2` bytes copied from `(RRRRR << 8) + D + 1` back |
//! | `111R RRRR` | long back-reference | `E`, `D` | `E + 9` bytes copied from `(RRRRR << 8) + D + 1` back |
//!
//! [`decode`] gives the meaning of a whole payload for a given output
//! capacity; the executable decoder is verified against it.

use crate::error::LzfError;
use vstd::prelude::*;

verus! {

/// The most literals that one run can carry.
pub const MAX_LIT: i32 = 32;

/// The largest distance that a back-reference can reach.
pub const MAX_OFF: usize = 8192;

/// The most bytes that one back-reference can copy.
pub const MAX_REF: usize = 264;

/// Whether a control byte opens a literal run.
pub open spec fn is_literal(ctrl: u8) -> bool {
    ctrl < 32
}

/// The number of literals that follow the control byte of a literal run.
pub open spec fn run_length(ctrl: u8) -> int {
    ctrl as int + 1
}

/// The number of bytes that a back-reference token occupies.
pub open spec fn reference_size(ctrl: u8) -> int {
    if ctrl / 32 == 7 {
        3
    } else {
        2
    }
}

/// The number of bytes that a back-reference copies. `ext` is the byte after
/// the control byte, which carries the length only in the long form.
pub open spec fn reference_count(ctrl: u8, ext: u8) -> int {
    if ctrl / 32 == 7 {
        7 + ext as int + 2
    } else {
        ctrl as int / 32 + 2
    }
}

/// How far back from the end of the output a back-reference starts to copy.
/// `low` is the last byte of the token.
pub open spec fn reference_distance(ctrl: u8, low: u8) -> int {
    (ctrl as int % 32) * 256 + low as int + 1
}

/// The ranges that the format gives to its tokens: a literal run carries 1
/// to 32 literals, and a back-reference copies 3 to 264 bytes from 1 to
/// 8192 bytes back.
pub proof fn lemma_token_ranges(ctrl: u8, ext: u8, low: u8)
    ensures
        is_literal(ctrl) ==> 1 <= run_length(ctrl) <= 32,
        !is_literal(ctrl) ==> 1 <= reference_distance(ctrl, low) <= 8192,
        !is_literal(ctrl) ==> 3 <= reference_count(ctrl, ext) <= 264,
{
}

/// The output after `count` bytes were appended to `out` one at a time, each
/// a copy of the byte that lay `distance` before the end at that moment.
///
/// Source and destination may overlap: with `distance == 1` the last byte of
/// `out` is repeated `count` times.
pub open spec fn copy_back(out: Seq<u8>, distance: int, count: int) -> Seq<u8>
    decreases count,
{
    if count <= 0 {
        out
    } else {
        let before = copy_back(out, distance, count - 1);
        before.push(before[before.len() - distance])
    }
}

/// The result of decoding `data` from position `pos` on, when `out` has
/// been produced so far and at most `capacity` bytes may be produced in all.
pub open spec fn decode_from(data: Seq<u8>, pos: int, out: Seq<u8>, capacity: int) -> Result<
    Seq<u8>,
    LzfError,
>
    decreases data.len() - pos,
{
    if pos < 0 || pos >= data.len() {
        Ok(out)
    } else {
        let ctrl = data[pos];
        if is_literal(ctrl) {
            let run = run_length(ctrl);
            if out.len() + run > capacity {
                Err(LzfError::BufferTooSmall)
            } else if pos + 1 + run > data.len() {
                Err(LzfError::DataCorrupted)
            } else {
                decode_from(
                    data,
                    pos + 1 + run,
                    out + data.subrange(pos + 1, pos + 1 + run),
                    capacity,
                )
            }
        } else {
            let size = reference_size(ctrl);
            if pos + size > data.len() {
                Err(LzfError::DataCorrupted)
            } else {
                let count = reference_count(ctrl, data[pos + 1]);
                let distance = reference_distance(ctrl, data[pos + size - 1]);
                if out.len() + count > capacity {
                    Err(LzfError::BufferTooSmall)
                } else if distance > out.len() {
                    Err(LzfError::DataCorrupted)
                } else {
                    decode_from(data, pos + size, copy_back(out, distance, count), capacity)
                }
            }
        }
    }
}

/// The meaning of a payload: the bytes it decodes to within `capacity`
/// bytes of output, or the reason why it does not decode.
///
/// An empty payload is corrupted. A truncated token and a back-reference to
/// before the start of the output are corrupted data too; a token that would
/// produce more than `capacity` bytes in all makes the buffer too small.
pub open spec fn decode(data: Seq<u8>, capacity: int) -> Result<Seq<u8>, LzfError> {
    if data.len() == 0 {
        Err(LzfError::DataCorrupted)
    } else {
        decode_from(data, 0, Seq::empty(), capacity)
    }
}

/// A copy from behind keeps what was there and adds `count` bytes.
pub proof fn lemma_copy_back_len(out: Seq<u8>, distance: int, count: int)
    requires
        count >= 0,
    ensures
        copy_back(out, distance, count).len() == out.len() + count,
        copy_back(out, distance, count).take(out.len() as int) == out,
    decreases count,
{
    if count > 0 {
        lemma_copy_back_len(out, distance, count - 1);
    }
}

/// Each byte that a copy from behind appends is the byte that lies
/// `distance` before it, at an index from 0 up to where the output ended at
/// the moment it was appended.
pub proof fn lemma_copy_back_reads_written(out: Seq<u8>, distance: int, count: int, i: int)
    requires
        1 <= distance <= out.len(),
        0 <= i < count,
    ensures
        0 <= out.len() + i - distance < out.len() + i,
        copy_back(out, distance, count)[out.len() + i] == copy_back(out, distance, count)[out.len()
            + i - distance],
    decreases count,
{
    lemma_copy_back_len(out, distance, count - 1);
    if i < count - 1 {
        lemma_copy_back_reads_written(out, distance, count - 1, i);
    }
}

/// A copy from behind repeats the last `distance` bytes of the output over
/// and over: with a distance of 1, the last byte alone.
pub proof fn lemma_copy_back_period(out: Seq<u8>, distance: int, count: int, i: int)
    requires
        1 <= distance <= out.len(),
        0 <= i < count,
    ensures
        copy_back(out, distance, count)[out.len() + i] == out[out.len() - distance + i % distance],
    decreases i,
{
    let copied = copy_back(out, distance, count);
    lemma_copy_back_len(out, distance, count);
    lemma_copy_back_reads_written(out, distance, count, i);
    if i < distance {
        assert(copied.take(out.len() as int)[out.len() + i - distance] == out[out.len() + i
            - distance]);
        vstd::arithmetic::div_mod::lemma_small_mod(i as nat, distance as nat);
    } else {
        lemma_copy_back_period(out, distance, count, i - distance);
        vstd::arithmetic::div_mod::lemma_mod_sub_multiples_vanish(i, distance);
    }
}

/// What is decoded is never longer than the capacity.
pub proof fn lemma_decode_from_within_capacity(
    data: Seq<u8>,
    pos: int,
    out: Seq<u8>,
    capacity: int,
)
    requires
        out.len() <= capacity,
        decode_from(data, pos, out, capacity) is Ok,
    ensures
        decode_from(data, pos, out, capacity)->Ok_0.len() <= capacity,
    decreases data.len() - pos,
{
    if 0 <= pos < data.len() {
        let ctrl = data[pos];
        if is_literal(ctrl) {
            let run = run_length(ctrl);
            lemma_decode_from_within_capacity(
                data,
                pos + 1 + run,
                out + data.subrange(pos + 1, pos + 1 + run),
                capacity,
            );
        } else {
            let size = reference_size(ctrl);
            let count = reference_count(ctrl, data[pos + 1]);
            let distance = reference_distance(ctrl, data[pos + size - 1]);
            lemma_copy_back_len(out, distance, count);
            lemma_decode_from_within_capacity(
                data,
                pos + size,
                copy_back(out, distance, count),
                capacity,
            );
        }
    }
}

/// What a payload decodes to is never longer than the capacity.
pub proof fn lemma_decode_within_capacity(data: Seq<u8>, capacity: int)
    requires
        decode(data, capacity) is Ok,
    ensures
        decode(data, capacity)->Ok_0.len() <= capacity,
{
    if capacity >= 0 {
        lemma_decode_from_within_capacity(data, 0, Seq::empty(), capacity);
    }
}

/// More room changes the outcome only where the room was too small.
pub proof fn lemma_decode_from_with_more_room(
    data: Seq<u8>,
    pos: int,
    out: Seq<u8>,
    capacity: int,
    more: int,
)
    requires
        capacity <= more,
        decode_from(data, pos, out, capacity) != Err::<Seq<u8>, LzfError>(
            LzfError::BufferTooSmall,
        ),
    ensures
        decode_from(data, pos, out, more) == decode_from(data, pos, out, capacity),
    decreases data.len() - pos,
{
    if 0 <= pos < data.len() {
        let ctrl = data[pos];
        if is_literal(ctrl) {
            let run = run_length(ctrl);
            if out.len() + run <= capacity && pos + 1 + run <= data.len() {
                lemma_decode_from_with_more_room(
                    data,
                    pos + 1 + run,
                    out + data.subrange(pos + 1, pos + 1 + run),
                    capacity,
                    more,
                );
            }
        } else {
            let size = reference_size(ctrl);
            if pos + size <= data.len() {
                let count = reference_count(ctrl, data[pos + 1]);
                let distance = reference_distance(ctrl, data[pos + size - 1]);
                if out.len() + count <= capacity && distance <= out.len() {
                    lemma_decode_from_with_more_room(
                        data,
                        pos + size,
                        copy_back(out, distance, count),
                        capacity,
                        more,
                    );
                }
            }
        }
    }
}

/// A payload that decodes, or is corrupted, within some capacity does the
/// same within any greater one.
pub proof fn lemma_decode_with_more_room(data: Seq<u8>, capacity: int, more: int)
    requires
        capacity <= more,
        decode(data, capacity) != Err::<Seq<u8>, LzfError>(LzfError::BufferTooSmall),
    ensures
        decode(data, more) == decode(data, capacity),
{
    if data.len() > 0 {
        lemma_decode_from_with_more_room(data, 0, Seq::empty(), capacity, more);
    }
}

/// Back-reference safety: wherever decoding goes well from a back-reference
/// on, the reference starts at an index of the output that has been
/// written.
pub proof fn lemma_reference_in_bounds(data: Seq<u8>, pos: int, out: Seq<u8>, capacity: int)
    requires
        0 <= pos < data.len(),
        !is_literal(data[pos]),
        decode_from(data, pos, out, capacity) is Ok,
    ensures
        pos + reference_size(data[pos]) <= data.len(),
        0 <= out.len() - reference_distance(
            data[pos],
            data[pos + reference_size(data[pos]) - 1],
        ) < out.len(),
{
}

} // verus!
