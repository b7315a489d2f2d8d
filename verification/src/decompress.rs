//! The decoder.

use crate::error::{LzfError, LzfResult};
use crate::format::{copy_back, decode, decode_from, lemma_copy_back_len};
use vstd::prelude::*;

verus! {

/// Copies `count` bytes of `data`, from index `from` on, into `output` at
/// index `to`.
fn copy_literals(data: &[u8], from: usize, output: &mut [u8], to: usize, count: usize)
    requires
        from + count <= data@.len() <= usize::MAX,
        to + count <= old(output)@.len() <= usize::MAX,
    ensures
        final(output)@.len() == old(output)@.len(),
        final(output)@.take(to + count) == old(output)@.take(to as int) + data@.subrange(
            from as int,
            from + count,
        ),
        final(output)@.skip(to + count) == old(output)@.skip(to + count),
{
    let mut i: usize = 0;
    while i < count
        invariant
            i <= count,
            from + count <= data@.len() <= usize::MAX,
            to + count <= output@.len() <= usize::MAX,
            output@.len() == old(output)@.len(),
            output@.take(to + i) == old(output)@.take(to as int) + data@.subrange(
                from as int,
                from + i,
            ),
            output@.skip(to + i) == old(output)@.skip(to + i),
        decreases count - i,
    {
        let ghost before = output@;
        output[to + i] = data[from + i];
        proof {
            assert(output@ == before.update(to + i, data@[from + i]));
            assert(output@.take(to + i + 1) == before.take(to + i).push(data@[from + i]));
            assert(data@.subrange(from as int, from + i + 1) == data@.subrange(
                from as int,
                from + i,
            ).push(data@[from + i]));
            assert(output@.skip(to + i + 1) == before.skip(to + i).skip(1));
            assert(old(output)@.skip(to + i + 1) == old(output)@.skip(to + i).skip(1));
        }
        i += 1;
    }
}

/// Appends `count` bytes at index `end` of `output`, each a copy of the
/// byte `distance` before it. The bytes are copied one at a time, in order,
/// so that a byte written by this call can be read again by it.
fn copy_from_behind(output: &mut [u8], end: usize, distance: usize, count: usize)
    requires
        1 <= distance <= end,
        end + count <= old(output)@.len() <= usize::MAX,
    ensures
        final(output)@.len() == old(output)@.len(),
        final(output)@.take(end + count) == copy_back(
            old(output)@.take(end as int),
            distance as int,
            count as int,
        ),
        final(output)@.skip(end + count) == old(output)@.skip(end + count),
{
    let mut i: usize = 0;
    while i < count
        invariant
            i <= count,
            1 <= distance <= end,
            end + count <= output@.len() <= usize::MAX,
            output@.len() == old(output)@.len(),
            output@.take(end + i) == copy_back(
                old(output)@.take(end as int),
                distance as int,
                i as int,
            ),
            output@.skip(end + i) == old(output)@.skip(end + i),
        decreases count - i,
    {
        let ghost before = output@;
        let c = output[end + i - distance];
        output[end + i] = c;
        proof {
            lemma_copy_back_len(old(output)@.take(end as int), distance as int, i as int);
            assert(before.take(end + i)[end + i - distance] == c);
            assert(output@ == before.update(end + i, c));
            assert(output@.take(end + i + 1) == before.take(end + i).push(c));
            assert(output@.skip(end + i + 1) == before.skip(end + i).skip(1));
            assert(old(output)@.skip(end + i + 1) == old(output)@.skip(end + i).skip(1));
        }
        i += 1;
    }
}

/// Decompresses `data` into `output` and returns the number of bytes that
/// were decoded.
///
/// The length of `output` is the capacity: if the payload decodes to more
/// bytes, `BufferTooSmall` is returned. If the payload is empty, ends in the
/// middle of a token or refers to bytes before the start of the output,
/// `DataCorrupted` is returned. On success the decoded bytes are the first
/// ones of `output`, and the bytes after them are left as they were; after
/// a failure the contents of `output` are not specified.
pub fn decompress(data: &[u8], output: &mut [u8]) -> (r: LzfResult<usize>)
    ensures
        final(output)@.len() == old(output)@.len(),
        data@.len() == 0 ==> r == Err::<usize, LzfError>(LzfError::DataCorrupted),
        match decode(data@, old(output)@.len() as int) {
            Ok(plain) => {
                &&& r == Ok::<usize, LzfError>(plain.len() as usize)
                &&& plain.len() <= old(output)@.len()
                &&& final(output)@.take(plain.len() as int) == plain
                &&& final(output)@.skip(plain.len() as int) == old(output)@.skip(
                    plain.len() as int,
                )
            },
            Err(e) => r == Err::<usize, LzfError>(e),
        },
{
    let in_len = data.len();
    if in_len == 0 {
        return Err(LzfError::DataCorrupted);
    }
    let capacity = output.len();
    let mut current_offset: usize = 0;
    let mut out_len: usize = 0;

    assert(output@.take(0) == Seq::<u8>::empty());
    while current_offset < in_len
        invariant
            in_len == data@.len(),
            capacity == output@.len(),
            output@.len() == old(output)@.len(),
            current_offset <= in_len,
            out_len <= capacity,
            decode_from(
                data@,
                current_offset as int,
                output@.take(out_len as int),
                capacity as int,
            ) == decode(data@, capacity as int),
            output@.skip(out_len as int) == old(output)@.skip(out_len as int),
        decreases in_len - current_offset,
    {
        let ghost start = current_offset;
        let ctrl: u8 = data[current_offset];
        current_offset += 1;

        if ctrl < 32 {
            let run: usize = ctrl as usize + 1;
            if run > capacity - out_len {
                return Err(LzfError::BufferTooSmall);
            }
            if run > in_len - current_offset {
                return Err(LzfError::DataCorrupted);
            }
            let ghost before = output@;
            copy_literals(data, current_offset, output, out_len, run);
            proof {
                assert(before.skip(out_len + run) == before.skip(out_len as int).skip(run as int));
                assert(old(output)@.skip(out_len + run) == old(output)@.skip(out_len as int).skip(
                    run as int,
                ));
            }
            current_offset += run;
            out_len += run;
        } else {
            let mut len: usize = (ctrl >> 5) as usize;
            let high: usize = (ctrl & 0x1f) as usize;
            proof {
                assert(ctrl >> 5 == ctrl / 32) by (bit_vector);
                assert(ctrl & 0x1f == ctrl % 32) by (bit_vector);
                assert(high < 32 ==> high << 8 == high * 256) by (bit_vector);
            }
            let mut ref_offset: usize = (high << 8) + 1;

            if current_offset >= in_len {
                return Err(LzfError::DataCorrupted);
            }
            if len == 7 {
                len += data[current_offset] as usize;
                current_offset += 1;
                if current_offset >= in_len {
                    return Err(LzfError::DataCorrupted);
                }
            }
            ref_offset += data[current_offset] as usize;
            current_offset += 1;

            if len + 2 > capacity - out_len {
                return Err(LzfError::BufferTooSmall);
            }
            if ref_offset > out_len {
                return Err(LzfError::DataCorrupted);
            }
            let ghost before = output@;
            copy_from_behind(output, out_len, ref_offset, len + 2);
            proof {
                assert(before.skip(out_len + len + 2) == before.skip(out_len as int).skip(len + 2));
                assert(old(output)@.skip(out_len + len + 2) == old(output)@.skip(
                    out_len as int,
                ).skip(len + 2));
            }
            out_len += len + 2;
        }
    }

    Ok(out_len)
}

} // verus!
