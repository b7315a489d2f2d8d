//! The encoder.
//!
//! [`compress`] walks over the input once, with a table of the positions
//! that it has seen, and writes literal runs and back-references into a
//! buffer that is as long as the input. Its result is the one that
//! [`encode`] defines.

use crate::encoder::{
    catch_up, common_prefix, empty_table, encode, encode_from, is_match, lemma_encode_at_end,
    lemma_encode_literal, lemma_encode_match, literal_runs, literal_token, match_count,
    match_limit, reference_token, slot, window, HASH_SLOTS,
};
use crate::error::{LzfError, LzfResult};
use crate::format::{decode, MAX_LIT, MAX_OFF, MAX_REF};
use crate::roundtrip::{lemma_budget, lemma_round_trip};
use vstd::prelude::*;

verus! {

/// The two bytes of `p` at `off`, as the start of a hash value.
pub fn first(p: &[u8], off: usize) -> (v: u32)
    requires
        off + 1 < p@.len(),
    ensures
        v == p@[off as int] as int * 256 + p@[off + 1] as int,
{
    assert(p.len() == p@.len());
    let hi: u32 = p[off] as u32;
    let lo: u32 = p[off + 1] as u32;
    assert(hi < 256 && lo < 256 ==> (hi << 8) | lo == hi * 256 + lo) by (bit_vector);
    (hi << 8) | lo
}

/// The hash value `v` moved on by one byte: its low three bytes, then the
/// byte of `p` at `off + 2`.
pub fn next(v: u32, p: &[u8], off: usize) -> (r: u32)
    requires
        off + 2 < p@.len(),
    ensures
        r == (v as int % 0x100_0000) * 256 + p@[off + 2] as int,
{
    assert(p.len() == p@.len());
    let b: u32 = p[off + 2] as u32;
    assert(b < 256 ==> (v << 8) | b == (v % 0x100_0000) * 256 + b) by (bit_vector);
    (v << 8) | b
}

/// Adding 2^64 to a number does not change its remainder modulo 2^16.
proof fn lemma_wrapped_slot(d: int)
    ensures
        (d + 0x1_0000_0000_0000_0000) % 0x1_0000 == d % 0x1_0000,
{
    vstd::arithmetic::div_mod::lemma_mod_multiples_vanish(0x1_0000_0000_0000, d, 0x1_0000);
}

/// The table slot of the hash value `h`.
pub fn idx(h: u32) -> (i: usize)
    ensures
        i == slot(h as int),
        i < HASH_SLOTS,
{
    let h: u64 = h as u64;
    let shifted: u64 = h.wrapping_shr(8);
    let scaled: u64 = h * 5;
    let mixed: u64 = shifted.wrapping_sub(scaled);
    let masked: u64 = mixed & 0xffff;
    proof {
        assert(h >> 8 == h / 256) by (bit_vector);
        assert(mixed & 0xffff == mixed % 0x1_0000) by (bit_vector);
        lemma_wrapped_slot(shifted as int - scaled as int);
    }
    masked as usize
}

/// One for zero and zero for anything else.
pub fn not(i: i32) -> (r: i32)
    ensures
        r == if i == 0 { 1int } else { 0int },
{
    if i == 0 {
        1
    } else {
        0
    }
}

/// The slot of a hash value depends on its low three bytes only.
proof fn lemma_slot_of_low_bytes(h: int)
    requires
        0 <= h,
    ensures
        slot(h) == slot(h % 0x100_0000),
{
    let high = h / 0x100_0000;
    let low = h % 0x100_0000;
    assert(h == 0x100_0000 * high + low);
    assert(h / 256 == 0x1_0000 * high + low / 256);
    assert(h / 256 - h * 5 == 0x1_0000 * (-1279 * high) + (low / 256 - low * 5));
    vstd::arithmetic::div_mod::lemma_mod_multiples_vanish(
        -1279 * high,
        low / 256 - low * 5,
        0x1_0000,
    );
}

/// What a hash value that holds the two bytes before `pos + 2` becomes when
/// the byte at `pos + 2` is moved in: its slot is the one of the three bytes
/// at `pos`, and it holds the two bytes before `pos + 3`.
proof fn lemma_moved_on(data: Seq<u8>, pos: int, before: u32, after: u32)
    requires
        0 <= pos,
        pos + 2 < data.len(),
        before as int % 0x1_0000 == pair(data, pos),
        after == (before as int % 0x100_0000) * 256 + data[pos + 2] as int,
    ensures
        slot(after as int) == slot(window(data, pos)),
        after as int % 0x1_0000 == pair(data, pos + 1),
        0 <= slot(after as int) < 0x1_0000,
{
    let b = before as int;
    let top = (b % 0x100_0000) / 0x1_0000;
    assert(b % 0x100_0000 == top * 0x1_0000 + b % 0x1_0000);
    assert(after as int == top * 0x100_0000 + window(data, pos));
    assert(after as int % 0x100_0000 == window(data, pos));
    lemma_slot_of_low_bytes(after as int);
}

/// The output buffer of the encoder, with the run of literals that is open
/// at its end.
///
/// The byte at `head` is kept free for the header of the open run. The
/// tokens that are complete lie before it, the literals of the run behind
/// it.
struct Output {
    buf: Vec<u8>,
    head: usize,
    lit: i32,
}

impl Output {
    /// The number of bytes that the output may take.
    spec fn capacity(&self) -> int {
        self.buf@.len() as int
    }

    /// Whether the buffer holds the tokens `done` and, as the literals of
    /// the open run, `run`.
    #[verifier::opaque]
    spec fn holds(&self, done: Seq<u8>, run: Seq<u8>) -> bool {
        let d = done.len() as int;
        let k = run.len() as int;
        &&& self.buf@.len() <= usize::MAX
        &&& self.head == d
        &&& self.lit == k
        &&& k <= 32
        &&& d <= self.buf@.len()
        &&& k > 0 ==> d + 1 + k <= self.buf@.len()
        &&& self.buf@.take(d) == done
        &&& k > 0 ==> self.buf@.subrange(d + 1, d + 1 + k) == run
    }

    /// An output of `capacity` bytes with nothing in it.
    fn new(capacity: usize) -> (out: Output)
        ensures
            out.capacity() == capacity,
            out.holds(Seq::empty(), Seq::empty()),
    {
        let out = Output { buf: vec![0u8; capacity], head: 0, lit: 0 };
        proof {
            reveal(Output::holds);
            assert(out.buf@.take(0) =~= Seq::<u8>::empty());
        }
        out
    }

    /// Whether one more literal fits.
    fn room_for_literal(&self, Ghost(done): Ghost<Seq<u8>>, Ghost(run): Ghost<Seq<u8>>) -> (fits:
        bool)
        requires
            self.holds(done, run),
        ensures
            fits == (done.len() + 1 + run.len() < self.capacity()),
    {
        proof {
            reveal(Output::holds);
        }
        self.buf.len() - self.head > 1 + self.lit as usize
    }

    /// Whether a back-reference fits behind the open run, with the header
    /// of the run that follows it.
    fn room_for_reference(&self, Ghost(done): Ghost<Seq<u8>>, Ghost(run): Ghost<Seq<u8>>) -> (fits:
        bool)
        requires
            self.holds(done, run),
        ensures
            fits == ((done + literal_runs(run)).len() + 3 + 1 < self.capacity()),
    {
        proof {
            reveal(Output::holds);
            lemma_one_run(run);
        }
        // the length of the output once the run is stopped, or undone if
        // its length is zero
        let stopped: usize = self.head + self.lit as usize + (1 - not(self.lit)) as usize;
        self.buf.len() - stopped > 3 + 1
    }

    /// Whether the open run and what is left at the end of the input fit:
    /// at most 3 bytes can be missing there.
    fn room_for_tail(&self, Ghost(done): Ghost<Seq<u8>>, Ghost(run): Ghost<Seq<u8>>) -> (fits: bool)
        requires
            self.holds(done, run),
        ensures
            fits == (done.len() + 1 + run.len() + 3 <= self.capacity()),
    {
        proof {
            reveal(Output::holds);
        }
        self.buf.len() - self.head >= 1 + self.lit as usize + 3
    }

    /// Stops the open run: writes its header and, unless the run is empty,
    /// starts a new one behind it.
    fn stop_run(&mut self, Ghost(done): Ghost<Seq<u8>>, Ghost(run): Ghost<Seq<u8>>)
        requires
            old(self).holds(done, run),
            old(self).head < old(self).capacity(),
        ensures
            final(self).capacity() == old(self).capacity(),
            final(self).holds(done + literal_runs(run), Seq::empty()),
    {
        proof {
            reveal(Output::holds);
            lemma_one_run(run);
        }
        let ghost before = self.buf@;
        let ghost d = done.len() as int;
        let ghost k = run.len() as int;
        self.buf[self.head] = (self.lit as u8).wrapping_sub(1);
        self.head = self.head + self.lit as usize + (1 - not(self.lit)) as usize;
        self.lit = 0;
        proof {
            let closed = done + literal_runs(run);
            if k == 0 {
                assert(closed =~= done);
                assert(self.buf@.take(d) =~= before.take(d));
            } else {
                assert(self.buf@.take(d + 1 + k) =~= closed) by {
                    assert forall|i: int| 0 <= i < d + 1 + k implies self.buf@.take(d + 1 + k)[i]
                        == closed[i] by {
                        if i < d {
                            assert(before.take(d)[i] == done[i]);
                        } else if i > d {
                            assert(before.subrange(d + 1, d + 1 + k)[i - d - 1] == run[i - d
                                - 1]);
                        }
                    }
                }
            }
        }
    }

    /// Appends one literal to the open run. A run that has reached its
    /// greatest length is stopped.
    fn put_literal(&mut self, byte: u8, Ghost(done): Ghost<Seq<u8>>, Ghost(run): Ghost<Seq<u8>>)
        requires
            old(self).holds(done, run),
            run.len() < 32,
            done.len() + 1 + run.len() < old(self).capacity(),
        ensures
            final(self).capacity() == old(self).capacity(),
            run.len() + 1 < 32 ==> final(self).holds(done, run.push(byte)),
            run.len() + 1 == 32 ==> final(self).holds(
                done + literal_token(run.push(byte)),
                Seq::empty(),
            ),
    {
        proof {
            reveal(Output::holds);
        }
        let ghost before = self.buf@;
        let ghost d = done.len() as int;
        let ghost k = run.len() as int;
        self.buf[self.head + 1 + self.lit as usize] = byte;
        self.lit += 1;
        proof {
            assert(self.buf@.take(d) =~= before.take(d));
            if k > 0 {
                assert(self.buf@.subrange(d + 1, d + 1 + k) =~= before.subrange(d + 1, d + 1 + k));
            }
            assert(self.buf@.subrange(d + 1, d + 1 + k + 1) =~= run.push(byte)) by {
                assert forall|i: int| 0 <= i < k + 1 implies self.buf@.subrange(
                    d + 1,
                    d + 1 + k + 1,
                )[i] == run.push(byte)[i] by {
                    if i < k {
                        assert(before.subrange(d + 1, d + 1 + k)[i] == run[i]);
                    }
                }
            }
        }
        if self.lit == MAX_LIT {
            proof {
                lemma_one_run(run.push(byte));
            }
            self.stop_run(Ghost(done), Ghost(run.push(byte)));
        }
    }

    /// Stops the open run and appends a back-reference. `off` is the
    /// distance less one, `len` the number of bytes to copy less two.
    fn put_reference(
        &mut self,
        off: usize,
        len: usize,
        Ghost(done): Ghost<Seq<u8>>,
        Ghost(run): Ghost<Seq<u8>>,
    )
        requires
            old(self).holds(done, run),
            off < MAX_OFF,
            1 <= len <= MAX_REF - 2,
            (done + literal_runs(run)).len() + 3 + 1 < old(self).capacity(),
        ensures
            final(self).capacity() == old(self).capacity(),
            final(self).holds(
                done + literal_runs(run) + reference_token(off + 1, len + 2),
                Seq::empty(),
            ),
    {
        proof {
            reveal(Output::holds);
            lemma_one_run(run);
        }
        self.stop_run(Ghost(done), Ghost(run));
        let ghost closed = done + literal_runs(run);
        let ghost token = reference_token(off + 1, len + 2);
        let ghost before = self.buf@;
        proof {
            assert(off < 8192 ==> off >> 8 == off / 256 && off >> 8 < 32) by (bit_vector);
            assert(len < 7 ==> len << 5 == len * 32) by (bit_vector);
            assert(off as u8 == off % 256) by (bit_vector);
            assert(7u8 << 5 == 224) by (bit_vector);
        }
        if len < 7 {
            self.buf[self.head] = (off >> 8) as u8 + (len << 5) as u8;
            self.head += 1;
        } else {
            self.buf[self.head] = (off >> 8) as u8 + (7 << 5);
            self.buf[self.head + 1] = (len - 7) as u8;
            self.head += 2;
        }
        self.buf[self.head] = #[verifier::truncate]
        (off as u8);
        self.head += 1;
        proof {
            assert(self.buf@.take(self.head as int) =~= closed + token) by {
                assert forall|i: int| 0 <= i < self.head implies self.buf@.take(
                    self.head as int,
                )[i] == (closed + token)[i] by {
                    if i < closed.len() {
                        assert(before.take(closed.len() as int)[i] == closed[i]);
                    }
                }
            }
        }
    }

    /// Stops the open run and hands out what was written.
    fn finish(self, Ghost(done): Ghost<Seq<u8>>, Ghost(run): Ghost<Seq<u8>>) -> (packed: Vec<u8>)
        requires
            self.holds(done, run),
            done.len() < self.capacity(),
        ensures
            packed@ == done + literal_runs(run),
    {
        let mut out = self;
        proof {
            reveal(Output::holds);
        }
        out.stop_run(Ghost(done), Ghost(run));
        let head = out.head;
        let mut packed = out.buf;
        packed.truncate(head);
        packed
    }
}

/// Up to 32 literals make one run.
proof fn lemma_one_run(run: Seq<u8>)
    requires
        run.len() <= 32,
    ensures
        run.len() == 0 ==> literal_runs(run) == Seq::<u8>::empty(),
        run.len() > 0 ==> literal_runs(run) == literal_token(run),
        literal_runs(run).len() == if run.len() == 0 {
            0
        } else {
            run.len() + 1
        },
{
}

/// Whether the table `htab` holds the positions `seen`, none of them
/// behind `pos`.
#[verifier::opaque]
spec fn mirrors(htab: Seq<usize>, seen: Seq<int>, pos: int) -> bool {
    &&& htab.len() == HASH_SLOTS
    &&& seen.len() == HASH_SLOTS
    &&& forall|i: int| 0 <= i < HASH_SLOTS ==> htab[i] as int == seen[i]
    &&& forall|i: int| 0 <= i < HASH_SLOTS ==> 0 <= #[trigger] seen[i] <= pos
}

/// A table that holds no position behind `pos` holds none behind a later
/// position.
proof fn lemma_mirrors_later(htab: Seq<usize>, seen: Seq<int>, pos: int, to: int)
    requires
        mirrors(htab, seen, pos),
        pos <= to,
    ensures
        mirrors(htab, seen, to),
{
    reveal(mirrors);
}

/// The two bytes of `data` at `pos`, as a hash value holds them.
spec fn pair(data: Seq<u8>, pos: int) -> int {
    data[pos] as int * 256 + data[pos + 1] as int
}

/// Moves the hash value on to the three bytes at `current_offset`, enters
/// that position into the table, and returns the new hash value and the
/// position that the table held for these three bytes.
fn enter(
    data: &[u8],
    htab: &mut Vec<usize>,
    hval: u32,
    current_offset: usize,
    Ghost(seen): Ghost<Seq<int>>,
    Ghost(bound): Ghost<int>,
) -> (r: (u32, usize))
    requires
        current_offset + 2 < data@.len(),
        mirrors(old(htab)@, seen, bound),
        bound <= current_offset,
        hval as int % 0x1_0000 == pair(data@, current_offset as int),
    ensures
        r.0 as int % 0x1_0000 == pair(data@, current_offset + 1),
        r.1 as int == seen[slot(window(data@, current_offset as int))],
        r.1 <= bound,
        mirrors(
            final(htab)@,
            seen.update(slot(window(data@, current_offset as int)), current_offset as int),
            current_offset as int,
        ),
{
    let moved = next(hval, data, current_offset);
    let hslot_idx = idx(moved);
    proof {
        reveal(mirrors);
        lemma_moved_on(data@, current_offset as int, hval, moved);
    }
    let ref_offset = htab[hslot_idx];
    htab[hslot_idx] = current_offset;
    (moved, ref_offset)
}

/// Whether the position `ref_offset`, found in the table, gives a match for
/// `current_offset`. `off` is the distance between the two less one, or
/// what that wraps to where `ref_offset` is not before `current_offset`.
fn matches(data: &[u8], current_offset: usize, ref_offset: usize, off: usize) -> (found: bool)
    requires
        ref_offset <= current_offset,
        current_offset + 2 < data@.len(),
        off == current_offset.wrapping_sub(ref_offset).wrapping_sub(1),
    ensures
        found == is_match(data@, current_offset as int, ref_offset as int),
        found ==> off == current_offset - ref_offset - 1,
{
    let in_len = data.len();
    proof {
        if ref_offset == current_offset {
            assert(current_offset.wrapping_sub(ref_offset) == 0);
            assert(off == usize::MAX);
        }
    }
    off < MAX_OFF && in_len - current_offset > 4 && ref_offset > 0 && ref_offset < in_len - 2
        && data[ref_offset] == data[current_offset] && data[ref_offset + 1]
        == data[current_offset + 1] && data[ref_offset + 2] == data[current_offset + 2]
}

/// The number of bytes from `ref_offset` and from `current_offset` on that
/// are equal, counted from the fourth on and up to the limit for a match
/// at `current_offset`, and the three before them.
fn match_length(data: &[u8], ref_offset: usize, current_offset: usize) -> (len: usize)
    requires
        ref_offset < current_offset,
        current_offset + 4 < data@.len(),
    ensures
        len == match_count(data@, ref_offset as int, current_offset as int),
        3 <= len <= MAX_REF,
        current_offset + len + 2 <= data@.len(),
{
    let in_len = data.len();
    let rest: usize = in_len - current_offset - 2;
    let maxlen: usize = if rest < MAX_REF {
        rest
    } else {
        MAX_REF
    };
    let mut len: usize = 3;
    while len < maxlen && data[ref_offset + len] == data[current_offset + len]
        invariant
            in_len == data@.len(),
            ref_offset < current_offset,
            current_offset + 4 < in_len,
            maxlen == match_limit(data@, current_offset as int),
            3 <= len <= maxlen,
            match_count(data@, ref_offset as int, current_offset as int) == len + common_prefix(
                data@,
                ref_offset + len,
                current_offset + len,
                maxlen - len,
            ),
        decreases maxlen - len,
    {
        len += 1;
    }
    len
}

/// Compresses `data`, if possible.
///
/// The output is the token stream that [`encode`] describes. It is never
/// longer than `data`, and it decodes to `data` again. Where the encoder
/// would need more room, and for an input of fewer than two bytes,
/// `NoCompressionPossible` is returned, and the caller may store the data
/// as it is.
pub fn compress(data: &[u8]) -> (r: LzfResult<Vec<u8>>)
    ensures
        match encode(data@) {
            Some(packed) => r is Ok && r->Ok_0@ == packed,
            None => r == Err::<Vec<u8>, LzfError>(LzfError::NoCompressionPossible),
        },
        data@.len() < 2 ==> r == Err::<Vec<u8>, LzfError>(LzfError::NoCompressionPossible),
        r is Ok ==> r->Ok_0@.len() <= data@.len(),
        r is Ok ==> decode(r->Ok_0@, data@.len() as int) == Ok::<Seq<u8>, LzfError>(data@),
{
    let in_len = data.len();
    if in_len < 2 {
        return Err(LzfError::NoCompressionPossible);
    }
    let mut out = Output::new(in_len);
    let mut htab: Vec<usize> = vec![0usize; HASH_SLOTS];
    let mut current_offset: usize = 0;
    let mut hval: u32 = first(data, current_offset);

    let ghost goal = encode(data@);
    let ghost mut done: Seq<u8> = Seq::empty();
    let ghost mut run: Seq<u8> = Seq::empty();
    let ghost mut seen: Seq<int> = empty_table();

    proof {
        assert(data@.subrange(0, 0) =~= run);
        assert(mirrors(htab@, seen, 0)) by {
            reveal(mirrors);
        }
    }
    while current_offset < in_len - 2
        invariant
            in_len == data@.len(),
            in_len >= 2,
            out.capacity() == in_len,
            out.holds(done, run),
            mirrors(htab@, seen, current_offset as int),
            run.len() < 32,
            run.len() <= current_offset <= in_len - 2,
            run == data@.subrange(current_offset - run.len(), current_offset as int),
            hval as int % 0x1_0000 == pair(data@, current_offset as int),
            goal == encode(data@),
            encode_from(data@, current_offset as int, run.len() as int, seen, done) == goal,
        decreases in_len - current_offset,
    {
        let ghost pos = current_offset as int;
        let ghost seen_before = seen;
        let (moved, ref_offset) = enter(
            data,
            &mut htab,
            hval,
            current_offset,
            Ghost(seen),
            Ghost(pos),
        );
        hval = moved;
        proof {
            seen = seen.update(slot(window(data@, pos)), pos);
        }

        let off = current_offset.wrapping_sub(ref_offset).wrapping_sub(1);
        if matches(data, current_offset, ref_offset, off) {
            proof {
                lemma_encode_match(data@, pos, run.len() as int, seen_before, done);
            }
            if !out.room_for_reference(Ghost(done), Ghost(run)) {
                return Err(LzfError::NoCompressionPossible);
            }
            let count = match_length(data, ref_offset, current_offset);
            out.put_reference(off, count - 2, Ghost(done), Ghost(run));
            proof {
                done = done + literal_runs(run) + reference_token(pos - ref_offset, count as int);
                run = Seq::empty();
            }

            current_offset += count - 2;
            hval = first(data, current_offset);
            let ghost seen_here = seen;
            let (moved, _) = enter(
                data,
                &mut htab,
                hval,
                current_offset,
                Ghost(seen),
                Ghost(pos),
            );
            hval = moved;
            proof {
                seen = seen.update(slot(window(data@, pos + count - 2)), pos + count - 2);
            }
            current_offset += 1;
            let (moved, _) = enter(
                data,
                &mut htab,
                hval,
                current_offset,
                Ghost(seen),
                Ghost(pos + count - 2),
            );
            hval = moved;
            proof {
                seen = catch_up(data@, seen_here, pos + count);
            }
            current_offset += 1;
            proof {
                lemma_mirrors_later(htab@, seen, pos + count - 1, pos + count);
                assert(data@.subrange(pos + count, pos + count) =~= run);
            }
        } else {
            proof {
                lemma_encode_literal(data@, pos, run.len() as int, seen_before, done);
            }
            // one more literal byte we must copy
            if !out.room_for_literal(Ghost(done), Ghost(run)) {
                return Err(LzfError::NoCompressionPossible);
            }
            out.put_literal(data[current_offset], Ghost(done), Ghost(run));
            current_offset += 1;
            proof {
                lemma_mirrors_later(htab@, seen, pos, pos + 1);
                let longer = run.push(data@[pos]);
                assert(data@.subrange(pos - run.len(), pos + 1) =~= longer);
                if longer.len() == 32 {
                    done = done + literal_token(longer);
                    run = Seq::empty();
                    assert(data@.subrange(pos + 1, pos + 1) =~= run);
                } else {
                    run = longer;
                }
            }
        }
    }

    proof {
        lemma_encode_at_end(data@, current_offset as int, run.len() as int, seen, done);
    }
    if !out.room_for_tail(Ghost(done), Ghost(run)) {
        return Err(LzfError::NoCompressionPossible);
    }
    let ghost packed = done + literal_runs(
        data@.subrange(current_offset - run.len(), in_len as int),
    );

    while current_offset < in_len
        invariant
            in_len == data@.len(),
            out.capacity() == in_len,
            out.holds(done, run),
            run.len() < 32,
            run.len() <= current_offset <= in_len,
            done.len() + 1 + run.len() + (in_len - current_offset) + (if run.len() + (in_len
                - current_offset) >= 32 {
                1int
            } else {
                0int
            }) <= in_len,
            in_len - current_offset <= 2,
            run == data@.subrange(current_offset - run.len(), current_offset as int),
            packed == done + literal_runs(
                data@.subrange(current_offset - run.len(), in_len as int),
            ),
        decreases in_len - current_offset,
    {
        let ghost pos = current_offset as int;
        out.put_literal(data[current_offset], Ghost(done), Ghost(run));
        current_offset += 1;
        proof {
            let longer = run.push(data@[pos]);
            assert(data@.subrange(pos - run.len(), pos + 1) =~= longer);
            if longer.len() == 32 {
                let rest = data@.subrange(pos - 31, in_len as int);
                assert(rest.take(32) =~= longer);
                assert(rest.skip(32) =~= data@.subrange(pos + 1, in_len as int));
                lemma_one_run(rest.skip(32));
                if rest.len() == 32 {
                    assert(rest =~= longer);
                }
                assert(literal_runs(rest) =~= literal_token(longer) + literal_runs(
                    rest.skip(32),
                ));
                done = done + literal_token(longer);
                run = Seq::empty();
                assert(data@.subrange(pos + 1, pos + 1) =~= run);
            } else {
                run = longer;
            }
        }
    }

    proof {
        assert(data@.subrange(current_offset - run.len(), in_len as int) =~= run);
        lemma_round_trip(data@);
        lemma_budget(data@);
    }
    Ok(out.finish(Ghost(done), Ghost(run)))
}

} // verus!
