//! The encoder, as a mathematical model.
//!
//! The encoder walks over the input once. For each position it looks up, in
//! a table of 65536 slots, the last position at which three bytes with the
//! same hash were seen. If the three bytes there are the same as the three
//! bytes here, and not too far back, it emits a back-reference to them and
//! goes on behind the match; otherwise the byte becomes a literal. Literals
//! are collected into runs of at most 32 bytes.
//!
//! The output may not grow longer than the input: before each token the
//! encoder makes sure that enough room is left, and gives up if not.
//! [`encode`] is the result for a whole input; the executable encoder is
//! verified against it.

use vstd::prelude::*;

verus! {

/// The number of slots in the table of seen positions.
pub const HASH_SLOTS: usize = 65536;

/// The three bytes of `data` at `pos`, read as one 24-bit number.
pub open spec fn window(data: Seq<u8>, pos: int) -> int {
    data[pos] as int * 65536 + data[pos + 1] as int * 256 + data[pos + 2] as int
}

/// The table slot of a 24-bit window `v`: `(v >> 8) - 5 * v`, reduced
/// modulo the number of slots.
pub open spec fn slot(v: int) -> int {
    (v / 256 - v * 5) % 65536
}

/// The table before the first position: no position has been seen.
pub open spec fn empty_table() -> Seq<int> {
    Seq::new(65536, |i: int| 0)
}

/// Whether the position `cand`, found in the table, gives a match for `pos`:
/// it lies before `pos` and at most 8192 bytes back, it is not position 0
/// (which stands for an empty slot), at least five bytes follow `pos`, and
/// the three bytes at both positions are equal.
pub open spec fn is_match(data: Seq<u8>, pos: int, cand: int) -> bool {
    &&& 0 < cand < pos
    &&& pos - cand <= 8192
    &&& pos + 4 < data.len()
    &&& data[cand] == data[pos]
    &&& data[cand + 1] == data[pos + 1]
    &&& data[cand + 2] == data[pos + 2]
}

/// The number of positions, at most `limit`, from `a` and `b` on at which
/// `data` holds the same bytes, up to the first difference.
pub open spec fn common_prefix(data: Seq<u8>, a: int, b: int, limit: int) -> nat
    decreases limit,
{
    if limit > 0 && data[a] == data[b] {
        1 + common_prefix(data, a + 1, b + 1, limit - 1)
    } else {
        0
    }
}

/// The common prefix is never longer than the limit.
pub proof fn lemma_common_prefix_bound(data: Seq<u8>, a: int, b: int, limit: int)
    ensures
        limit > 0 ==> common_prefix(data, a, b, limit) <= limit,
        limit <= 0 ==> common_prefix(data, a, b, limit) == 0,
    decreases limit,
{
    if limit > 0 && data[a] == data[b] {
        lemma_common_prefix_bound(data, a + 1, b + 1, limit - 1);
    }
}

/// The most bytes that a match at `pos` may cover: it ends at least two
/// bytes before the end of the input and is at most 264 bytes long.
pub open spec fn match_limit(data: Seq<u8>, pos: int) -> int {
    if data.len() - pos - 2 < 264 {
        data.len() - pos - 2
    } else {
        264
    }
}

/// The number of bytes that the match of `pos` with `cand` covers: the three
/// bytes that made it a match, and as many equal bytes after them as the
/// limit allows.
pub open spec fn match_count(data: Seq<u8>, cand: int, pos: int) -> int {
    3 + common_prefix(data, cand + 3, pos + 3, match_limit(data, pos) - 3) as int
}

/// The token of one literal run: the number of literals less one, then the
/// literals. Meant for 1 to 32 bytes.
pub open spec fn literal_token(bytes: Seq<u8>) -> Seq<u8> {
    seq![(bytes.len() - 1) as u8] + bytes
}

/// The tokens that carry `bytes` as literals, in runs of 32 bytes and a
/// shorter last one.
pub open spec fn literal_runs(bytes: Seq<u8>) -> Seq<u8>
    decreases bytes.len(),
{
    if bytes.len() == 0 {
        Seq::empty()
    } else if bytes.len() <= 32 {
        literal_token(bytes)
    } else {
        literal_token(bytes.take(32)) + literal_runs(bytes.skip(32))
    }
}

/// The token of a back-reference that copies `count` bytes from `distance`
/// back. Meant for a distance of 1 to 8192 and a count of 3 to 264. The
/// short form holds counts up to 8 in the control byte; the long form has a
/// byte of its own for the count.
pub open spec fn reference_token(distance: int, count: int) -> Seq<u8> {
    let off = distance - 1;
    let len = count - 2;
    if len < 7 {
        seq![(off / 256 + len * 32) as u8, (off % 256) as u8]
    } else {
        seq![(off / 256 + 224) as u8, (len - 7) as u8, (off % 256) as u8]
    }
}

/// The output for the end of the input, from `pos` on, where no match is
/// looked for any more: the `lit` pending literals and the bytes that are
/// left become literal runs, if three bytes more than the pending run are
/// free in the output.
pub open spec fn encode_tail(data: Seq<u8>, pos: int, lit: int, done: Seq<u8>) -> Option<Seq<u8>> {
    if done.len() + 1 + lit + 3 > data.len() {
        None
    } else {
        Some(done + literal_runs(data.subrange(pos - lit, data.len() as int)))
    }
}

/// The table after a match that ends before `next`: the two positions just
/// before `next` are entered, so that later matches can refer to them.
pub open spec fn catch_up(data: Seq<u8>, seen: Seq<int>, next: int) -> Seq<int> {
    seen.update(slot(window(data, next - 2)), next - 2).update(
        slot(window(data, next - 1)),
        next - 1,
    )
}

/// The output of the encoder that stands at `pos`, has seen the positions
/// in `table`, has emitted the tokens `done` and holds the last `lit` bytes
/// before `pos` as literals of a run that is not closed yet. `None` when the
/// output would not fit into as many bytes as the input has.
#[verifier::opaque]
pub open spec fn encode_from(
    data: Seq<u8>,
    pos: int,
    lit: int,
    table: Seq<int>,
    done: Seq<u8>,
) -> Option<Seq<u8>>
    decreases data.len() - pos,
    via encode_from_terminates
{
    if pos < 0 || pos + 2 >= data.len() {
        encode_tail(data, pos, lit, done)
    } else {
        let here = slot(window(data, pos));
        let cand = table[here];
        let seen = table.update(here, pos);
        if is_match(data, pos, cand) {
            let closed = done + literal_runs(data.subrange(pos - lit, pos));
            if closed.len() + 3 + 1 >= data.len() {
                None
            } else {
                let count = match_count(data, cand, pos);
                encode_from(
                    data,
                    pos + count,
                    0,
                    catch_up(data, seen, pos + count),
                    closed + reference_token(pos - cand, count),
                )
            }
        } else if done.len() + 1 + lit >= data.len() {
            None
        } else if lit + 1 == 32 {
            encode_from(
                data,
                pos + 1,
                0,
                seen,
                done + literal_token(data.subrange(pos - 31, pos + 1)),
            )
        } else {
            encode_from(data, pos + 1, lit + 1, seen, done)
        }
    }
}

#[via_fn]
proof fn encode_from_terminates(
    data: Seq<u8>,
    pos: int,
    lit: int,
    table: Seq<int>,
    done: Seq<u8>,
) {
    if 0 <= pos && pos + 2 < data.len() {
        let cand = table[slot(window(data, pos))];
        lemma_common_prefix_bound(data, cand + 3, pos + 3, match_limit(data, pos) - 3);
    }
}

/// At the end of the input the encoder only flushes its literals.
pub proof fn lemma_encode_at_end(
    data: Seq<u8>,
    pos: int,
    lit: int,
    table: Seq<int>,
    done: Seq<u8>,
)
    requires
        pos < 0 || pos + 2 >= data.len(),
    ensures
        encode_from(data, pos, lit, table, done) == encode_tail(data, pos, lit, done),
{
    reveal_with_fuel(encode_from, 1);
}

/// Where the table gives no match, the byte at `pos` becomes a literal, and
/// a run that has reached 32 literals is closed.
pub proof fn lemma_encode_literal(
    data: Seq<u8>,
    pos: int,
    lit: int,
    table: Seq<int>,
    done: Seq<u8>,
)
    requires
        0 <= pos,
        pos + 2 < data.len(),
        !is_match(data, pos, table[slot(window(data, pos))]),
    ensures
        encode_from(data, pos, lit, table, done) == (if done.len() + 1 + lit >= data.len() {
            None
        } else if lit + 1 == 32 {
            encode_from(
                data,
                pos + 1,
                0,
                table.update(slot(window(data, pos)), pos),
                done + literal_token(data.subrange(pos - 31, pos + 1)),
            )
        } else {
            encode_from(
                data,
                pos + 1,
                lit + 1,
                table.update(slot(window(data, pos)), pos),
                done,
            )
        }),
{
    reveal_with_fuel(encode_from, 1);
}

/// Where the table gives a match, the open run is closed, a back-reference
/// follows it, and the encoder goes on behind the match.
pub proof fn lemma_encode_match(
    data: Seq<u8>,
    pos: int,
    lit: int,
    table: Seq<int>,
    done: Seq<u8>,
)
    requires
        0 <= pos,
        pos + 2 < data.len(),
        is_match(data, pos, table[slot(window(data, pos))]),
    ensures
        ({
            let cand = table[slot(window(data, pos))];
            let closed = done + literal_runs(data.subrange(pos - lit, pos));
            let count = match_count(data, cand, pos);
            encode_from(data, pos, lit, table, done) == (if closed.len() + 3 + 1 >= data.len() {
                None
            } else {
                encode_from(
                    data,
                    pos + count,
                    0,
                    catch_up(data, table.update(slot(window(data, pos)), pos), pos + count),
                    closed + reference_token(pos - cand, count),
                )
            })
        }),
{
    reveal_with_fuel(encode_from, 1);
}

/// The compressed form of `data`, or `None` where the encoder finds none
/// that is shorter than `data` by the margin it keeps. An input of fewer
/// than two bytes has none.
pub open spec fn encode(data: Seq<u8>) -> Option<Seq<u8>> {
    if data.len() < 2 {
        None
    } else {
        encode_from(data, 0, 0, empty_table(), Seq::empty())
    }
}

} // verus!
