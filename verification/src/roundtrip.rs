//! What the encoder emits, the decoder reads back.
//!
//! The main statement is [`lemma_round_trip`]: whenever [`encode`] yields a
//! payload for some data, [`decode`] yields that data for the payload, given
//! room for as many bytes as the data has. The payload is never longer than
//! the data ([`lemma_budget`]).

use crate::encoder::{
    catch_up, common_prefix, empty_table, encode, encode_from, encode_tail, is_match,
    lemma_common_prefix_bound, lemma_encode_at_end, lemma_encode_literal, lemma_encode_match,
    literal_runs, literal_token, match_count, match_limit, reference_token, slot, window,
};
use crate::error::LzfError;
use crate::format::{
    copy_back, decode, decode_from, is_literal, lemma_decode_with_more_room, reference_count,
    reference_distance, reference_size,
};
use vstd::prelude::*;

verus! {

/// The number of bytes that literal runs take: one for each literal, and one
/// for each run.
pub proof fn lemma_literal_runs_len(bytes: Seq<u8>)
    ensures
        literal_runs(bytes).len() == bytes.len() + (bytes.len() + 31) / 32,
    decreases bytes.len(),
{
    if bytes.len() > 32 {
        lemma_literal_runs_len(bytes.skip(32));
    }
}

/// The decoder reads the token of one literal run as its literals.
pub proof fn lemma_literal_token_decodes(
    stream: Seq<u8>,
    at: int,
    bytes: Seq<u8>,
    out: Seq<u8>,
    capacity: int,
)
    requires
        0 <= at,
        1 <= bytes.len() <= 32,
        at + 1 + bytes.len() <= stream.len(),
        stream.subrange(at, at + 1 + bytes.len()) == literal_token(bytes),
        out.len() + bytes.len() <= capacity,
    ensures
        decode_from(stream, at, out, capacity) == decode_from(
            stream,
            at + 1 + bytes.len(),
            out + bytes,
            capacity,
        ),
{
    let token = literal_token(bytes);
    assert(stream[at] == token[0]);
    assert(stream.subrange(at + 1, at + 1 + bytes.len()) =~= bytes) by {
        assert forall|i: int| 0 <= i < bytes.len() implies stream[at + 1 + i] == bytes[i] by {
            assert(token[1 + i] == bytes[i]);
            assert(stream.subrange(at, at + 1 + bytes.len())[1 + i] == stream[at + 1 + i]);
        }
    }
}

/// The decoder reads literal runs as their literals.
pub proof fn lemma_literal_runs_decode(
    stream: Seq<u8>,
    at: int,
    bytes: Seq<u8>,
    out: Seq<u8>,
    capacity: int,
)
    requires
        0 <= at,
        at + literal_runs(bytes).len() <= stream.len(),
        stream.subrange(at, at + literal_runs(bytes).len()) == literal_runs(bytes),
        out.len() + bytes.len() <= capacity,
    ensures
        decode_from(stream, at, out, capacity) == decode_from(
            stream,
            at + literal_runs(bytes).len(),
            out + bytes,
            capacity,
        ),
    decreases bytes.len(),
{
    let runs = literal_runs(bytes);
    if bytes.len() == 0 {
        assert(out + bytes =~= out);
    } else if bytes.len() <= 32 {
        lemma_literal_token_decodes(stream, at, bytes, out, capacity);
    } else {
        let head = bytes.take(32);
        let tail = bytes.skip(32);
        let token = literal_token(head);
        assert(stream.subrange(at, at + 33) =~= token) by {
            assert forall|i: int| 0 <= i < 33 implies stream.subrange(at, at + 33)[i]
                == token[i] by {
                assert(stream.subrange(at, at + runs.len())[i] == runs[i]);
            }
        }
        lemma_literal_token_decodes(stream, at, head, out, capacity);
        assert(stream.subrange(at + 33, at + 33 + literal_runs(tail).len()) =~= literal_runs(
            tail,
        )) by {
            assert forall|i: int| 0 <= i < literal_runs(tail).len() implies stream.subrange(
                at + 33,
                at + 33 + literal_runs(tail).len(),
            )[i] == literal_runs(tail)[i] by {
                assert(stream.subrange(at, at + runs.len())[33 + i] == runs[33 + i]);
            }
        }
        lemma_literal_runs_decode(stream, at + 33, tail, out + head, capacity);
        assert((out + head) + tail =~= out + bytes);
    }
}

/// The token of a back-reference reads back as what it was made from: its
/// control byte is none of a literal run, and its size, distance and count
/// are those that the encoder gave it.
pub proof fn lemma_reference_token_reads_back(distance: int, count: int)
    requires
        1 <= distance <= 8192,
        3 <= count <= 264,
    ensures
        ({
            let token = reference_token(distance, count);
            &&& !is_literal(token[0])
            &&& reference_size(token[0]) == token.len()
            &&& reference_count(token[0], token[1]) == count
            &&& reference_distance(token[0], token[token.len() - 1]) == distance
        }),
{
}

/// The decoder reads the token of a back-reference as a copy of `count`
/// bytes from `distance` back.
pub proof fn lemma_reference_token_decodes(
    stream: Seq<u8>,
    at: int,
    distance: int,
    count: int,
    out: Seq<u8>,
    capacity: int,
)
    requires
        0 <= at,
        1 <= distance <= 8192,
        3 <= count <= 264,
        at + reference_token(distance, count).len() <= stream.len(),
        stream.subrange(at, at + reference_token(distance, count).len()) == reference_token(
            distance,
            count,
        ),
        distance <= out.len(),
        out.len() + count <= capacity,
    ensures
        decode_from(stream, at, out, capacity) == decode_from(
            stream,
            at + reference_token(distance, count).len(),
            copy_back(out, distance, count),
            capacity,
        ),
{
    let token = reference_token(distance, count);
    let part = stream.subrange(at, at + token.len());
    lemma_reference_token_reads_back(distance, count);
    assert(stream[at] == part[0]);
    assert(stream[at + 1] == part[1]);
    assert(stream[at + token.len() - 1] == part[token.len() - 1]);
}

/// Where the bytes at `pos` repeat those `distance` before them, copying
/// from `distance` back produces them.
pub proof fn lemma_copy_back_repeats(data: Seq<u8>, pos: int, distance: int, count: int)
    requires
        1 <= distance <= pos,
        0 <= count,
        pos + count <= data.len(),
        data.subrange(pos - distance, pos - distance + count) == data.subrange(pos, pos + count),
    ensures
        copy_back(data.take(pos), distance, count) == data.take(pos + count),
    decreases count,
{
    if count > 0 {
        let source = data.subrange(pos - distance, pos - distance + count - 1);
        let target = data.subrange(pos, pos + count - 1);
        assert(source =~= target) by {
            assert forall|i: int| 0 <= i < count - 1 implies source[i] == target[i] by {
                assert(data.subrange(pos - distance, pos - distance + count)[i]
                    == data.subrange(pos, pos + count)[i]);
            }
        }
        lemma_copy_back_repeats(data, pos, distance, count - 1);
        let before = data.take(pos + count - 1);
        let whole_source = data.subrange(pos - distance, pos - distance + count);
        let whole_target = data.subrange(pos, pos + count);
        assert(whole_source[count - 1] == data[pos - distance + count - 1]);
        assert(whole_target[count - 1] == data[pos + count - 1]);
        assert(before[before.len() - distance] == data[pos + count - 1]);
        assert(before.push(data[pos + count - 1]) =~= data.take(pos + count));
    } else {
        assert(data.take(pos + count) == data.take(pos));
    }
}

/// The bytes that the common prefix counts are equal.
pub proof fn lemma_common_prefix_equal(data: Seq<u8>, a: int, b: int, limit: int)
    requires
        0 <= a,
        0 <= b,
        0 <= limit,
        a + limit <= data.len(),
        b + limit <= data.len(),
    ensures
        data.subrange(a, a + common_prefix(data, a, b, limit)) == data.subrange(
            b,
            b + common_prefix(data, a, b, limit),
        ),
    decreases limit,
{
    lemma_common_prefix_bound(data, a, b, limit);
    let n = common_prefix(data, a, b, limit) as int;
    if limit > 0 && data[a] == data[b] {
        lemma_common_prefix_bound(data, a + 1, b + 1, limit - 1);
        lemma_common_prefix_equal(data, a + 1, b + 1, limit - 1);
        assert(data.subrange(a, a + n) =~= seq![data[a]] + data.subrange(a + 1, a + n));
        assert(data.subrange(b, b + n) =~= seq![data[b]] + data.subrange(b + 1, b + n));
    } else {
        assert(data.subrange(a, a + n) =~= data.subrange(b, b + n));
    }
}

/// A match covers 3 to 264 bytes that are the same at both positions, and
/// ends at least two bytes before the end of the data.
pub proof fn lemma_match_holds(data: Seq<u8>, pos: int, cand: int)
    requires
        is_match(data, pos, cand),
    ensures
        3 <= match_count(data, cand, pos) <= 264,
        pos + match_count(data, cand, pos) + 2 <= data.len(),
        data.subrange(cand, cand + match_count(data, cand, pos)) == data.subrange(
            pos,
            pos + match_count(data, cand, pos),
        ),
{
    let limit = match_limit(data, pos) - 3;
    let count = match_count(data, cand, pos);
    lemma_common_prefix_bound(data, cand + 3, pos + 3, limit);
    lemma_common_prefix_equal(data, cand + 3, pos + 3, limit);
    let source = data.subrange(cand, cand + count);
    let target = data.subrange(pos, pos + count);
    assert(source =~= target) by {
        assert forall|i: int| 0 <= i < count implies source[i] == target[i] by {
            if i >= 3 {
                assert(data.subrange(cand + 3, cand + count)[i - 3] == data.subrange(
                    pos + 3,
                    pos + count,
                )[i - 3]);
            }
        }
    }
}

/// The part of a stream that lies behind a prefix of it.
proof fn lemma_behind_prefix(stream: Seq<u8>, done: Seq<u8>, token: Seq<u8>)
    requires
        (done + token).len() <= stream.len(),
        stream.take((done + token).len() as int) == done + token,
    ensures
        stream.take(done.len() as int) == done,
        stream.subrange(done.len() as int, done.len() as int + token.len()) == token,
{
    let whole = done + token;
    assert(stream.take(done.len() as int) =~= done) by {
        assert forall|i: int| 0 <= i < done.len() implies stream[i] == done[i] by {
            assert(stream.take(whole.len() as int)[i] == whole[i]);
        }
    }
    assert(stream.subrange(done.len() as int, done.len() as int + token.len()) =~= token) by {
        assert forall|i: int| 0 <= i < token.len() implies stream[done.len() + i] == token[i] by {
            assert(stream.take(whole.len() as int)[done.len() + i] == whole[done.len() + i]);
        }
    }
}

/// Whether the payload `packed` starts with the tokens `done`, is no longer
/// than `data`, and leads the decoder, from behind `done` and with the
/// first `from` bytes of `data` as its output, to the whole of `data`.
pub open spec fn completes(data: Seq<u8>, packed: Seq<u8>, done: Seq<u8>, from: int) -> bool {
    &&& done.len() <= packed.len() <= data.len()
    &&& packed.take(done.len() as int) == done
    &&& decode_from(packed, done.len() as int, data.take(from), data.len() as int) == Ok::<
        Seq<u8>,
        LzfError,
    >(data)
}

/// The literal runs at the end of the input complete the payload.
proof fn lemma_tail_completes(data: Seq<u8>, pos: int, lit: int, done: Seq<u8>)
    requires
        0 <= lit < 32,
        lit <= pos,
        pos + 2 == data.len(),
        encode_tail(data, pos, lit, done) is Some,
    ensures
        completes(data, encode_tail(data, pos, lit, done)->Some_0, done, pos - lit),
{
    let n = data.len() as int;
    let d = done.len() as int;
    let rest = data.subrange(pos - lit, n);
    let packed = done + literal_runs(rest);
    lemma_literal_runs_len(rest);
    assert(packed.take(d) =~= done);
    assert(packed.subrange(d, d + literal_runs(rest).len()) =~= literal_runs(rest));
    lemma_literal_runs_decode(packed, d, rest, data.take(pos - lit), n);
    assert(data.take(pos - lit) + rest =~= data);
}

/// A payload that is complete behind a run of 32 literals is complete
/// before it.
proof fn lemma_run_completes(data: Seq<u8>, packed: Seq<u8>, pos: int, done: Seq<u8>)
    requires
        31 <= pos,
        pos + 1 <= data.len(),
        completes(data, packed, done + literal_token(data.subrange(pos - 31, pos + 1)), pos + 1),
    ensures
        completes(data, packed, done, pos - 31),
{
    let run = data.subrange(pos - 31, pos + 1);
    lemma_behind_prefix(packed, done, literal_token(run));
    lemma_literal_token_decodes(
        packed,
        done.len() as int,
        run,
        data.take(pos - 31),
        data.len() as int,
    );
    assert(data.take(pos - 31) + run =~= data.take(pos + 1));
}

/// A payload that is complete behind the open run and the back-reference
/// for a match is complete before them.
proof fn lemma_match_completes(
    data: Seq<u8>,
    packed: Seq<u8>,
    pos: int,
    lit: int,
    cand: int,
    done: Seq<u8>,
)
    requires
        0 <= lit < 32,
        lit <= pos,
        is_match(data, pos, cand),
        completes(
            data,
            packed,
            done + literal_runs(data.subrange(pos - lit, pos)) + reference_token(
                pos - cand,
                match_count(data, cand, pos),
            ),
            pos + match_count(data, cand, pos),
        ),
    ensures
        completes(data, packed, done, pos - lit),
{
    let n = data.len() as int;
    let run = data.subrange(pos - lit, pos);
    let closed = done + literal_runs(run);
    let count = match_count(data, cand, pos);
    let token = reference_token(pos - cand, count);
    lemma_match_holds(data, pos, cand);
    lemma_literal_runs_len(run);
    lemma_behind_prefix(packed, closed, token);
    lemma_behind_prefix(packed, done, literal_runs(run));
    lemma_literal_runs_decode(packed, done.len() as int, run, data.take(pos - lit), n);
    assert(data.take(pos - lit) + run =~= data.take(pos));
    lemma_reference_token_decodes(packed, closed.len() as int, pos - cand, count, data.take(pos), n);
    lemma_copy_back_repeats(data, pos, pos - cand, count);
}

/// What the encoder yields from a state on starts with the tokens that it
/// has emitted, is no longer than the data, and leads the decoder from the
/// data before the open run to the whole data.
pub proof fn lemma_encode_from_completes(
    data: Seq<u8>,
    pos: int,
    lit: int,
    table: Seq<int>,
    done: Seq<u8>,
)
    requires
        0 <= lit < 32,
        lit <= pos,
        pos + 2 <= data.len(),
        encode_from(data, pos, lit, table, done) is Some,
    ensures
        completes(data, encode_from(data, pos, lit, table, done)->Some_0, done, pos - lit),
    decreases data.len() - pos,
{
    let packed = encode_from(data, pos, lit, table, done)->Some_0;
    if pos + 2 >= data.len() {
        lemma_encode_at_end(data, pos, lit, table, done);
        lemma_tail_completes(data, pos, lit, done);
    } else {
        let here = slot(window(data, pos));
        let cand = table[here];
        let seen = table.update(here, pos);
        if is_match(data, pos, cand) {
            lemma_encode_match(data, pos, lit, table, done);
            lemma_match_holds(data, pos, cand);
            let count = match_count(data, cand, pos);
            lemma_encode_from_completes(
                data,
                pos + count,
                0,
                catch_up(data, seen, pos + count),
                done + literal_runs(data.subrange(pos - lit, pos)) + reference_token(
                    pos - cand,
                    count,
                ),
            );
            lemma_match_completes(data, packed, pos, lit, cand, done);
        } else {
            lemma_encode_literal(data, pos, lit, table, done);
            if lit + 1 == 32 {
                lemma_encode_from_completes(
                    data,
                    pos + 1,
                    0,
                    seen,
                    done + literal_token(data.subrange(pos - 31, pos + 1)),
                );
                lemma_run_completes(data, packed, pos, done);
            } else {
                lemma_encode_from_completes(data, pos + 1, lit + 1, seen, done);
            }
        }
    }
}

/// Round trip: data that the encoder accepts is what the decoder reads from
/// the payload, when it is given room for as many bytes as the data has.
pub proof fn lemma_round_trip(data: Seq<u8>)
    requires
        encode(data) is Some,
    ensures
        decode(encode(data)->Some_0, data.len() as int) == Ok::<Seq<u8>, LzfError>(data),
{
    lemma_encode_from_completes(data, 0, 0, empty_table(), Seq::empty());
    assert(data.take(0) =~= Seq::<u8>::empty());
}

/// Round trip with room to spare: the decoder reads the data back with any
/// capacity from the length of the data on.
pub proof fn lemma_round_trip_with_room(data: Seq<u8>, capacity: int)
    requires
        encode(data) is Some,
        capacity >= data.len(),
    ensures
        decode(encode(data)->Some_0, capacity) == Ok::<Seq<u8>, LzfError>(data),
{
    lemma_round_trip(data);
    lemma_decode_with_more_room(encode(data)->Some_0, data.len() as int, capacity);
}

/// Budget: a payload is never longer than the data it stands for.
pub proof fn lemma_budget(data: Seq<u8>)
    requires
        encode(data) is Some,
    ensures
        encode(data)->Some_0.len() <= data.len(),
{
    lemma_encode_from_completes(data, 0, 0, empty_table(), Seq::empty());
}

/// Data of fewer than two bytes has no payload.
pub proof fn lemma_short_input_rejected(data: Seq<u8>)
    requires
        data.len() < 2,
    ensures
        encode(data) is None,
{
}

/// An empty payload is corrupted, whatever the capacity.
pub proof fn lemma_empty_input_rejected(capacity: int)
    ensures
        decode(Seq::empty(), capacity) == Err::<Seq<u8>, LzfError>(LzfError::DataCorrupted),
{
}

} // verus!
