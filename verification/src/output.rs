//! The output buffer: literals, matches and growth.
//!
//! The buffer is longer than what has been written to it. Behind the write
//! cursor at least `FASTCOPY` bytes of slack are kept while a match is
//! copied, so that a copy may write whole chunks and run past the end of
//! the match.
use vstd::prelude::*;
use crate::grammar::lz_copy;

verus! {

/// The width of one unconditional chunk copy, and the slack that is kept
/// behind the write cursor.
pub const FASTCOPY: usize = 16;

/// The width of one chunk of a run of one repeated byte.
pub const RUN_CHUNK: usize = 8;

/// By how much the buffer grows at least when it is too short.
pub const RESIZE_BY: usize = 4096;

/// The longest match.
pub const DEFLATE_MAX_MATCH_LEN: usize = 258;

/// A match leaves what was there and adds `length` bytes.
pub proof fn lemma_lz_copy_len(out: Seq<u8>, offset: nat, length: nat)
    requires
        1 <= offset <= out.len(),
    ensures
        lz_copy(out, offset, length).len() == out.len() + length,
        lz_copy(out, offset, length).take(out.len() as int) == out,
    decreases length,
{
    if length == 0 {
        assert(out.take(out.len() as int) =~= out);
    } else {
        lemma_lz_copy_len(out, offset, (length - 1) as nat);
        let prev = lz_copy(out, offset, (length - 1) as nat);
        assert(prev.push(prev[prev.len() - offset]).take(out.len() as int) =~= prev.take(
            out.len() as int,
        ));
    }
}

/// Each byte of a match is the byte `offset` places before it, as it stands
/// when it is read; what was there before the match stays.
pub proof fn lemma_lz_copy_index(out: Seq<u8>, offset: nat, length: nat, i: int)
    requires
        1 <= offset <= out.len(),
        0 <= i < out.len() + length,
    ensures
        i < out.len() ==> lz_copy(out, offset, length)[i] == out[i],
        i >= out.len() ==> lz_copy(out, offset, length)[i] == lz_copy(out, offset, length)[i
            - offset],
    decreases length,
{
    lemma_lz_copy_len(out, offset, length);
    if length > 0 {
        let prev = lz_copy(out, offset, (length - 1) as nat);
        lemma_lz_copy_len(out, offset, (length - 1) as nat);
        if i < prev.len() {
            lemma_lz_copy_index(out, offset, (length - 1) as nat, i);
        }
    }
}

/// A match at offset 1 repeats the last byte.
pub proof fn lemma_lz_copy_run(out: Seq<u8>, length: nat, i: int)
    requires
        1 <= out.len(),
        out.len() <= i < out.len() + length,
    ensures
        lz_copy(out, 1, length)[i] == out.last(),
    decreases i,
{
    lemma_lz_copy_index(out, 1, length, i);
    if i > out.len() {
        lemma_lz_copy_run(out, length, i - 1);
    } else {
        lemma_lz_copy_index(out, 1, length, i - 1);
    }
}

/// A match that does not reach into itself copies what stood there before.
pub proof fn lemma_lz_copy_apart(out: Seq<u8>, offset: nat, length: nat, i: int)
    requires
        1 <= offset <= out.len(),
        length <= offset,
        out.len() <= i < out.len() + length,
    ensures
        lz_copy(out, offset, length)[i] == out[i - offset],
{
    lemma_lz_copy_index(out, offset, length, i);
    lemma_lz_copy_index(out, offset, length, i - offset);
}

/// **Overlapping matches.** A match of `length` bytes at distance `offset`
/// leaves what was written, and each of its bytes equals the byte `offset`
/// places before it in the output as it stands when that byte is written,
/// also where the match reaches into itself (`offset < length`). At
/// distance 1 the match is `length` repetitions of the byte before it.
pub proof fn match_copies_from_its_offset(out: Seq<u8>, offset: nat, length: nat)
    requires
        1 <= offset <= out.len(),
    ensures
        lz_copy(out, offset, length).len() == out.len() + length,
        forall|i: int| 0 <= i < out.len() ==> #[trigger] lz_copy(out, offset, length)[i] == out[i],
        forall|i: int|
            out.len() <= i < out.len() + length ==> #[trigger] lz_copy(out, offset, length)[i]
                == lz_copy(out, offset, length)[i - offset],
        offset == 1 ==> forall|i: int|
            out.len() <= i < out.len() + length ==> #[trigger] lz_copy(out, offset, length)[i]
                == out.last(),
{
    lemma_lz_copy_len(out, offset, length);
    assert forall|i: int| 0 <= i < out.len() + length implies (i < out.len() ==> lz_copy(
        out,
        offset,
        length,
    )[i] == out[i]) && (i >= out.len() ==> #[trigger] lz_copy(out, offset, length)[i] == lz_copy(
        out,
        offset,
        length,
    )[i - offset]) by {
        lemma_lz_copy_index(out, offset, length, i);
    }
    if offset == 1 {
        assert forall|i: int| out.len() <= i < out.len() + length implies #[trigger] lz_copy(
            out,
            offset,
            length,
        )[i] == out.last() by {
            lemma_lz_copy_run(out, length, i);
        }
    }
}

/// Makes sure that the place `position` exists, growing the buffer by
/// `RESIZE_BY` bytes if it does not, and writes `elm` there.
pub fn resize_and_push(buf: &mut Vec<u8>, position: usize, elm: u8)
    requires
        position <= old(buf)@.len(),
        old(buf)@.len() + RESIZE_BY <= usize::MAX,
    ensures
        position < old(buf)@.len() ==> final(buf)@.len() == old(buf)@.len(),
        position == old(buf)@.len() ==> final(buf)@.len() == old(buf)@.len() + RESIZE_BY,
        final(buf)@[position as int] == elm,
        forall|i: int|
            0 <= i < old(buf)@.len() && i != position ==> final(buf)@[i] == old(buf)@[i],
        forall|i: int|
            old(buf)@.len() <= i < final(buf)@.len() && i != position ==> final(buf)@[i] == 0,
        final(buf)@.take(position + 1) == old(buf)@.take(position as int).push(elm),
{
    if buf.len() <= position {
        let new_len: usize = buf.len() + RESIZE_BY;
        buf.resize(new_len, 0);
        proof {
            assert forall|i: int| 0 <= i < old(buf)@.len() implies buf@[i] == old(buf)@[i] by {
                assert(buf@.subrange(0, old(buf)@.len() as int)[i] == buf@[i]);
            }
        }
    }
    buf[position] = elm;
    proof {
        assert(buf@.take(position + 1) =~= old(buf)@.take(position as int).push(elm));
    }
}

/// Makes sure that the buffer has at least `needed` bytes, growing it by
/// `RESIZE_BY` bytes more than is needed if it has not.
pub fn reserve_output(buf: &mut Vec<u8>, needed: usize, extra: usize)
    requires
        old(buf)@.len() + RESIZE_BY + extra <= usize::MAX,
        needed <= old(buf)@.len() + RESIZE_BY + extra,
    ensures
        final(buf)@.len() >= needed,
        final(buf)@.len() >= old(buf)@.len(),
        needed <= old(buf)@.len() ==> final(buf)@.len() == old(buf)@.len(),
        needed > old(buf)@.len() ==> final(buf)@.len() == old(buf)@.len() + RESIZE_BY + extra,
        forall|i: int| 0 <= i < old(buf)@.len() ==> final(buf)@[i] == old(buf)@[i],
{
    if needed > buf.len() {
        let new_len: usize = buf.len() + RESIZE_BY + extra;
        buf.resize(new_len, 0);
        proof {
            assert forall|i: int| 0 <= i < old(buf)@.len() implies buf@[i] == old(buf)@[i] by {
                assert(buf@.subrange(0, old(buf)@.len() as int)[i] == buf@[i]);
            }
        }
    }
}

/// Copies the `n` bytes at `src` to `dest`; the two ranges do not overlap.
pub fn const_copy(buf: &mut Vec<u8>, src: usize, dest: usize, n: usize)
    requires
        src + n <= dest,
        dest + n <= old(buf)@.len(),
    ensures
        final(buf)@.len() == old(buf)@.len(),
        forall|i: int| 0 <= i < dest ==> final(buf)@[i] == old(buf)@[i],
        forall|i: int| dest + n <= i < old(buf)@.len() ==> final(buf)@[i] == old(buf)@[i],
        forall|i: int| dest <= i < dest + n ==> final(buf)@[i] == old(buf)@[i - dest + src],
{
    let size: usize = buf.len();
    let mut j: usize = 0;
    while j < n
        invariant
            j <= n,
            size == buf@.len(),
            src + n <= dest,
            dest + n <= buf@.len(),
            buf@.len() == old(buf)@.len(),
            forall|i: int| 0 <= i < dest ==> buf@[i] == old(buf)@[i],
            forall|i: int| dest + n <= i < old(buf)@.len() ==> buf@[i] == old(buf)@[i],
            forall|i: int| dest <= i < dest + j ==> buf@[i] == old(buf)@[i - dest + src],
        decreases n - j,
    {
        let b: u8 = buf[src + j];
        buf[dest + j] = b;
        j += 1;
    }
}

/// Writes `byte` to the `n` places from `dest` on.
pub fn fill_bytes(buf: &mut Vec<u8>, dest: usize, byte: u8, n: usize)
    requires
        dest + n <= old(buf)@.len(),
    ensures
        final(buf)@.len() == old(buf)@.len(),
        forall|i: int| 0 <= i < dest ==> final(buf)@[i] == old(buf)@[i],
        forall|i: int| dest + n <= i < old(buf)@.len() ==> final(buf)@[i] == old(buf)@[i],
        forall|i: int| dest <= i < dest + n ==> final(buf)@[i] == byte,
{
    let size: usize = buf.len();
    let mut j: usize = 0;
    while j < n
        invariant
            j <= n,
            size == buf@.len(),
            dest + n <= buf@.len(),
            buf@.len() == old(buf)@.len(),
            forall|i: int| 0 <= i < dest ==> buf@[i] == old(buf)@[i],
            forall|i: int| dest + n <= i < old(buf)@.len() ==> buf@[i] == old(buf)@[i],
            forall|i: int| dest <= i < dest + j ==> buf@[i] == byte,
        decreases n - j,
    {
        buf[dest + j] = byte;
        j += 1;
    }
}

/// Copies a match byte by byte, so that a match that reaches into itself
/// reads what it has just written.
pub fn copy_rep_matches(buf: &mut Vec<u8>, src: usize, dest: usize, length: usize)
    requires
        src < dest,
        dest + length <= old(buf)@.len(),
    ensures
        final(buf)@.len() == old(buf)@.len(),
        final(buf)@.take(dest + length) == lz_copy(
            old(buf)@.take(dest as int),
            (dest - src) as nat,
            length as nat,
        ),
{
    let ghost start = buf@.take(dest as int);
    let ghost offset = (dest - src) as nat;
    let size: usize = buf.len();
    let mut k: usize = 0;
    while k < length
        invariant
            k <= length,
            size == buf@.len(),
            src < dest,
            start.len() == dest,
            offset == dest - src,
            dest + length <= buf@.len(),
            buf@.len() == old(buf)@.len(),
            buf@.take(dest + k) == lz_copy(start, offset, k as nat),
        decreases length - k,
    {
        let ghost prev = buf@.take(dest + k);
        let b: u8 = buf[src + k];
        buf[dest + k] = b;
        proof {
            lemma_lz_copy_len(start, offset, k as nat);
            assert(prev[src + k] == b);
            assert(buf@.take(dest + k + 1) =~= prev.push(prev[prev.len() - offset]));
        }
        k += 1;
    }
}

/// Appends a match of `length` bytes at distance `offset` behind the
/// `dest` bytes written so far.
///
/// A run (offset 1) is written in chunks of one repeated byte; a match
/// that lies well apart from its source is copied in chunks of `FASTCOPY`
/// bytes; every other match is copied byte by byte. The chunks may write
/// into the slack behind the match.
#[verifier::rlimit(40)]
pub fn copy_match(buf: &mut Vec<u8>, dest: usize, offset: usize, length: usize)
    requires
        1 <= offset <= dest,
        dest + length + FASTCOPY <= old(buf)@.len(),
    ensures
        final(buf)@.len() == old(buf)@.len(),
        final(buf)@.take(dest + length) == lz_copy(
            old(buf)@.take(dest as int),
            offset as nat,
            length as nat,
        ),
{
    let src: usize = dest - offset;
    let size: usize = buf.len();
    let ghost start = buf@.take(dest as int);
    let ghost goal = lz_copy(start, offset as nat, length as nat);
    proof {
        lemma_lz_copy_len(start, offset as nat, length as nat);
    }
    if offset == 1 {
        // a run of one byte, written in groups of eight
        let byte: u8 = buf[src];
        let mut written: usize = 0;
        while written < length
            invariant
                size == buf@.len(),
                written <= length + RUN_CHUNK,
                dest + length + FASTCOPY <= buf@.len(),
                buf@.len() == old(buf)@.len(),
                forall|i: int| 0 <= i < dest ==> buf@[i] == old(buf)@[i],
                forall|i: int| dest <= i < dest + written ==> buf@[i] == byte,
            decreases length + RUN_CHUNK - written,
        {
            fill_bytes(buf, dest + written, byte, RUN_CHUNK);
            written += RUN_CHUNK;
        }
        proof {
            assert forall|i: int| 0 <= i < dest + length implies buf@.take(dest + length)[i]
                == goal[i] by {
                if i < dest {
                    lemma_lz_copy_index(start, 1, length as nat, i);
                } else {
                    lemma_lz_copy_run(start, length as nat, i);
                }
            }
            assert(buf@.take(dest + length) =~= goal);
        }
    } else if src + length + FASTCOPY > dest {
        // the match is close to its source: copy byte by byte
        copy_rep_matches(buf, src, dest, length);
    } else {
        // the match lies apart from its source: copy whole chunks
        let mut copied: usize = 0;
        while copied < length
            invariant
                size == buf@.len(),
                copied <= length + FASTCOPY,
                src + length + FASTCOPY <= dest,
                dest + length + FASTCOPY <= buf@.len(),
                buf@.len() == old(buf)@.len(),
                forall|i: int| 0 <= i < dest ==> buf@[i] == old(buf)@[i],
                forall|i: int| dest <= i < dest + copied ==> buf@[i] == old(buf)@[i - dest + src],
            decreases length + FASTCOPY - copied,
        {
            const_copy(buf, src + copied, dest + copied, FASTCOPY);
            copied += FASTCOPY;
        }
        proof {
            assert forall|i: int| 0 <= i < dest + length implies buf@.take(dest + length)[i]
                == goal[i] by {
                if i < dest {
                    lemma_lz_copy_index(start, offset as nat, length as nat, i);
                } else {
                    lemma_lz_copy_apart(start, offset as nat, length as nat, i);
                }
            }
            assert(buf@.take(dest + length) =~= goal);
        }
    }
}

} // verus!
