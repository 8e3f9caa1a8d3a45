//! The plainest encoding of a byte string: stored blocks.
//!
//! Nothing here runs. The encoding is written down to state that what the
//! stream formats of this crate define is the inverse of an encoding.
use vstd::prelude::*;
use vstd::arithmetic::power2::lemma2_to64;
use crate::adler::{adler32, lemma_adler_bounds};
use crate::bitstream::{lemma_stream_bits_split, lemma_stream_byte, stream_bits, total_bits};
use crate::errors::ZlibDecodeErrors;
use crate::grammar::{
    be32, inflate_block_body, inflate_blocks, inflate_stored, inflated, zlib_decoded,
    zlib_header_ok,
};
use crate::prefix::ends_in_last_byte;

verus! {

/// One stored block that holds `bytes`, of which there are at most 65535:
/// the block header, which says whether the block is the last, the length,
/// its complement, and the bytes.
pub open spec fn stored_block(bytes: Seq<u8>, last: bool) -> Seq<u8> {
    seq![
        if last {
            1u8
        } else {
            0u8
        },
        (bytes.len() % 256) as u8,
        (bytes.len() / 256) as u8,
        (255 - bytes.len() % 256) as u8,
        (255 - bytes.len() / 256) as u8,
    ] + bytes
}

/// The DEFLATE stream that holds `bytes` in stored blocks of 65535 bytes,
/// but for the last one, which holds what is left.
pub open spec fn stored_blocks(bytes: Seq<u8>) -> Seq<u8>
    decreases bytes.len(),
{
    if bytes.len() <= 65535 {
        stored_block(bytes, true)
    } else {
        stored_block(bytes.take(65535), false) + stored_blocks(bytes.skip(65535))
    }
}

/// The four bytes of a 32-bit number, most significant first.
pub open spec fn be_bytes(value: nat) -> Seq<u8> {
    seq![
        (value / 16777216) as u8,
        ((value / 65536) % 256) as u8,
        ((value / 256) % 256) as u8,
        (value % 256) as u8,
    ]
}

/// The zlib stream that holds `bytes` in stored blocks: a header for the
/// largest window and the fastest level, the blocks, and the checksum.
pub open spec fn zlib_stored_blocks(bytes: Seq<u8>) -> Seq<u8> {
    seq![0x78u8, 0x01u8] + stored_blocks(bytes) + be_bytes(adler32(bytes))
}

/// The sixteen bits at a byte boundary are two bytes, the lower one first.
pub proof fn lemma_stream_word(data: Seq<u8>, k: nat)
    requires
        k + 1 < data.len(),
    ensures
        stream_bits(data, 8 * k, 16) == data[k as int] as nat + 256 * (data[(k + 1) as int] as nat),
{
    lemma2_to64();
    lemma_stream_bits_split(data, 8 * k, 8, 8);
    lemma_stream_byte(data, k);
    lemma_stream_byte(data, k + 1);
    assert(8 * k + 8 == 8 * (k + 1));
}

/// What the grammar finds where a stored block stands in a stream: the
/// block begins at byte `k` of `data` and holds `chunk`.
#[verifier::rlimit(40)]
pub proof fn lemma_stored_block_at(data: Seq<u8>, k: nat, chunk: Seq<u8>, last: bool, out: Seq<u8>)
    requires
        chunk.len() <= 65535,
        k + 5 + chunk.len() <= data.len(),
        data.subrange(k as int, (k + 5 + chunk.len()) as int) == stored_block(chunk, last),
    ensures
        8 * k + 3 <= total_bits(data),
        stream_bits(data, 8 * k, 1) == if last {
            1nat
        } else {
            0nat
        },
        stream_bits(data, 8 * k + 1, 2) == 0,
        inflate_block_body(data, 8 * k + 3, 0, out) == Ok::<(Seq<u8>, nat), ZlibDecodeErrors>(
            (out + chunk, 8 * (k + 5 + chunk.len())),
        ),
{
    let n = chunk.len();
    let block = stored_block(chunk, last);
    lemma2_to64();
    assert forall|j: int| 0 <= j < 5 + n implies data[k + j] == #[trigger] block[j] by {
        assert(data.subrange(k as int, (k + 5 + n) as int)[j] == data[k + j]);
    }
    assert(data[k as int] == block[0]);
    assert(data[(k + 1) as int] == block[1]);
    assert(data[(k + 2) as int] == block[2]);
    assert(data[(k + 3) as int] == block[3]);
    assert(data[(k + 4) as int] == block[4]);
    // the three header bits
    lemma_stream_byte(data, k);
    lemma_stream_bits_split(data, 8 * k, 1, 7);
    lemma_stream_bits_split(data, 8 * k + 1, 2, 5);
    // the length and its complement
    lemma_stream_word(data, k + 1);
    lemma_stream_word(data, k + 3);
    assert(8 * (k + 1) == 8 * k + 8);
    assert(8 * (k + 3) == 8 * k + 24);
    assert(stream_bits(data, 8 * k + 8, 16) == n);
    assert(stream_bits(data, 8 * k + 24, 16) == 65535 - n);
    assert(data.subrange((k + 5) as int, (k + 5 + n) as int) =~= chunk) by {
        assert forall|j: int| 0 <= j < n implies data[k + 5 + j] == chunk[j] by {
            assert(block[5 + j] == chunk[j]);
        }
    }
    assert(inflate_block_body(data, 8 * k + 3, 0, out) == inflate_stored(data, 8 * k + 3, out));
}

/// What the grammar does with a stream from a stored block on: it ends with
/// the block if the block is the last, and goes on behind it if not.
#[verifier::rlimit(40)]
pub proof fn lemma_blocks_from_stored(data: Seq<u8>, k: nat, chunk: Seq<u8>, last: bool, out: Seq<u8>)
    requires
        chunk.len() <= 65535,
        k + 5 + chunk.len() <= data.len(),
        data.subrange(k as int, (k + 5 + chunk.len()) as int) == stored_block(chunk, last),
    ensures
        last ==> inflate_blocks(data, 8 * k, out) == Ok::<(Seq<u8>, nat), ZlibDecodeErrors>(
            (out + chunk, 8 * (k + 5 + chunk.len())),
        ),
        !last ==> inflate_blocks(data, 8 * k, out) == inflate_blocks(
            data,
            8 * (k + 5 + chunk.len()),
            out + chunk,
        ),
{
    lemma_stored_block_at(data, k, chunk, last, out);
}

/// What the stored blocks of `bytes` decode to where they stand behind
/// `before` in a stream.
#[verifier::rlimit(40)]
pub proof fn lemma_stored_blocks_at(before: Seq<u8>, bytes: Seq<u8>, out: Seq<u8>)
    ensures
        inflate_blocks(before + stored_blocks(bytes), 8 * before.len(), out) == Ok::<
            (Seq<u8>, nat),
            ZlibDecodeErrors,
        >((out + bytes, total_bits(before + stored_blocks(bytes)))),
    decreases bytes.len(),
{
    let data = before + stored_blocks(bytes);
    let k = before.len();
    if bytes.len() <= 65535 {
        let block = stored_block(bytes, true);
        assert(stored_blocks(bytes) == block);
        assert(data.len() == k + 5 + bytes.len());
        assert(data.subrange(k as int, (k + 5 + bytes.len()) as int) =~= block);
        lemma_blocks_from_stored(data, k, bytes, true, out);
    } else {
        let chunk = bytes.take(65535);
        let rest = bytes.skip(65535);
        let block = stored_block(chunk, false);
        let tail = stored_blocks(rest);
        assert(stored_blocks(bytes) == block + tail);
        assert(block.len() == 5 + 65535);
        assert(data =~= (before + block) + tail);
        assert(data.subrange(k as int, (k + 5 + chunk.len()) as int) =~= block);
        lemma_blocks_from_stored(data, k, chunk, false, out);
        lemma_stored_blocks_at(before + block, rest, out + chunk);
        assert((before + block).len() == k + 5 + chunk.len());
        assert((out + chunk) + rest =~= out + bytes);
    }
}

/// **Round trip, raw.** The stored blocks of a byte string decode to the
/// byte string, and the stream ends with its last byte.
pub proof fn stored_blocks_round_trip(bytes: Seq<u8>)
    ensures
        inflated(stored_blocks(bytes)) == Ok::<Seq<u8>, ZlibDecodeErrors>(bytes),
        ends_in_last_byte(stored_blocks(bytes)),
{
    lemma_stored_blocks_at(Seq::empty(), bytes, Seq::empty());
    assert(Seq::<u8>::empty() + stored_blocks(bytes) =~= stored_blocks(bytes));
    assert(Seq::<u8>::empty() + bytes =~= bytes);
}

/// **Round trip, zlib.** The zlib stream of the stored blocks of a byte
/// string decodes to the byte string.
#[verifier::rlimit(40)]
pub proof fn zlib_stored_blocks_round_trip(bytes: Seq<u8>)
    ensures
        zlib_decoded(zlib_stored_blocks(bytes)) == Ok::<Seq<u8>, ZlibDecodeErrors>(bytes),
{
    let data = zlib_stored_blocks(bytes);
    let inner = stored_blocks(bytes);
    let sum = adler32(bytes);
    assert(inflated(inner) == Ok::<Seq<u8>, ZlibDecodeErrors>(bytes)) by {
        stored_blocks_round_trip(bytes);
    }
    assert(sum < 0x1_0000_0000) by {
        lemma_adler_bounds(bytes);
    }
    assert(data.len() == inner.len() + 6);
    assert(data[0] == 0x78 && data[1] == 0x01);
    assert(zlib_header_ok(0x78, 0x01));
    assert(data.subrange(2, data.len() - 4) =~= inner);
    assert(data.subrange(data.len() - 4, data.len() as int) =~= be_bytes(sum));
    assert(be32(be_bytes(sum)) == sum);
}

} // verus!
