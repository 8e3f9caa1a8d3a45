//! Decoding whole streams: the blocks of a DEFLATE stream and the zlib
//! wrapper around them.
use vstd::prelude::*;
use vstd::arithmetic::power2::lemma2_to64;
use vstd::slice::slice_subrange;
use crate::adler::calc_adler_hash;
use crate::bitstream::{stream_bits, total_bits, BitStreamReader};
use crate::decoder::{
    max_input_len, DeflateDecoder, DEFLATE_BLOCKTYPE_RESERVED, DEFLATE_BLOCKTYPE_UNCOMPRESSED,
};
use crate::errors::ZlibDecodeErrors;
use crate::grammar::{
    block_codes, inflate_block_body, inflate_blocks, inflate_stored, inflated,
    lemma_block_body_advances, zlib_decoded, zlib_header_ok,
};
use crate::header::zeroed_lens;
use crate::output::RESIZE_BY;
use crate::symbols::{decode_symbols, OUTPUT_MARGIN};

verus! {

/// The state of a stream that is being decoded: what the grammar yields
/// from here is what it yields for the whole stream.
#[verifier::opaque]
pub open spec fn stream_state(data: Seq<u8>, pos: nat, out: Seq<u8>) -> bool {
    inflate_blocks(data, 0, Seq::empty()) == inflate_blocks(data, pos, out)
}

/// The stream begins in the state it begins in.
pub proof fn lemma_stream_start(data: Seq<u8>)
    ensures
        stream_state(data, 0, Seq::empty()),
{
    reveal(stream_state);
}

/// What the grammar does with the block at `pos`.
pub proof fn lemma_block_step(data: Seq<u8>, pos: nat, out: Seq<u8>)
    requires
        stream_state(data, pos, out),
    ensures
        ({
            let whole = inflate_blocks(data, 0, Seq::empty());
            let bfinal = stream_bits(data, pos, 1);
            let btype = stream_bits(data, pos + 1, 2);
            let body = inflate_block_body(data, pos + 3, btype, out);
            &&& btype < 4
            &&& pos + 3 > total_bits(data) ==> whole == Err::<(Seq<u8>, nat), ZlibDecodeErrors>(
                ZlibDecodeErrors::InsufficientData,
            )
            &&& pos + 3 <= total_bits(data) ==> {
                &&& body is Err ==> whole == body
                &&& (body is Ok && bfinal == 1) ==> whole == body
                &&& (body is Ok && bfinal != 1) ==> stream_state(
                    data,
                    body.unwrap().1,
                    body.unwrap().0,
                )
                &&& body is Ok ==> pos + 3 <= body.unwrap().1 <= total_bits(data)
            }
        }),
{
    reveal(stream_state);
    lemma2_to64();
    crate::bitstream::lemma_stream_bits_bound(data, pos + 1, 2);
    if pos + 3 <= total_bits(data) {
        lemma_block_body_advances(data, pos + 3, stream_bits(data, pos + 1, 2), out);
    }
}

/// Four bytes as a big-endian word.
pub fn read_be32(b0: u8, b1: u8, b2: u8, b3: u8) -> (r: u32)
    ensures
        r as nat == (b0 as nat) * 16777216 + (b1 as nat) * 65536 + (b2 as nat) * 256 + (b3 as nat),
{
    let w0: u32 = b0 as u32;
    let w1: u32 = b1 as u32;
    let w2: u32 = b2 as u32;
    let w3: u32 = b3 as u32;
    proof {
        assert(((w0 << 24) | (w1 << 16) | (w2 << 8) | w3) == w0 * 16777216 + w1 * 65536 + w2 * 256
            + w3) by (bit_vector)
            requires
                w0 < 256,
                w1 < 256,
                w2 < 256,
                w3 < 256,
        ;
    }
    (w0 << 24) | (w1 << 16) | (w2 << 8) | w3
}

/// Whether the two bytes are an acceptable zlib header.
pub fn check_zlib_header(cmf: u8, flg: u8) -> (ok: bool)
    ensures
        ok == zlib_header_ok(cmf, flg),
{
    let cm: u8 = cmf & 0xF;
    let cinfo: u8 = cmf >> 4;
    let fdict: u8 = flg & 0x20;
    proof {
        assert(cmf & 0xF == cmf % 16) by (bit_vector);
        assert(cmf >> 4 == cmf / 16) by (bit_vector);
        assert((flg & 0x20 == 0) == ((flg / 32) % 2 == 0)) by (bit_vector);
    }
    // the compression method must be deflate
    if cm != 8 {
        return false;
    }
    // the window is at most 32 KiB
    if cinfo > 7 {
        return false;
    }
    let flag_checks: u16 = (cmf as u16) * 256 + (flg as u16);
    if flag_checks % 31 != 0 {
        return false;
    }
    // a preset dictionary is not supported
    fdict == 0
}

/// Decodes a stored block behind its three header bits: skips to the byte
/// boundary, reads LEN and its complement NLEN, and copies LEN bytes from
/// the input to `out_block` at `start_offset`.
///
/// Returns the write cursor behind the block.
#[verifier::rlimit(40)]
pub fn copy_stored_block<'a>(
    stream: &mut BitStreamReader<'a>,
    out_block: &mut Vec<u8>,
    start_offset: usize,
) -> (r: Result<usize, ZlibDecodeErrors>)
    requires
        old(stream).wf(),
        old(stream).can_peek(39),
        old(stream).src@.len() <= max_input_len(),
        start_offset <= old(out_block)@.len() <= start_offset + OUTPUT_MARGIN,
        start_offset <= 258 * old(stream).bit_pos(),
    ensures
        final(stream).wf(),
        final(stream).src == old(stream).src,
        match inflate_stored(
            old(stream).src@,
            old(stream).bit_pos(),
            old(out_block)@.take(start_offset as int),
        ) {
            Err(e) => r == Err::<usize, ZlibDecodeErrors>(e),
            Ok((out, pos2)) => {
                &&& r is Ok
                &&& final(stream).bit_pos() == pos2
                &&& final(out_block)@.take(r.unwrap() as int) == out
                &&& r.unwrap() <= final(out_block)@.len() <= r.unwrap() + OUTPUT_MARGIN
                &&& r.unwrap() <= 258 * pos2
            },
        },
{
    let src: &'a [u8] = stream.src;
    let src_len: usize = src.len();
    let ghost data = src@;
    let ghost out = out_block@.take(start_offset as int);
    proof {
        lemma2_to64();
    }
    let partial_bits: u8 = stream.partial_bits();
    if !stream.has(32 + partial_bits) {
        return Err(ZlibDecodeErrors::InsufficientData);
    }
    stream.align_to_byte();
    let len: usize = stream.get_bits(16) as usize;
    let nlen: usize = stream.get_bits(16) as usize;
    if len + nlen != 0xFFFF {
        return Err(ZlibDecodeErrors::CorruptData);
    }
    let start: usize = stream.get_position();
    if len > src_len - start {
        // fewer bytes are left than the block announces
        return Err(ZlibDecodeErrors::InsufficientData);
    }
    if start_offset + len > out_block.len() {
        let ghost grown = out_block@;
        out_block.resize(start_offset + len, 0);
        proof {
            assert(out_block@.subrange(0, grown.len() as int).take(start_offset as int)
                =~= out_block@.take(start_offset as int));
        }
    }
    let size: usize = out_block.len();
    let mut k: usize = 0;
    proof {
        assert(out + data.subrange(start as int, start as int) =~= out);
    }
    while k < len
        invariant
            k <= len,
            start + len <= src_len,
            src_len == data.len(),
            src@ == data,
            size == out_block@.len(),
            start_offset + len <= size,
            out_block@.take(start_offset + k) == out + data.subrange(start as int, start + k),
        decreases len - k,
    {
        let ghost copied = out_block@;
        out_block[start_offset + k] = src[start + k];
        proof {
            assert(out_block@.take(start_offset + k + 1) =~= copied.take(start_offset + k).push(
                data[start + k],
            ));
            assert(out + data.subrange(start as int, start + k + 1) =~= (out + data.subrange(
                start as int,
                start + k,
            )).push(data[start + k]));
        }
        k += 1;
    }
    // the reader goes on behind the copied bytes
    stream.reset(start + len);
    Ok(start_offset + len)
}

impl<'a> DeflateDecoder<'a> {
    /// Decodes zlib-encoded data: checks the two header bytes, decodes the
    /// DEFLATE stream between them and the four trailer bytes, and checks
    /// the trailer against the Adler-32 checksum of the output.
    ///
    /// The result depends on the input alone: bytes that are no zlib
    /// stream give the same error each time they are decoded.
    #[verifier::rlimit(40)]
    pub fn decode_zlib(&mut self) -> (r: Result<Vec<u8>, ZlibDecodeErrors>)
        requires
            old(self).wf(),
            old(self).data@.len() <= max_input_len(),
        ensures
            final(self).wf(),
            final(self).data == old(self).data,
            match zlib_decoded(old(self).data@) {
                Ok(out) => r is Ok && r.unwrap()@ == out,
                Err(e) => r == Err::<Vec<u8>, ZlibDecodeErrors>(e),
            },
            r is Ok ==> r.unwrap()@.len() <= 258 * total_bits(old(self).data@),
    {
        let size: usize = self.data.len();
        // two bytes of header and four of trailer
        if size < 2 + 4 {
            return Err(ZlibDecodeErrors::InsufficientData);
        }
        let cmf: u8 = self.data[0];
        let flg: u8 = self.data[1];
        if !check_zlib_header(cmf, flg) {
            return Err(ZlibDecodeErrors::HeaderError);
        }
        self.position = 2;
        self.end = size - 4;
        let out: Vec<u8> = match self.start_deflate_block() {
            Ok(out) => out,
            Err(e) => {
                return Err(e);
            },
        };
        let adler32_expected: u32 = read_be32(
            self.data[size - 4],
            self.data[size - 3],
            self.data[size - 2],
            self.data[size - 1],
        );
        let adler32_found: u32 = calc_adler_hash(out.as_slice());
        if adler32_expected != adler32_found {
            return Err(ZlibDecodeErrors::ChecksumMismatch);
        }
        Ok(out)
    }

    /// Decodes a raw DEFLATE stream.
    pub fn decode_deflate(&mut self) -> (r: Result<Vec<u8>, ZlibDecodeErrors>)
        requires
            old(self).wf(),
            old(self).data@.len() <= max_input_len(),
        ensures
            final(self).wf(),
            final(self).data == old(self).data,
            match inflated(old(self).data@) {
                Ok(out) => r is Ok && r.unwrap()@ == out,
                Err(e) => r == Err::<Vec<u8>, ZlibDecodeErrors>(e),
            },
            r is Ok ==> r.unwrap()@.len() <= 258 * total_bits(old(self).data@),
    {
        self.position = 0;
        self.end = self.data.len();
        proof {
            assert(self.data@.subrange(0, self.data@.len() as int) =~= self.data@);
        }
        self.start_deflate_block()
    }

    /// Decodes the blocks of the DEFLATE stream that lies between
    /// `position` and `end` of the input, up to and including the block
    /// that is marked as the last one.
    #[verifier::rlimit(40)]
    pub fn start_deflate_block(&mut self) -> (r: Result<Vec<u8>, ZlibDecodeErrors>)
        requires
            old(self).wf(),
            old(self).position <= old(self).end <= old(self).data@.len(),
            old(self).data@.len() <= max_input_len(),
        ensures
            final(self).wf(),
            final(self).data == old(self).data,
            final(self).position == old(self).position,
            final(self).end == old(self).end,
            match inflated(
                old(self).data@.subrange(old(self).position as int, old(self).end as int),
            ) {
                Ok(out) => r is Ok && r.unwrap()@ == out,
                Err(e) => r == Err::<Vec<u8>, ZlibDecodeErrors>(e),
            },
            r is Ok ==> r.unwrap()@.len() <= 258 * total_bits(
                old(self).data@.subrange(old(self).position as int, old(self).end as int),
            ),
    {
        // the reader starts behind what came before the DEFLATE stream
        let src: &'a [u8] = slice_subrange(self.data, self.position, self.end);
        let ghost data = src@;
        let src_len: usize = src.len();
        let mut stream: BitStreamReader<'a> = BitStreamReader::new(src);
        // the output, with room to grow into
        let mut out_block: Vec<u8> = zeroed_lens(RESIZE_BY);
        let mut dest_offset: usize = 0;
        proof {
            lemma_stream_start(data);
            assert(out_block@.take(0) =~= Seq::<u8>::empty());
            lemma2_to64();
        }
        loop
            invariant
                self.wf(),
                self.data == old(self).data,
                self.position == old(self).position,
                self.end == old(self).end,
                stream.wf(),
                stream.src@ == data,
                src@ == data,
                src_len == data.len(),
                data == old(self).data@.subrange(old(self).position as int, old(self).end as int),
                data.len() <= max_input_len(),
                dest_offset <= out_block@.len() <= dest_offset + OUTPUT_MARGIN,
                dest_offset <= 258 * stream.bit_pos(),
                stream_state(data, stream.bit_pos(), out_block@.take(dest_offset as int)),
            decreases total_bits(data) - stream.bit_pos(),
        {
            let ghost pos = stream.bit_pos();
            let ghost out = out_block@.take(dest_offset as int);
            proof {
                lemma_block_step(data, pos, out);
                lemma2_to64();
            }
            stream.refill();
            if !stream.has(3) {
                return Err(ZlibDecodeErrors::InsufficientData);
            }
            self.is_last_block = stream.get_bits(1) == 1;
            let block_type: u64 = stream.get_bits(2);
            let ghost btype = block_type as nat;
            if block_type == DEFLATE_BLOCKTYPE_UNCOMPRESSED {
                dest_offset = match copy_stored_block(
                    &mut stream,
                    &mut out_block,
                    dest_offset,
                ) {
                    Ok(dest) => dest,
                    Err(e) => {
                        return Err(e);
                    },
                };
            } else if block_type == DEFLATE_BLOCKTYPE_RESERVED {
                return Err(ZlibDecodeErrors::CorruptData);
            } else {
                // a compressed block: build the decode tables, then decode the symbols
                let ghost codes = block_codes(data, pos + 3, btype);
                proof {
                    crate::grammar::lemma_block_codes_advance(data, pos + 3, btype);
                }
                self.stream = stream;
                match self.build_decode_table(block_type) {
                    Ok(()) => {},
                    Err(e) => {
                        return Err(e);
                    },
                }
                stream = self.stream;
                dest_offset = match decode_symbols(
                    &mut stream,
                    &self.deflate_header_tables,
                    &mut out_block,
                    dest_offset,
                    Ghost(codes.unwrap().0),
                    Ghost(codes.unwrap().1),
                ) {
                    Ok(dest) => dest,
                    Err(e) => {
                        return Err(e);
                    },
                };
            }
            if self.is_last_block {
                // the output is exactly what was written
                out_block.truncate(dest_offset);
                proof {
                    assert(out_block@ =~= out_block@.take(dest_offset as int));
                }
                return Ok(out_block);
            }
        }
    }
}

} // verus!
