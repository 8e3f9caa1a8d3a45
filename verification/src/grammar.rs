//! The DEFLATE and zlib stream formats as functions on byte strings.
//!
//! Each function reads the stream `data` from a bit position and says what
//! a decoder must produce: the output so far and the position behind what
//! was read, or the error. A read beyond the end of the input is
//! `InsufficientData`; it is tested before the bits read are interpreted.
use vstd::prelude::*;
use crate::adler::adler32;
use crate::bitstream::{round_up_to_byte, stream_bits, total_bits};
use crate::entries::{length_base, length_extra_bits, offset_base, offset_extra_bits};
use crate::errors::ZlibDecodeErrors;
use crate::huffman::{code_is_valid, huffman_decode, is_single_code, lemma_decode_from_range};

verus! {

/// The output and the bit position behind what was read, or the error.
pub type Parsed = Result<(Seq<u8>, nat), ZlibDecodeErrors>;

/// The output after a match of `length` bytes at distance `offset` was
/// appended: byte after byte, each the byte `offset` places before the end.
pub open spec fn lz_copy(out: Seq<u8>, offset: nat, length: nat) -> Seq<u8>
    decreases length,
{
    if length == 0 {
        out
    } else {
        let prev = lz_copy(out, offset, (length - 1) as nat);
        prev.push(prev[prev.len() - offset])
    }
}

/// The codeword lengths of the fixed literal/length code.
pub open spec fn fixed_litlen_lens() -> Seq<u8> {
    Seq::new(
        288,
        |i: int|
            if i < 144 {
                8u8
            } else if i < 256 {
                9u8
            } else if i < 280 {
                7u8
            } else {
                8u8
            },
    )
}

/// The codeword lengths of the fixed offset code.
pub open spec fn fixed_offset_lens() -> Seq<u8> {
    Seq::new(32, |i: int| 5u8)
}

/// A decoded codeword has at least one bit and at most fifteen.
pub proof fn lemma_huffman_decode_len(lens: Seq<u8>, w: nat)
    ensures
        1 <= huffman_decode(lens, w).1 <= 15,
{
    reveal(huffman_decode);
    if !is_single_code(lens) {
        lemma_decode_from_range(lens, w, 1);
    }
}

/// The literals and matches of one block, up to its end-of-block symbol.
///
/// `ll` and `dl` are the codeword lengths of the literal/length code and of
/// the offset code.
pub open spec fn inflate_symbols(data: Seq<u8>, pos: nat, ll: Seq<u8>, dl: Seq<u8>, out: Seq<u8>) -> Parsed
    decreases total_bits(data) - pos,
{
    let total = total_bits(data);
    let sym = huffman_decode(ll, stream_bits(data, pos, 15)).0;
    let l = huffman_decode(ll, stream_bits(data, pos, 15)).1;
    if sym < 256 {
        if pos + l > total {
            Err(ZlibDecodeErrors::InsufficientData)
        } else {
            proof {
                lemma_huffman_decode_len(ll, stream_bits(data, pos, 15));
            }
            inflate_symbols(data, pos + l, ll, dl, out.push(sym as u8))
        }
    } else if sym == 256 {
        if pos + l > total {
            Err(ZlibDecodeErrors::InsufficientData)
        } else {
            Ok((out, pos + l))
        }
    } else {
        let xb = length_extra_bits((sym - 257) as nat);
        let pos2 = pos + l + xb;
        let ds = huffman_decode(dl, stream_bits(data, pos2, 15)).0;
        let dlen = huffman_decode(dl, stream_bits(data, pos2, 15)).1;
        let dxb = offset_extra_bits(ds);
        if pos2 > total {
            Err(ZlibDecodeErrors::InsufficientData)
        } else if sym >= 286 {
            Err(ZlibDecodeErrors::CorruptData)
        } else if pos2 + dlen + dxb > total {
            Err(ZlibDecodeErrors::InsufficientData)
        } else if ds >= 30 {
            Err(ZlibDecodeErrors::CorruptData)
        } else {
            let length = length_base((sym - 257) as nat) + stream_bits(data, pos + l, xb);
            let offset = offset_base(ds) + stream_bits(data, pos2 + dlen, dxb);
            if offset > out.len() {
                Err(ZlibDecodeErrors::CorruptData)
            } else {
                proof {
                    lemma_huffman_decode_len(ll, stream_bits(data, pos, 15));
                }
                inflate_symbols(data, pos2 + dlen + dxb, ll, dl, lz_copy(out, offset, length))
            }
        }
    }
}

/// The precode symbol whose length is transmitted `k`-th.
pub open spec fn precode_order(k: nat) -> int {
    if k == 0 {
        16
    } else if k == 1 {
        17
    } else if k == 2 {
        18
    } else if k == 3 {
        0
    } else if k == 4 {
        8
    } else if k == 5 {
        7
    } else if k == 6 {
        9
    } else if k == 7 {
        6
    } else if k == 8 {
        10
    } else if k == 9 {
        5
    } else if k == 10 {
        11
    } else if k == 11 {
        4
    } else if k == 12 {
        12
    } else if k == 13 {
        3
    } else if k == 14 {
        13
    } else if k == 15 {
        2
    } else if k == 16 {
        14
    } else if k == 17 {
        1
    } else {
        15
    }
}

/// The codeword lengths of the precode after the first `n` three-bit
/// lengths were read; the symbols not reached have length zero.
pub open spec fn precode_lens(data: Seq<u8>, pos: nat, n: nat) -> Seq<u8>
    decreases n,
{
    if n == 0 {
        Seq::new(19, |i: int| 0u8)
    } else {
        precode_lens(data, pos, (n - 1) as nat).update(
            precode_order((n - 1) as nat),
            stream_bits(data, (pos + 3 * (n - 1)) as nat, 3) as u8,
        )
    }
}

/// `count` copies of `value`.
pub open spec fn repeated(value: u8, count: nat) -> Seq<u8> {
    Seq::new(count, |i: int| value)
}

/// The codeword lengths of both codes of a dynamic block, decoded with the
/// precode `pl` until `n` lengths are known. `acc` holds those known so
/// far.
pub open spec fn inflate_code_lengths(data: Seq<u8>, pos: nat, pl: Seq<u8>, n: nat, acc: Seq<u8>) -> Parsed
    decreases n - acc.len(),
{
    let total = total_bits(data);
    let sym = huffman_decode(pl, stream_bits(data, pos, 15)).0;
    let l = huffman_decode(pl, stream_bits(data, pos, 15)).1;
    if acc.len() >= n {
        Ok((acc, pos))
    } else if pos + l > total {
        Err(ZlibDecodeErrors::InsufficientData)
    } else if sym < 16 {
        inflate_code_lengths(data, pos + l, pl, n, acc.push(sym as u8))
    } else if sym == 16 {
        let rep = 3 + stream_bits(data, pos + l, 2);
        if acc.len() == 0 {
            Err(ZlibDecodeErrors::CorruptData)
        } else if pos + l + 2 > total {
            Err(ZlibDecodeErrors::InsufficientData)
        } else if acc.len() + rep > n {
            Err(ZlibDecodeErrors::CorruptData)
        } else {
            inflate_code_lengths(data, pos + l + 2, pl, n, acc + repeated(acc.last(), rep))
        }
    } else if sym == 17 {
        let rep = 3 + stream_bits(data, pos + l, 3);
        if pos + l + 3 > total {
            Err(ZlibDecodeErrors::InsufficientData)
        } else if acc.len() + rep > n {
            Err(ZlibDecodeErrors::CorruptData)
        } else {
            inflate_code_lengths(data, pos + l + 3, pl, n, acc + repeated(0, rep))
        }
    } else {
        let rep = 11 + stream_bits(data, pos + l, 7);
        if pos + l + 7 > total {
            Err(ZlibDecodeErrors::InsufficientData)
        } else if acc.len() + rep > n {
            Err(ZlibDecodeErrors::CorruptData)
        } else {
            inflate_code_lengths(data, pos + l + 7, pl, n, acc + repeated(0, rep))
        }
    }
}

/// The two codes of a block and the position behind the block header.
pub type Codes = Result<(Seq<u8>, Seq<u8>, nat), ZlibDecodeErrors>;

/// The number of literal/length symbols a dynamic block announces.
pub open spec fn dynamic_litlen_count(data: Seq<u8>, pos: nat) -> nat {
    257 + stream_bits(data, pos, 5)
}

/// The number of offset symbols a dynamic block announces.
pub open spec fn dynamic_offset_count(data: Seq<u8>, pos: nat) -> nat {
    1 + stream_bits(data, pos + 5, 5)
}

/// The number of precode lengths a dynamic block transmits.
pub open spec fn dynamic_precode_count(data: Seq<u8>, pos: nat) -> nat {
    4 + stream_bits(data, pos + 10, 4)
}

/// The codeword lengths that the header of a dynamic block transmits, those
/// of the literal/length code first: the three counts, the precode, and
/// the lengths decoded with the precode.
pub open spec fn dynamic_code_lengths(data: Seq<u8>, pos: nat) -> Parsed {
    let total = total_bits(data);
    let hlit = dynamic_litlen_count(data, pos);
    let hdist = dynamic_offset_count(data, pos);
    let hclen = dynamic_precode_count(data, pos);
    let pl = precode_lens(data, pos + 14, hclen);
    if pos + 14 > total {
        Err(ZlibDecodeErrors::InsufficientData)
    } else if pos + 14 + 3 * hclen > total {
        Err(ZlibDecodeErrors::InsufficientData)
    } else if !code_is_valid(pl) {
        Err(ZlibDecodeErrors::CorruptData)
    } else {
        inflate_code_lengths(data, pos + 14 + 3 * hclen, pl, hlit + hdist, Seq::empty())
    }
}

/// The header of a dynamic block: the codeword lengths it transmits, as
/// the two codes they make up.
pub open spec fn dynamic_header(data: Seq<u8>, pos: nat) -> Codes {
    let hlit = dynamic_litlen_count(data, pos);
    let hdist = dynamic_offset_count(data, pos);
    match dynamic_code_lengths(data, pos) {
        Err(e) => Err(e),
        Ok((lens, pos2)) => {
            let ll = lens.take(hlit as int);
            let dl = lens.subrange(hlit as int, (hlit + hdist) as int);
            if !code_is_valid(dl) || !code_is_valid(ll) {
                Err(ZlibDecodeErrors::CorruptData)
            } else {
                Ok((ll, dl, pos2))
            }
        },
    }
}

/// The codes of a compressed block of type `btype`: the fixed ones for
/// type 1, those of the header for type 2.
pub open spec fn block_codes(data: Seq<u8>, pos: nat, btype: nat) -> Codes {
    if btype == 1 {
        Ok((fixed_litlen_lens(), fixed_offset_lens(), pos))
    } else {
        dynamic_header(data, pos)
    }
}

/// A stored block: after the next byte boundary come `LEN`, its complement
/// `NLEN`, and `LEN` bytes that are copied to the output.
pub open spec fn inflate_stored(data: Seq<u8>, pos: nat, out: Seq<u8>) -> Parsed {
    let p = round_up_to_byte(pos);
    let len = stream_bits(data, p, 16);
    let nlen = stream_bits(data, p + 16, 16);
    let start = p / 8 + 4;
    if p + 32 > total_bits(data) {
        Err(ZlibDecodeErrors::InsufficientData)
    } else if len + nlen != 65535 {
        Err(ZlibDecodeErrors::CorruptData)
    } else if start + len > data.len() {
        Err(ZlibDecodeErrors::InsufficientData)
    } else {
        Ok((out + data.subrange(start as int, (start + len) as int), 8 * (start + len)))
    }
}

/// What follows the three header bits of a block of type `btype`.
pub open spec fn inflate_block_body(data: Seq<u8>, pos: nat, btype: nat, out: Seq<u8>) -> Parsed {
    if btype == 0 {
        inflate_stored(data, pos, out)
    } else if btype == 3 {
        Err(ZlibDecodeErrors::CorruptData)
    } else {
        match block_codes(data, pos, btype) {
            Err(e) => Err(e),
            Ok((ll, dl, pos2)) => inflate_symbols(data, pos2, ll, dl, out),
        }
    }
}

/// The blocks of a stream, up to and including the one marked final.
pub open spec fn inflate_blocks(data: Seq<u8>, pos: nat, out: Seq<u8>) -> Parsed
    decreases total_bits(data) - pos,
{
    let bfinal = stream_bits(data, pos, 1);
    let btype = stream_bits(data, pos + 1, 2);
    if pos + 3 > total_bits(data) {
        Err(ZlibDecodeErrors::InsufficientData)
    } else {
        match inflate_block_body(data, pos + 3, btype, out) {
            Err(e) => Err(e),
            Ok((out2, pos2)) => {
                if bfinal == 1 {
                    Ok((out2, pos2))
                } else {
                    proof {
                        lemma_block_body_advances(data, pos + 3, btype, out);
                    }
                    inflate_blocks(data, pos2, out2)
                }
            },
        }
    }
}

/// The symbols of a block end behind where they began, inside the input.
pub proof fn lemma_symbols_advance(data: Seq<u8>, pos: nat, ll: Seq<u8>, dl: Seq<u8>, out: Seq<u8>)
    ensures
        inflate_symbols(data, pos, ll, dl, out) is Ok ==> pos < inflate_symbols(
            data,
            pos,
            ll,
            dl,
            out,
        ).unwrap().1 <= total_bits(data),
    decreases total_bits(data) - pos,
{
    let total = total_bits(data);
    let sym = huffman_decode(ll, stream_bits(data, pos, 15)).0;
    let l = huffman_decode(ll, stream_bits(data, pos, 15)).1;
    lemma_huffman_decode_len(ll, stream_bits(data, pos, 15));
    if sym < 256 {
        if pos + l <= total {
            lemma_symbols_advance(data, pos + l, ll, dl, out.push(sym as u8));
        }
    } else if sym == 256 {
    } else {
        let xb = length_extra_bits((sym - 257) as nat);
        let pos2 = pos + l + xb;
        let ds = huffman_decode(dl, stream_bits(data, pos2, 15)).0;
        let dlen = huffman_decode(dl, stream_bits(data, pos2, 15)).1;
        let dxb = offset_extra_bits(ds);
        if pos2 <= total && sym < 286 && pos2 + dlen + dxb <= total && ds < 30 {
            let length = length_base((sym - 257) as nat) + stream_bits(data, pos + l, xb);
            let offset = offset_base(ds) + stream_bits(data, pos2 + dlen, dxb);
            if offset <= out.len() {
                lemma_symbols_advance(data, pos2 + dlen + dxb, ll, dl, lz_copy(out, offset, length));
            }
        }
    }
}

/// The code lengths of a dynamic block end inside the input, not before
/// where they began, and there are exactly as many as were asked for.
pub proof fn lemma_code_lengths_advance(data: Seq<u8>, pos: nat, pl: Seq<u8>, n: nat, acc: Seq<u8>)
    requires
        pos <= total_bits(data),
        acc.len() <= n,
    ensures
        inflate_code_lengths(data, pos, pl, n, acc) is Ok ==> pos <= inflate_code_lengths(
            data,
            pos,
            pl,
            n,
            acc,
        ).unwrap().1 <= total_bits(data) && inflate_code_lengths(data, pos, pl, n, acc).unwrap().0.len()
            == n,
    decreases n - acc.len(),
{
    let total = total_bits(data);
    let sym = huffman_decode(pl, stream_bits(data, pos, 15)).0;
    let l = huffman_decode(pl, stream_bits(data, pos, 15)).1;
    if acc.len() >= n {
    } else if pos + l > total {
    } else if sym < 16 {
        lemma_code_lengths_advance(data, pos + l, pl, n, acc.push(sym as u8));
    } else if sym == 16 {
        let rep = 3 + stream_bits(data, pos + l, 2);
        if acc.len() != 0 && pos + l + 2 <= total && acc.len() + rep <= n {
            lemma_code_lengths_advance(data, pos + l + 2, pl, n, acc + repeated(acc.last(), rep));
        }
    } else if sym == 17 {
        let rep = 3 + stream_bits(data, pos + l, 3);
        if pos + l + 3 <= total && acc.len() + rep <= n {
            lemma_code_lengths_advance(data, pos + l + 3, pl, n, acc + repeated(0, rep));
        }
    } else {
        let rep = 11 + stream_bits(data, pos + l, 7);
        if pos + l + 7 <= total && acc.len() + rep <= n {
            lemma_code_lengths_advance(data, pos + l + 7, pl, n, acc + repeated(0, rep));
        }
    }
}

/// The codes of a block are read from inside the input, forwards.
pub proof fn lemma_block_codes_advance(data: Seq<u8>, pos: nat, btype: nat)
    requires
        pos <= total_bits(data),
    ensures
        block_codes(data, pos, btype) is Ok ==> pos <= block_codes(data, pos, btype).unwrap().2
            <= total_bits(data),
{
    if btype != 1 {
        let hclen = dynamic_precode_count(data, pos);
        let hlit = dynamic_litlen_count(data, pos);
        let hdist = dynamic_offset_count(data, pos);
        if pos + 14 + 3 * hclen <= total_bits(data) {
            lemma_code_lengths_advance(
                data,
                pos + 14 + 3 * hclen,
                precode_lens(data, pos + 14, hclen),
                hlit + hdist,
                Seq::empty(),
            );
        }
    }
}

/// A block ends behind where its body began, inside the input.
pub proof fn lemma_block_body_advances(data: Seq<u8>, pos: nat, btype: nat, out: Seq<u8>)
    requires
        pos <= total_bits(data),
    ensures
        inflate_block_body(data, pos, btype, out) is Ok ==> pos <= inflate_block_body(
            data,
            pos,
            btype,
            out,
        ).unwrap().1 <= total_bits(data),
{
    if btype == 0 {
    } else if btype == 3 {
    } else {
        match block_codes(data, pos, btype) {
            Err(e) => {},
            Ok((ll, dl, pos2)) => {
                if btype != 1 {
                    let hclen = dynamic_precode_count(data, pos);
                    let hlit = dynamic_litlen_count(data, pos);
                    let hdist = dynamic_offset_count(data, pos);
                    lemma_code_lengths_advance(
                        data,
                        pos + 14 + 3 * hclen,
                        precode_lens(data, pos + 14, hclen),
                        hlit + hdist,
                        Seq::empty(),
                    );
                }
                lemma_symbols_advance(data, pos2, ll, dl, out);
            },
        }
    }
}

/// What a raw DEFLATE stream decodes to.
pub open spec fn inflated(data: Seq<u8>) -> Result<Seq<u8>, ZlibDecodeErrors> {
    match inflate_blocks(data, 0, Seq::empty()) {
        Ok((out, _)) => Ok(out),
        Err(e) => Err(e),
    }
}

/// The zlib header is acceptable: method 8 (deflate), a window of at most
/// 32 KiB, a header check that is a multiple of 31, no preset dictionary.
pub open spec fn zlib_header_ok(cmf: u8, flg: u8) -> bool {
    &&& cmf % 16 == 8
    &&& cmf / 16 <= 7
    &&& (cmf * 256 + flg) % 31 == 0
    &&& (flg / 32) % 2 == 0
}

/// Four bytes as a big-endian number.
pub open spec fn be32(b: Seq<u8>) -> nat {
    (b[0] as nat) * 16777216 + (b[1] as nat) * 65536 + (b[2] as nat) * 256 + (b[3] as nat)
}

/// What a zlib stream decodes to: the DEFLATE stream between the two
/// header bytes and the four trailer bytes, provided that the trailer is
/// the Adler-32 checksum of the output.
pub open spec fn zlib_decoded(data: Seq<u8>) -> Result<Seq<u8>, ZlibDecodeErrors> {
    if data.len() < 6 {
        Err(ZlibDecodeErrors::InsufficientData)
    } else if !zlib_header_ok(data[0], data[1]) {
        Err(ZlibDecodeErrors::HeaderError)
    } else {
        match inflated(data.subrange(2, data.len() - 4)) {
            Err(e) => Err(e),
            Ok(out) => {
                if adler32(out) == be32(data.subrange(data.len() - 4, data.len() as int)) {
                    Ok(out)
                } else {
                    Err(ZlibDecodeErrors::ChecksumMismatch)
                }
            },
        }
    }
}

} // verus!
