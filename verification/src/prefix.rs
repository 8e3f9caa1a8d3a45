//! Truncated streams.
//!
//! A stream that is cut short never looks corrupt and never decodes to
//! something else: whatever the grammar finds in the part that is left, it
//! finds in the whole stream too, and where it needs a bit that was cut off
//! the answer is `InsufficientData`.
use vstd::prelude::*;
use vstd::arithmetic::power2::{pow2, lemma2_to64};
use vstd::arithmetic::div_mod::{lemma_hoist_over_denominator, lemma_mod_multiples_vanish};
use vstd::arithmetic::mul::{lemma_mul_is_associative, lemma_mul_is_commutative};
use crate::bits::lemma_pow2_split;
use crate::bitstream::{
    le_value, lemma_stream_bits_split, round_up_to_byte, stream_bits, total_bits,
};
use crate::entries::{length_base, length_extra_bits, offset_base, offset_extra_bits};
use crate::errors::ZlibDecodeErrors;
use crate::grammar::{
    block_codes, dynamic_litlen_count, dynamic_offset_count, dynamic_precode_count,
    inflate_block_body, inflate_blocks, inflate_code_lengths, inflate_stored, inflate_symbols,
    inflated, lemma_block_body_advances, lemma_huffman_decode_len, lz_copy, precode_lens,
    repeated, zlib_decoded,
};
use crate::header::lemma_fixed_codes_valid;
use crate::huffman::{code_is_valid, huffman_decode, lemma_huffman_decode_agree};

verus! {

/// `part` is what is left of `whole` after it was cut short.
pub open spec fn is_prefix(part: Seq<u8>, whole: Seq<u8>) -> bool {
    part.len() <= whole.len() && part == whole.take(part.len() as int)
}

/// The result on the part stands for the whole, unless the part ran out of
/// input.
pub open spec fn carries_over<T>(part: Result<T, ZlibDecodeErrors>, whole: Result<T, ZlibDecodeErrors>) -> bool {
    part != Err::<T, ZlibDecodeErrors>(ZlibDecodeErrors::InsufficientData) ==> whole == part
}

/// The number that a byte string is splits at every byte boundary.
pub proof fn lemma_le_value_split(data: Seq<u8>, k: nat)
    requires
        k <= data.len(),
    ensures
        le_value(data) == le_value(data.take(k as int)) + pow2(8 * k) * le_value(
            data.skip(k as int),
        ),
    decreases k,
{
    lemma2_to64();
    if k == 0 {
        assert(data.take(0).len() == 0);
        assert(data.skip(0) =~= data);
        assert(pow2(8 * k) == 1);
    } else {
        let rest = data.drop_first();
        let j = (k - 1) as nat;
        let front = data.take(k as int);
        lemma_le_value_split(rest, j);
        assert(front.drop_first() =~= rest.take(j as int));
        assert(data.skip(k as int) =~= rest.skip(j as int));
        lemma_pow2_split(8, 8 * j);
        assert(8 + 8 * j == 8 * k);
        let a = le_value(rest.take(j as int));
        let r = le_value(rest.skip(j as int));
        let p = pow2(8 * j);
        assert(le_value(data) == data[0] as nat + 256 * le_value(rest));
        assert(le_value(front) == front[0] as nat + 256 * le_value(front.drop_first()));
        assert(front[0] == data[0]);
        assert(le_value(rest) == a + p * r);
        assert(pow2(8 * k) == 256 * p);
        assert(256 * (p * r) == (256 * p) * r) by {
            lemma_mul_is_associative(256, p as int, r as int);
        }
    }
}

/// The bits that lie inside the part are the bits of the whole.
pub proof fn lemma_prefix_bits(part: Seq<u8>, whole: Seq<u8>, pos: nat, n: nat)
    requires
        is_prefix(part, whole),
        pos + n <= total_bits(part),
    ensures
        stream_bits(part, pos, n) == stream_bits(whole, pos, n),
{
    reveal(stream_bits);
    let k = part.len();
    let d = (8 * k - pos - n) as nat;
    let r = le_value(whole.skip(k as int));
    lemma_le_value_split(whole, k);
    lemma_pow2_split(pos, n + d);
    lemma_pow2_split(n, d);
    assert(pos + (n + d) == 8 * k);
    let m = pow2(d) * r;
    // the rest of the whole is a multiple of 2^pos * 2^n
    assert(pow2(8 * k) * r == (pow2(n) * m) * pow2(pos)) by {
        lemma_mul_is_associative(pow2(pos) as int, pow2(n + d) as int, r as int);
        lemma_mul_is_associative(pow2(n) as int, pow2(d) as int, r as int);
        lemma_mul_is_commutative(pow2(pos) as int, (pow2(n) * m) as int);
    }
    lemma_hoist_over_denominator(le_value(part) as int, (pow2(n) * m) as int, pow2(pos));
    let x = le_value(part) / pow2(pos);
    lemma_mod_multiples_vanish(m as int, x as int, pow2(n) as int);
}

/// A symbol whose codeword lies inside the part is the symbol of the whole.
pub proof fn lemma_prefix_symbol(part: Seq<u8>, whole: Seq<u8>, pos: nat, lens: Seq<u8>)
    requires
        is_prefix(part, whole),
        code_is_valid(lens),
        pos + huffman_decode(lens, stream_bits(part, pos, 15)).1 <= total_bits(part),
    ensures
        huffman_decode(lens, stream_bits(whole, pos, 15)) == huffman_decode(
            lens,
            stream_bits(part, pos, 15),
        ),
{
    let wp = stream_bits(part, pos, 15);
    let ww = stream_bits(whole, pos, 15);
    let l = huffman_decode(lens, wp).1;
    lemma_huffman_decode_len(lens, wp);
    lemma_stream_bits_split(part, pos, l, (15 - l) as nat);
    lemma_stream_bits_split(whole, pos, l, (15 - l) as nat);
    assert(l + (15 - l) as nat == 15);
    lemma_prefix_bits(part, whole, pos, l);
    lemma_huffman_decode_agree(lens, wp, ww, l);
}

/// What the symbols of a block are in the part, they are in the whole.
#[verifier::rlimit(40)]
pub proof fn lemma_prefix_symbols(
    part: Seq<u8>,
    whole: Seq<u8>,
    pos: nat,
    ll: Seq<u8>,
    dl: Seq<u8>,
    out: Seq<u8>,
)
    requires
        is_prefix(part, whole),
        code_is_valid(ll),
        code_is_valid(dl),
    ensures
        carries_over(
            inflate_symbols(part, pos, ll, dl, out),
            inflate_symbols(whole, pos, ll, dl, out),
        ),
    decreases total_bits(part) - pos,
{
    let total = total_bits(part);
    let sym = huffman_decode(ll, stream_bits(part, pos, 15)).0;
    let l = huffman_decode(ll, stream_bits(part, pos, 15)).1;
    lemma_huffman_decode_len(ll, stream_bits(part, pos, 15));
    if pos + l <= total {
        lemma_prefix_symbol(part, whole, pos, ll);
        if sym < 256 {
            lemma_prefix_symbols(part, whole, pos + l, ll, dl, out.push(sym as u8));
        } else if sym == 256 {
        } else {
            let xb = length_extra_bits((sym - 257) as nat);
            let pos2 = pos + l + xb;
            let ds = huffman_decode(dl, stream_bits(part, pos2, 15)).0;
            let dlen = huffman_decode(dl, stream_bits(part, pos2, 15)).1;
            let dxb = offset_extra_bits(ds);
            if pos2 <= total && sym < 286 && pos2 + dlen + dxb <= total {
                lemma_prefix_bits(part, whole, pos + l, xb);
                lemma_prefix_symbol(part, whole, pos2, dl);
                lemma_prefix_bits(part, whole, pos2 + dlen, dxb);
                if ds < 30 {
                    let length = length_base((sym - 257) as nat) + stream_bits(part, pos + l, xb);
                    let offset = offset_base(ds) + stream_bits(part, pos2 + dlen, dxb);
                    if offset <= out.len() {
                        lemma_prefix_symbols(
                            part,
                            whole,
                            pos2 + dlen + dxb,
                            ll,
                            dl,
                            lz_copy(out, offset, length),
                        );
                    }
                }
            }
        }
    }
}

/// What the code lengths of a dynamic block are in the part, they are in
/// the whole.
#[verifier::rlimit(40)]
pub proof fn lemma_prefix_code_lengths(
    part: Seq<u8>,
    whole: Seq<u8>,
    pos: nat,
    pl: Seq<u8>,
    n: nat,
    acc: Seq<u8>,
)
    requires
        is_prefix(part, whole),
        code_is_valid(pl),
    ensures
        carries_over(
            inflate_code_lengths(part, pos, pl, n, acc),
            inflate_code_lengths(whole, pos, pl, n, acc),
        ),
    decreases n - acc.len(),
{
    let total = total_bits(part);
    let sym = huffman_decode(pl, stream_bits(part, pos, 15)).0;
    let l = huffman_decode(pl, stream_bits(part, pos, 15)).1;
    if acc.len() >= n {
    } else if pos + l > total {
    } else {
        lemma_prefix_symbol(part, whole, pos, pl);
        if sym < 16 {
            lemma_prefix_code_lengths(part, whole, pos + l, pl, n, acc.push(sym as u8));
        } else if sym == 16 {
            let rep = 3 + stream_bits(part, pos + l, 2);
            if acc.len() != 0 && pos + l + 2 <= total {
                lemma_prefix_bits(part, whole, pos + l, 2);
                if acc.len() + rep <= n {
                    lemma_prefix_code_lengths(
                        part,
                        whole,
                        pos + l + 2,
                        pl,
                        n,
                        acc + repeated(acc.last(), rep),
                    );
                }
            }
        } else if sym == 17 {
            let rep = 3 + stream_bits(part, pos + l, 3);
            if pos + l + 3 <= total {
                lemma_prefix_bits(part, whole, pos + l, 3);
                if acc.len() + rep <= n {
                    lemma_prefix_code_lengths(
                        part,
                        whole,
                        pos + l + 3,
                        pl,
                        n,
                        acc + repeated(0, rep),
                    );
                }
            }
        } else {
            let rep = 11 + stream_bits(part, pos + l, 7);
            if pos + l + 7 <= total {
                lemma_prefix_bits(part, whole, pos + l, 7);
                if acc.len() + rep <= n {
                    lemma_prefix_code_lengths(
                        part,
                        whole,
                        pos + l + 7,
                        pl,
                        n,
                        acc + repeated(0, rep),
                    );
                }
            }
        }
    }
}

/// The lengths of the precode that lie inside the part are those of the
/// whole.
pub proof fn lemma_prefix_precode_lens(part: Seq<u8>, whole: Seq<u8>, pos: nat, n: nat)
    requires
        is_prefix(part, whole),
        pos + 3 * n <= total_bits(part),
    ensures
        precode_lens(part, pos, n) == precode_lens(whole, pos, n),
    decreases n,
{
    if n > 0 {
        lemma_prefix_precode_lens(part, whole, pos, (n - 1) as nat);
        lemma_prefix_bits(part, whole, (pos + 3 * (n - 1)) as nat, 3);
    }
}

/// What the codes of a block are in the part, they are in the whole.
#[verifier::rlimit(40)]
pub proof fn lemma_prefix_block_codes(part: Seq<u8>, whole: Seq<u8>, pos: nat, btype: nat)
    requires
        is_prefix(part, whole),
    ensures
        carries_over(block_codes(part, pos, btype), block_codes(whole, pos, btype)),
        block_codes(part, pos, btype) is Ok ==> code_is_valid(
            block_codes(part, pos, btype).unwrap().0,
        ) && code_is_valid(block_codes(part, pos, btype).unwrap().1),
{
    lemma_fixed_codes_valid();
    if btype != 1 {
        let total = total_bits(part);
        if pos + 14 <= total {
            lemma_prefix_bits(part, whole, pos, 5);
            lemma_prefix_bits(part, whole, pos + 5, 5);
            lemma_prefix_bits(part, whole, pos + 10, 4);
            let hlit = dynamic_litlen_count(part, pos);
            let hdist = dynamic_offset_count(part, pos);
            let hclen = dynamic_precode_count(part, pos);
            if pos + 14 + 3 * hclen <= total {
                lemma_prefix_precode_lens(part, whole, pos + 14, hclen);
                let pl = precode_lens(part, pos + 14, hclen);
                if code_is_valid(pl) {
                    lemma_prefix_code_lengths(
                        part,
                        whole,
                        pos + 14 + 3 * hclen,
                        pl,
                        hlit + hdist,
                        Seq::empty(),
                    );
                }
            }
        }
    }
}

/// What a stored block is in the part, it is in the whole.
pub proof fn lemma_prefix_stored(part: Seq<u8>, whole: Seq<u8>, pos: nat, out: Seq<u8>)
    requires
        is_prefix(part, whole),
    ensures
        carries_over(inflate_stored(part, pos, out), inflate_stored(whole, pos, out)),
{
    let p = round_up_to_byte(pos);
    if p + 32 <= total_bits(part) {
        lemma_prefix_bits(part, whole, p, 16);
        lemma_prefix_bits(part, whole, p + 16, 16);
        let len = stream_bits(part, p, 16);
        let start = p / 8 + 4;
        if start + len <= part.len() {
            assert(part.subrange(start as int, (start + len) as int) =~= whole.subrange(
                start as int,
                (start + len) as int,
            ));
        }
    }
}

/// What a block is in the part, it is in the whole.
pub proof fn lemma_prefix_block_body(
    part: Seq<u8>,
    whole: Seq<u8>,
    pos: nat,
    btype: nat,
    out: Seq<u8>,
)
    requires
        is_prefix(part, whole),
    ensures
        carries_over(
            inflate_block_body(part, pos, btype, out),
            inflate_block_body(whole, pos, btype, out),
        ),
{
    if btype == 0 {
        lemma_prefix_stored(part, whole, pos, out);
    } else if btype == 3 {
    } else {
        lemma_prefix_block_codes(part, whole, pos, btype);
        match block_codes(part, pos, btype) {
            Err(e) => {},
            Ok((ll, dl, pos2)) => {
                lemma_prefix_symbols(part, whole, pos2, ll, dl, out);
            },
        }
    }
}

/// What the blocks of a stream are in the part, they are in the whole.
#[verifier::rlimit(40)]
pub proof fn lemma_prefix_blocks(part: Seq<u8>, whole: Seq<u8>, pos: nat, out: Seq<u8>)
    requires
        is_prefix(part, whole),
    ensures
        carries_over(inflate_blocks(part, pos, out), inflate_blocks(whole, pos, out)),
    decreases total_bits(part) - pos,
{
    if pos + 3 <= total_bits(part) {
        lemma_prefix_bits(part, whole, pos, 1);
        lemma_prefix_bits(part, whole, pos + 1, 2);
        let bfinal = stream_bits(part, pos, 1);
        let btype = stream_bits(part, pos + 1, 2);
        lemma_prefix_block_body(part, whole, pos + 3, btype, out);
        match inflate_block_body(part, pos + 3, btype, out) {
            Err(e) => {},
            Ok((out2, pos2)) => {
                if bfinal != 1 {
                    lemma_block_body_advances(part, pos + 3, btype, out);
                    lemma_prefix_blocks(part, whole, pos2, out2);
                }
            },
        }
    }
}

/// A stream that decodes ends inside its input.
pub proof fn lemma_blocks_end_inside(data: Seq<u8>, pos: nat, out: Seq<u8>)
    requires
        pos <= total_bits(data),
    ensures
        inflate_blocks(data, pos, out) is Ok ==> inflate_blocks(data, pos, out).unwrap().1
            <= total_bits(data),
    decreases total_bits(data) - pos,
{
    if pos + 3 <= total_bits(data) {
        let bfinal = stream_bits(data, pos, 1);
        let btype = stream_bits(data, pos + 1, 2);
        lemma_block_body_advances(data, pos + 3, btype, out);
        match inflate_block_body(data, pos + 3, btype, out) {
            Err(e) => {},
            Ok((out2, pos2)) => {
                if bfinal != 1 {
                    lemma_blocks_end_inside(data, pos2, out2);
                }
            },
        }
    }
}

/// The DEFLATE stream decodes and its last block ends in its last byte.
pub open spec fn ends_in_last_byte(stream: Seq<u8>) -> bool {
    &&& inflate_blocks(stream, 0, Seq::empty()) is Ok
    &&& inflate_blocks(stream, 0, Seq::empty()).unwrap().1 + 8 > total_bits(stream)
}

/// **Bounds for raw DEFLATE.** Every strict prefix of a DEFLATE stream
/// that decodes and ends in its last byte is `InsufficientData`: it neither
/// decodes nor looks corrupt.
pub proof fn truncated_deflate_is_insufficient(stream: Seq<u8>, cut: nat)
    requires
        ends_in_last_byte(stream),
        cut < stream.len(),
    ensures
        inflated(stream.take(cut as int)) == Err::<Seq<u8>, ZlibDecodeErrors>(
            ZlibDecodeErrors::InsufficientData,
        ),
{
    let part = stream.take(cut as int);
    assert(is_prefix(part, stream));
    lemma_prefix_blocks(part, stream, 0, Seq::empty());
    lemma_blocks_end_inside(part, 0, Seq::empty());
}

/// **Bounds for zlib.** Every strict prefix of a zlib stream that decodes,
/// and whose DEFLATE stream ends in the byte before the trailer, is
/// `InsufficientData`.
pub proof fn truncated_zlib_is_insufficient(stream: Seq<u8>, cut: nat)
    requires
        zlib_decoded(stream) is Ok,
        ends_in_last_byte(stream.subrange(2, stream.len() - 4)),
        cut < stream.len(),
    ensures
        zlib_decoded(stream.take(cut as int)) == Err::<Seq<u8>, ZlibDecodeErrors>(
            ZlibDecodeErrors::InsufficientData,
        ),
{
    let part = stream.take(cut as int);
    if cut >= 6 {
        let inner = stream.subrange(2, stream.len() - 4);
        assert(part.subrange(2, part.len() - 4) =~= inner.take(cut - 6));
        truncated_deflate_is_insufficient(inner, (cut - 6) as nat);
    }
}

} // verus!
