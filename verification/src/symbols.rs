//! The literals and matches of a compressed block.
//!
//! Two loops decode the same grammar. The fast loop runs while plenty of
//! input is left: one refill then provides the bits of a whole symbol, so
//! no single read is checked against the end of the input. The safe loop
//! takes over near the end of the input and checks every read.
use vstd::prelude::*;
use vstd::arithmetic::power2::{pow2, lemma2_to64};
use crate::bitstream::{stream_bits, total_bits, BitStreamReader};
use crate::decoder::{max_input_len, DeflateHeaderTables, LITLEN_TABLE_BITS, OFFSET_TABLEBITS};
use crate::entries::{
    entry_kind, entry_payload, entry_total_bits, is_end_of_block, is_literal, kind_end_of_block,
    kind_literal, kind_match, lemma_litlen_result, lemma_offset_result, length_base,
    length_extra_bits, litlen_result, litlen_results, offset_base, offset_extra_bits,
    offset_result, offset_results, payload_of,
};
use crate::errors::ZlibDecodeErrors;
use crate::grammar::{inflate_symbols, lemma_huffman_decode_len, lz_copy};
use crate::lookup::{
    codeword_len_at, decode_entry, decode_entry_fast, symbol_at, symbol_bits_at,
};
use crate::output::{copy_match, reserve_output, resize_and_push, FASTCOPY};

verus! {

/// How much longer than what was written the output buffer may be: one
/// growth step, the longest match twice and the slack.
pub const OUTPUT_MARGIN: usize = 4096 + 2 * 258 + 16;

/// The length of a match is between 3 and 258.
pub proof fn lemma_length_range(i: nat, extra: nat)
    requires
        i < 29,
        extra < pow2(length_extra_bits(i)),
    ensures
        3 <= length_base(i) + extra <= 258,
{
    lemma2_to64();
}

/// The offset of a match is between 1 and 32768.
pub proof fn lemma_offset_range(i: nat, extra: nat)
    requires
        i < 30,
        extra < pow2(offset_extra_bits(i)),
    ensures
        1 <= offset_base(i) + extra <= 32768,
{
    lemma2_to64();
    let xb = offset_extra_bits(i);
    if xb == 0 {
    } else if xb == 1 {
    } else if xb == 2 {
    } else if xb == 3 {
    } else if xb == 4 {
    } else if xb == 5 {
    } else if xb == 6 {
    } else if xb == 7 {
    } else if xb == 8 {
    } else if xb == 9 {
    } else if xb == 10 {
    } else if xb == 11 {
    } else if xb == 12 {
    } else {
        assert(xb == 13);
    }
}

/// The state of a block that is being decoded: what the grammar yields
/// from here is what it yields from where the block began.
#[verifier::opaque]
pub open spec fn block_state(
    data: Seq<u8>,
    start: nat,
    before: Seq<u8>,
    ll: Seq<u8>,
    dl: Seq<u8>,
    pos: nat,
    out: Seq<u8>,
) -> bool {
    inflate_symbols(data, start, ll, dl, before) == inflate_symbols(data, pos, ll, dl, out)
}

/// The block begins in the state it begins in.
pub proof fn lemma_block_start(data: Seq<u8>, start: nat, before: Seq<u8>, ll: Seq<u8>, dl: Seq<u8>)
    ensures
        block_state(data, start, before, ll, dl, start, before),
{
    reveal(block_state);
}

/// What the grammar does with the literal/length symbol at `pos`: a
/// literal, the end of the block, a reserved symbol or the length of a
/// match.
#[verifier::rlimit(40)]
pub proof fn lemma_literal_step(
    data: Seq<u8>,
    start: nat,
    before: Seq<u8>,
    ll: Seq<u8>,
    dl: Seq<u8>,
    pos: nat,
    out: Seq<u8>,
)
    requires
        block_state(data, start, before, ll, dl, pos, out),
        0 < ll.len() <= 288,
    ensures
        ({
            let sym = symbol_at(data, pos, ll);
            let l = codeword_len_at(data, pos, ll);
            let bits = symbol_bits_at(data, pos, ll, litlen_results());
            let base = litlen_results()[sym as int];
            let whole = inflate_symbols(data, start, ll, dl, before);
            &&& 1 <= l <= 15
            &&& l <= bits <= 20
            &&& pos + bits > total_bits(data) ==> whole == Err::<(Seq<u8>, nat), ZlibDecodeErrors>(
                ZlibDecodeErrors::InsufficientData,
            )
            &&& (pos + bits <= total_bits(data) && entry_kind(base) == kind_literal()) ==> {
                &&& entry_payload(base) < 256
                &&& block_state(
                    data,
                    start,
                    before,
                    ll,
                    dl,
                    pos + bits,
                    out.push(entry_payload(base) as u8),
                )
            }
            &&& (pos + bits <= total_bits(data) && entry_kind(base) == kind_end_of_block())
                ==> whole == Ok::<(Seq<u8>, nat), ZlibDecodeErrors>((out, pos + bits))
            &&& (pos + bits <= total_bits(data) && entry_kind(base) == kind_match()
                && entry_payload(base) == 0) ==> whole == Err::<(Seq<u8>, nat), ZlibDecodeErrors>(
                ZlibDecodeErrors::CorruptData,
            )
            &&& entry_kind(base) == kind_literal() || entry_kind(base) == kind_end_of_block()
                || entry_kind(base) == kind_match()
            &&& (entry_kind(base) == kind_match() && entry_payload(base) != 0) ==> {
                &&& 257 <= sym < 286
                &&& entry_payload(base) == length_base((sym - 257) as nat)
                &&& entry_total_bits(base) == length_extra_bits((sym - 257) as nat)
            }
        }),
{
    reveal(block_state);
    let sym = symbol_at(data, pos, ll);
    crate::huffman::lemma_huffman_decode_range(ll, stream_bits(data, pos, 15));
    lemma_litlen_result(sym);
    assert(litlen_results()[sym as int] == litlen_result(sym));
}

/// What the grammar does with a match whose length symbol stands at `pos`.
#[verifier::rlimit(40)]
pub proof fn lemma_match_step(
    data: Seq<u8>,
    start: nat,
    before: Seq<u8>,
    ll: Seq<u8>,
    dl: Seq<u8>,
    pos: nat,
    out: Seq<u8>,
)
    requires
        block_state(data, start, before, ll, dl, pos, out),
        257 <= symbol_at(data, pos, ll) < 286,
        pos + symbol_bits_at(data, pos, ll, litlen_results()) <= total_bits(data),
        0 < dl.len() <= 32,
    ensures
        ({
            let sym = symbol_at(data, pos, ll);
            let l = codeword_len_at(data, pos, ll);
            let xb = length_extra_bits((sym - 257) as nat);
            let length = length_base((sym - 257) as nat) + stream_bits(data, pos + l, xb);
            let pos2 = pos + symbol_bits_at(data, pos, ll, litlen_results());
            let ds = symbol_at(data, pos2, dl);
            let dlen = codeword_len_at(data, pos2, dl);
            let dbits = symbol_bits_at(data, pos2, dl, offset_results());
            let dbase = offset_results()[ds as int];
            let offset = entry_payload(dbase) + stream_bits(
                data,
                pos2 + dlen,
                entry_total_bits(dbase),
            );
            let whole = inflate_symbols(data, start, ll, dl, before);
            &&& pos2 == pos + l + xb
            &&& 1 <= l
            &&& 1 <= dlen <= 15
            &&& dlen <= dbits <= 28
            &&& entry_kind(dbase) == kind_match()
            &&& pos2 + dbits > total_bits(data) ==> whole == Err::<(Seq<u8>, nat), ZlibDecodeErrors>(
                ZlibDecodeErrors::InsufficientData,
            )
            &&& (pos2 + dbits <= total_bits(data) && entry_payload(dbase) == 0) ==> whole == Err::<
                (Seq<u8>, nat),
                ZlibDecodeErrors,
            >(ZlibDecodeErrors::CorruptData)
            &&& (pos2 + dbits <= total_bits(data) && entry_payload(dbase) != 0 && offset
                > out.len()) ==> whole == Err::<(Seq<u8>, nat), ZlibDecodeErrors>(
                ZlibDecodeErrors::CorruptData,
            )
            &&& (pos2 + dbits <= total_bits(data) && entry_payload(dbase) != 0 && offset
                <= out.len()) ==> block_state(
                data,
                start,
                before,
                ll,
                dl,
                pos2 + dbits,
                lz_copy(out, offset, length),
            )
            &&& entry_payload(dbase) != 0 ==> ds < 30 && entry_total_bits(dbase)
                == offset_extra_bits(ds)
        }),
{
    lemma_match_fields(data, pos, ll, dl);
    let sym = symbol_at(data, pos, ll);
    let l = codeword_len_at(data, pos, ll);
    let xb = length_extra_bits((sym - 257) as nat);
    let pos2 = pos + l + xb;
    let ds = symbol_at(data, pos2, dl);
    let dlen = codeword_len_at(data, pos2, dl);
    let dxb = offset_extra_bits(ds);
    assert(sym == crate::huffman::huffman_decode(ll, stream_bits(data, pos, 15)).0);
    assert(l == crate::huffman::huffman_decode(ll, stream_bits(data, pos, 15)).1);
    assert(ds == crate::huffman::huffman_decode(dl, stream_bits(data, pos2, 15)).0);
    assert(dlen == crate::huffman::huffman_decode(dl, stream_bits(data, pos2, 15)).1);
    reveal(block_state);
}

/// The fields of the table entries of a match whose length symbol stands
/// at `pos`.
pub proof fn lemma_match_fields(data: Seq<u8>, pos: nat, ll: Seq<u8>, dl: Seq<u8>)
    requires
        257 <= symbol_at(data, pos, ll) < 286,
        0 < dl.len() <= 32,
    ensures
        ({
            let sym = symbol_at(data, pos, ll);
            let l = codeword_len_at(data, pos, ll);
            let xb = length_extra_bits((sym - 257) as nat);
            let pos2 = pos + symbol_bits_at(data, pos, ll, litlen_results());
            let ds = symbol_at(data, pos2, dl);
            let dlen = codeword_len_at(data, pos2, dl);
            let dbits = symbol_bits_at(data, pos2, dl, offset_results());
            let dbase = offset_results()[ds as int];
            &&& pos2 == pos + l + xb
            &&& 1 <= l <= 15
            &&& 1 <= dlen <= 15
            &&& dbits == dlen + offset_extra_bits(ds)
            &&& dbits <= 28
            &&& entry_kind(dbase) == kind_match()
            &&& entry_total_bits(dbase) == offset_extra_bits(ds)
            &&& entry_payload(dbase) == 0 <==> ds >= 30
            &&& ds < 30 ==> entry_payload(dbase) == offset_base(ds)
        }),
{
    let sym = symbol_at(data, pos, ll);
    let pos2 = pos + symbol_bits_at(data, pos, ll, litlen_results());
    let ds = symbol_at(data, pos2, dl);
    lemma_huffman_decode_len(ll, stream_bits(data, pos, 15));
    crate::huffman::lemma_huffman_decode_range(dl, stream_bits(data, pos2, 15));
    assert(litlen_results()[sym as int] == litlen_result(sym));
    assert(offset_results()[ds as int] == offset_result(ds));
    assert(entry_total_bits(litlen_result(sym)) == length_extra_bits((sym - 257) as nat)) by {
        lemma_litlen_result(sym);
    }
    assert(entry_kind(offset_result(ds)) == kind_match() && entry_total_bits(offset_result(ds))
        == offset_extra_bits(ds) && (entry_payload(offset_result(ds)) == 0 <==> ds >= 30) && (ds
        < 30 ==> entry_payload(offset_result(ds)) == offset_base(ds)) && offset_extra_bits(ds)
        <= 13) by {
        lemma_offset_result(ds);
    }
}

/// Decodes the literals and matches of one block up to its end-of-block
/// symbol and writes them to `out_block` from `start_offset` on.
///
/// Returns the write cursor behind the block.
#[verifier::rlimit(40)]
pub fn decode_symbols<'a>(
    stream: &mut BitStreamReader<'a>,
    tables: &DeflateHeaderTables,
    out_block: &mut Vec<u8>,
    start_offset: usize,
    Ghost(ll): Ghost<Seq<u8>>,
    Ghost(dl): Ghost<Seq<u8>>,
) -> (r: Result<usize, ZlibDecodeErrors>)
    requires
        old(stream).wf(),
        old(stream).src@.len() <= max_input_len(),
        tables.wf(),
        tables.decodes(ll, dl),
        257 <= ll.len() <= 288,
        1 <= dl.len() <= 32,
        start_offset <= old(out_block)@.len() <= start_offset + OUTPUT_MARGIN,
        start_offset <= 258 * old(stream).bit_pos(),
    ensures
        final(stream).wf(),
        final(stream).src == old(stream).src,
        match inflate_symbols(
            old(stream).src@,
            old(stream).bit_pos(),
            ll,
            dl,
            old(out_block)@.take(start_offset as int),
        ) {
            Err(e) => r == Err::<usize, ZlibDecodeErrors>(e),
            Ok((out, pos2)) => {
                &&& r is Ok
                &&& final(stream).bit_pos() == pos2
                &&& final(out_block)@.take(r.unwrap() as int) == out
                &&& r.unwrap() <= final(out_block)@.len() <= r.unwrap() + OUTPUT_MARGIN
                &&& r.unwrap() <= 258 * pos2
            },
        },
{
    let ghost data = stream.src@;
    let ghost start = stream.bit_pos();
    let ghost before = out_block@.take(start_offset as int);
    let mut dest_offset: usize = start_offset;
    proof {
        lemma2_to64();
        lemma_block_start(data, start, before, ll, dl);
        crate::entries::lemma_symbol_results_wf();
    }
    if stream.remaining_bytes() > 3 * FASTCOPY {
        // The fast loop: plenty of input is left, so a refill provides
        // every bit that a symbol can take.
        while stream.remaining_bytes() >= 2 * FASTCOPY
            invariant
                stream.wf(),
                stream.src == old(stream).src,
                data == stream.src@,
                data.len() <= max_input_len(),
                tables.wf(),
                tables.decodes(ll, dl),
                257 <= ll.len() <= 288,
                1 <= dl.len() <= 32,
                dest_offset <= out_block@.len() <= dest_offset + OUTPUT_MARGIN,
                dest_offset <= 258 * stream.bit_pos(),
                start == old(stream).bit_pos(),
                before == old(out_block)@.take(start_offset as int),
                block_state(
                    data,
                    start,
                    before,
                    ll,
                    dl,
                    stream.bit_pos(),
                    out_block@.take(dest_offset as int),
                ),
            decreases total_bits(data) - stream.bit_pos(),
        {
            stream.refill();
            let ghost pos = stream.bit_pos();
            let ghost out = out_block@.take(dest_offset as int);
            proof {
                lemma_literal_step(data, start, before, ll, dl, pos, out);
            }
            let mut found: (u32, u32) = decode_entry_fast(
                stream,
                &tables.litlen_decode_table,
                LITLEN_TABLE_BITS,
                Ghost(litlen_results()),
                Ghost(ll),
            );
            let ghost mut sym_pos = pos;
            let ghost mut sym_out = out;
            if is_literal(found.0) {
                // a literal; one more symbol is decoded without a refill
                resize_and_push(out_block, dest_offset, payload_of(found.0) as u8);
                dest_offset += 1;
                proof {
                    sym_pos = stream.bit_pos();
                    sym_out = out_block@.take(dest_offset as int);
                    lemma_literal_step(data, start, before, ll, dl, sym_pos, sym_out);
                }
                found = decode_entry_fast(
                    stream,
                    &tables.litlen_decode_table,
                    LITLEN_TABLE_BITS,
                    Ghost(litlen_results()),
                    Ghost(ll),
                );
                if is_literal(found.0) {
                    resize_and_push(out_block, dest_offset, payload_of(found.0) as u8);
                    dest_offset += 1;
                    continue ;
                }
            }
            if is_end_of_block(found.0) {
                // block done
                return Ok(dest_offset);
            }
            // a match: the length, then the offset
            let length_base: usize = payload_of(found.0) as usize;
            if length_base == 0 {
                // a reserved length symbol
                return Err(ZlibDecodeErrors::CorruptData);
            }
            proof {
                lemma_match_step(data, start, before, ll, dl, sym_pos, sym_out);
                lemma_length_range(
                    (symbol_at(data, sym_pos, ll) - 257) as nat,
                    found.1 as nat,
                );
            }
            let length: usize = length_base + found.1 as usize;
            stream.refill();
            let found_offset: (u32, u32) = decode_entry_fast(
                stream,
                &tables.offset_decode_table,
                OFFSET_TABLEBITS,
                Ghost(offset_results()),
                Ghost(dl),
            );
            let offset_base: usize = payload_of(found_offset.0) as usize;
            if offset_base == 0 {
                // a reserved offset symbol
                return Err(ZlibDecodeErrors::CorruptData);
            }
            proof {
                let pos2 = sym_pos + symbol_bits_at(data, sym_pos, ll, litlen_results());
                lemma_offset_range(symbol_at(data, pos2, dl), found_offset.1 as nat);
            }
            let offset: usize = offset_base + found_offset.1 as usize;
            if offset > dest_offset {
                // the match begins before the output does
                return Err(ZlibDecodeErrors::CorruptData);
            }
            // make room for the match and for the slack that a chunk copy needs
            reserve_output(out_block, dest_offset + length + FASTCOPY, length);
            proof {
                assert(out_block@.take(dest_offset as int) =~= sym_out);
            }
            copy_match(out_block, dest_offset, offset, length);
            dest_offset += length;
        }
    }
    // The safe loop: every read is checked against the end of the input.
    loop
        invariant
            stream.wf(),
            stream.src == old(stream).src,
            data == stream.src@,
            data.len() <= max_input_len(),
            tables.wf(),
            tables.decodes(ll, dl),
            257 <= ll.len() <= 288,
            1 <= dl.len() <= 32,
            dest_offset <= out_block@.len() <= dest_offset + OUTPUT_MARGIN,
            dest_offset <= 258 * stream.bit_pos(),
            start == old(stream).bit_pos(),
            before == old(out_block)@.take(start_offset as int),
            block_state(
                data,
                start,
                before,
                ll,
                dl,
                stream.bit_pos(),
                out_block@.take(dest_offset as int),
            ),
        decreases total_bits(data) - stream.bit_pos(),
    {
        stream.refill();
        let ghost pos = stream.bit_pos();
        let ghost out = out_block@.take(dest_offset as int);
        proof {
            lemma_literal_step(data, start, before, ll, dl, pos, out);
        }
        let found: (u32, u32) = match decode_entry(
            stream,
            &tables.litlen_decode_table,
            LITLEN_TABLE_BITS,
            Ghost(litlen_results()),
            Ghost(ll),
        ) {
            Ok(found) => found,
            Err(e) => {
                return Err(e);
            },
        };
        if is_literal(found.0) {
            resize_and_push(out_block, dest_offset, payload_of(found.0) as u8);
            dest_offset += 1;
            continue ;
        }
        if is_end_of_block(found.0) {
            // block done
            return Ok(dest_offset);
        }
        // a match: the length, then the offset
        let length_base: usize = payload_of(found.0) as usize;
        if length_base == 0 {
            // a reserved length symbol
            return Err(ZlibDecodeErrors::CorruptData);
        }
        proof {
            lemma_match_step(data, start, before, ll, dl, pos, out);
            lemma_length_range((symbol_at(data, pos, ll) - 257) as nat, found.1 as nat);
        }
        let length: usize = length_base + found.1 as usize;
        stream.refill();
        let found_offset: (u32, u32) = match decode_entry(
            stream,
            &tables.offset_decode_table,
            OFFSET_TABLEBITS,
            Ghost(offset_results()),
            Ghost(dl),
        ) {
            Ok(found) => found,
            Err(e) => {
                return Err(e);
            },
        };
        let offset_base: usize = payload_of(found_offset.0) as usize;
        if offset_base == 0 {
            // a reserved offset symbol
            return Err(ZlibDecodeErrors::CorruptData);
        }
        proof {
            let pos2 = pos + symbol_bits_at(data, pos, ll, litlen_results());
            lemma_offset_range(symbol_at(data, pos2, dl), found_offset.1 as nat);
        }
        let offset: usize = offset_base + found_offset.1 as usize;
        if offset > dest_offset {
            // the match begins before the output does
            return Err(ZlibDecodeErrors::CorruptData);
        }
        // the output must hold the match and the slack behind it
        reserve_output(out_block, dest_offset + length + FASTCOPY, length);
        proof {
            assert(out_block@.take(dest_offset as int) =~= out);
        }
        copy_match(out_block, dest_offset, offset, length);
        dest_offset += length;
    }
}

} // verus!
