//! Decoding one symbol with a decode table.
use vstd::prelude::*;
use vstd::arithmetic::power2::{pow2, lemma2_to64};
use crate::bits::{lemma_pow2_monotone, low_bits_u64, shr_u64};
use crate::bitstream::{
    lemma_stream_bits_bound, lemma_stream_bits_split, stream_bits, total_bits, BitStreamReader,
};
use crate::entries::{
    code_bits_of, entry_code_bits, entry_kind, entry_payload, entry_total_bits, is_exceptional,
    is_subtable_pointer, kind_subtable, lemma_make_entry, make_entry, payload_of, result_wf,
    results_wf, total_bits_of,
};
use crate::errors::ZlibDecodeErrors;
use crate::huffman::{huffman_decode, lemma_huffman_decode_range};
use crate::table::{entry_ok, table_decodes};

verus! {

/// The symbol that the stream holds at bit `pos`.
pub open spec fn symbol_at(data: Seq<u8>, pos: nat, lens: Seq<u8>) -> nat {
    huffman_decode(lens, stream_bits(data, pos, 15)).0
}

/// The length of the codeword that the stream holds at bit `pos`.
pub open spec fn codeword_len_at(data: Seq<u8>, pos: nat, lens: Seq<u8>) -> nat {
    huffman_decode(lens, stream_bits(data, pos, 15)).1
}

/// The number of bits that the symbol at bit `pos` takes, its extra bits
/// included.
pub open spec fn symbol_bits_at(data: Seq<u8>, pos: nat, lens: Seq<u8>, results: Seq<u32>) -> nat {
    codeword_len_at(data, pos, lens) + entry_total_bits(
        results[symbol_at(data, pos, lens) as int],
    )
}

/// What a table holds for the bits at `pos`, in terms of the stream.
#[verifier::rlimit(40)]
pub proof fn lemma_lookup(
    data: Seq<u8>,
    pos: nat,
    table: Seq<u32>,
    results: Seq<u32>,
    lens: Seq<u8>,
    tb: nat,
)
    requires
        1 <= tb <= 15,
        table_decodes(table, results, lens, tb),
        results_wf(results),
        0 < lens.len() <= results.len(),
    ensures
        ({
            let sym = symbol_at(data, pos, lens);
            let l = codeword_len_at(data, pos, lens);
            let base = results[sym as int];
            let e = table[stream_bits(data, pos, tb) as int];
            &&& sym < lens.len()
            &&& 1 <= l <= 15
            &&& result_wf(base)
            &&& stream_bits(data, pos, tb) < pow2(tb) <= table.len()
            &&& l <= tb ==> {
                &&& e == make_entry(base, l)
                &&& entry_kind(e) == entry_kind(base)
                &&& entry_kind(e) != kind_subtable()
                &&& entry_payload(e) == entry_payload(base)
                &&& entry_code_bits(e) == l
                &&& entry_total_bits(e) == l + entry_total_bits(base)
            }
            &&& l > tb ==> {
                let sb = entry_code_bits(e);
                let e2 = table[(entry_payload(e) + stream_bits(data, pos + tb, sb)) as int];
                &&& entry_kind(e) == kind_subtable()
                &&& entry_total_bits(e) == tb
                &&& l <= tb + sb <= 15
                &&& entry_payload(e) + stream_bits(data, pos + tb, sb) < table.len()
                &&& e2 == make_entry(base, (l - tb) as nat)
                &&& entry_kind(e2) == entry_kind(base)
                &&& entry_payload(e2) == entry_payload(base)
                &&& entry_code_bits(e2) == l - tb
                &&& entry_total_bits(e2) == l - tb + entry_total_bits(base)
            }
        }),
{
    reveal(table_decodes);
    let w = stream_bits(data, pos, 15);
    let sym = symbol_at(data, pos, lens);
    let l = codeword_len_at(data, pos, lens);
    let base = results[sym as int];
    lemma_huffman_decode_range(lens, w);
    assert(entry_ok(table, results, lens, tb, w));
    lemma_stream_bits_split(data, pos, tb, (15 - tb) as nat);
    assert(tb + (15 - tb) as nat == 15);
    assert(w % pow2(tb) == stream_bits(data, pos, tb));
    lemma_make_entry(base, l);
    if l > tb {
        let e = table[stream_bits(data, pos, tb) as int];
        let sb = entry_code_bits(e);
        lemma_make_entry(base, (l - tb) as nat);
        lemma_stream_bits_split(data, pos + tb, sb, (15 - tb - sb) as nat);
        assert(sb + (15 - tb - sb) as nat == (15 - tb) as nat);
        lemma_stream_bits_bound(data, pos + tb, sb);
    }
}

/// Decodes the symbol at the reader's position with `table` and consumes
/// its codeword and its extra bits.
///
/// Returns the table entry of the symbol and the value of the extra bits.
/// Where the input ends before the last of these bits, the result is
/// `InsufficientData`.
#[verifier::rlimit(40)]
pub fn decode_entry<'a>(
    stream: &mut BitStreamReader<'a>,
    table: &Vec<u32>,
    table_bits: usize,
    Ghost(results): Ghost<Seq<u32>>,
    Ghost(lens): Ghost<Seq<u8>>,
) -> (r: Result<(u32, u32), ZlibDecodeErrors>)
    requires
        old(stream).wf(),
        old(stream).can_peek(28),
        1 <= table_bits <= 15,
        table_decodes(table@, results, lens, table_bits as nat),
        results_wf(results),
        0 < lens.len() <= results.len(),
    ensures
        final(stream).wf(),
        final(stream).src == old(stream).src,
        final(stream).position == old(stream).position,
        ({
            let data = old(stream).src@;
            let pos = old(stream).bit_pos();
            let sym = symbol_at(data, pos, lens);
            let bits = symbol_bits_at(data, pos, lens, results);
            let base = results[sym as int];
            &&& sym < lens.len()
            &&& 1 <= codeword_len_at(data, pos, lens) <= 15
            &&& bits <= 28
            &&& result_wf(base)
            &&& pos + bits > total_bits(data) ==> r == Err::<(u32, u32), ZlibDecodeErrors>(
                ZlibDecodeErrors::InsufficientData,
            )
            &&& pos + bits <= total_bits(data) ==> {
                &&& r is Ok
                &&& entry_kind(r.unwrap().0) == entry_kind(base)
                &&& entry_payload(r.unwrap().0) == entry_payload(base)
                &&& r.unwrap().1 as nat == stream_bits(
                    data,
                    pos + codeword_len_at(data, pos, lens),
                    entry_total_bits(base),
                )
                &&& r.unwrap().1 < pow2(entry_total_bits(base))
                &&& final(stream).bit_pos() == pos + bits
                &&& final(stream).bits_left == old(stream).bits_left - bits
            }
        }),
{
    let ghost data = stream.src@;
    let ghost pos = stream.bit_pos();
    let ghost tb = table_bits as nat;
    let ghost l = codeword_len_at(data, pos, lens);
    let ghost base = results[symbol_at(data, pos, lens) as int];
    let ghost xb = entry_total_bits(base);
    proof {
        lemma_lookup(data, pos, table@, results, lens, tb);
        lemma2_to64();
    }
    let idx: usize = stream.peek_var_bits(table_bits as u8);
    let mut entry: u32 = table[idx];
    if is_exceptional(entry) && is_subtable_pointer(entry) {
        // the codeword is longer than the primary table is wide
        if !stream.has(table_bits as u8) {
            return Err(ZlibDecodeErrors::InsufficientData);
        }
        stream.drop_bits(table_bits as u8);
        let sub_bits: u8 = code_bits_of(entry);
        let sub: usize = payload_of(entry) as usize + stream.peek_var_bits(sub_bits);
        entry = table[sub];
    }
    let total: u8 = total_bits_of(entry);
    if !stream.has(total) {
        return Err(ZlibDecodeErrors::InsufficientData);
    }
    // the extra bits are the consumed bits above the codeword
    let saved: u64 = stream.buffer;
    let code_bits: u8 = code_bits_of(entry);
    proof {
        stream.lemma_peek(total as nat);
        lemma_stream_bits_split(data, stream.bit_pos(), code_bits as nat, xb);
        lemma_stream_bits_bound(data, pos + l, xb);
        lemma_pow2_monotone(xb, 13);
    }
    stream.drop_bits(total);
    let extra: u64 = shr_u64(low_bits_u64(saved, total as u32), code_bits as u32);
    Ok((entry, extra as u32))
}

/// Decodes the symbol at the reader's position like `decode_entry`, for a
/// reader that holds all the bits a symbol can take: no read is checked
/// against the end of the input.
#[verifier::rlimit(40)]
pub fn decode_entry_fast<'a>(
    stream: &mut BitStreamReader<'a>,
    table: &Vec<u32>,
    table_bits: usize,
    Ghost(results): Ghost<Seq<u32>>,
    Ghost(lens): Ghost<Seq<u8>>,
) -> (r: (u32, u32))
    requires
        old(stream).wf(),
        old(stream).bits_left >= 28,
        1 <= table_bits <= 15,
        table_decodes(table@, results, lens, table_bits as nat),
        results_wf(results),
        0 < lens.len() <= results.len(),
    ensures
        final(stream).wf(),
        final(stream).src == old(stream).src,
        final(stream).position == old(stream).position,
        ({
            let data = old(stream).src@;
            let pos = old(stream).bit_pos();
            let sym = symbol_at(data, pos, lens);
            let bits = symbol_bits_at(data, pos, lens, results);
            let base = results[sym as int];
            &&& sym < lens.len()
            &&& bits <= 28
            &&& pos + bits <= total_bits(data)
            &&& entry_kind(r.0) == entry_kind(base)
            &&& entry_payload(r.0) == entry_payload(base)
            &&& r.1 as nat == stream_bits(
                data,
                pos + codeword_len_at(data, pos, lens),
                entry_total_bits(base),
            )
            &&& r.1 < pow2(entry_total_bits(base))
            &&& final(stream).bit_pos() == pos + bits
            &&& final(stream).bits_left == old(stream).bits_left - bits
        }),
{
    let ghost data = stream.src@;
    let ghost pos = stream.bit_pos();
    let ghost l = codeword_len_at(data, pos, lens);
    let ghost xb = entry_total_bits(results[symbol_at(data, pos, lens) as int]);
    proof {
        lemma_lookup(data, pos, table@, results, lens, table_bits as nat);
        lemma2_to64();
    }
    let idx: usize = stream.peek_var_bits(table_bits as u8);
    let mut entry: u32 = table[idx];
    if is_exceptional(entry) && is_subtable_pointer(entry) {
        // the codeword is longer than the primary table is wide
        stream.drop_bits(table_bits as u8);
        let sub_bits: u8 = code_bits_of(entry);
        let sub: usize = payload_of(entry) as usize + stream.peek_var_bits(sub_bits);
        entry = table[sub];
    }
    let total: u8 = total_bits_of(entry);
    // the extra bits are the consumed bits above the codeword
    let saved: u64 = stream.buffer;
    let code_bits: u8 = code_bits_of(entry);
    proof {
        stream.lemma_peek(total as nat);
        lemma_stream_bits_split(data, stream.bit_pos(), code_bits as nat, xb);
        lemma_stream_bits_bound(data, pos + l, xb);
        lemma_pow2_monotone(xb, 13);
    }
    stream.drop_bits(total);
    let extra: u64 = shr_u64(low_bits_u64(saved, total as u32), code_bits as u32);
    (entry, extra as u32)
}

} // verus!
