//! The codes of a compressed block: the fixed ones, and those that a
//! dynamic block transmits in its header.
use vstd::prelude::*;
use vstd::arithmetic::power2::lemma2_to64;
use vstd::slice::slice_subrange;
use crate::bitstream::{stream_bits, BitStreamReader};
use crate::builder::zeroed_table;
use crate::decoder::{
    DeflateDecoder, DEFLATE_BLOCKTYPE_DYNAMIC_HUFFMAN, DEFLATE_BLOCKTYPE_STATIC,
    DEFLATE_MAX_LENS_OVERRUN, DEFLATE_MAX_PRE_CODEWORD_LEN, LITLEN_TABLE_BITS, OFFSET_TABLEBITS,
    PRECODE_ENOUGH, PRECODE_TABLE_BITS,
};
use crate::entries::{
    lemma_precode_result, payload_of, precode_result, precode_results, DEFLATE_NUM_LITLEN_SYMS,
    DEFLATE_NUM_OFFSET_SYMS, DEFLATE_NUM_PRECODE_SYMS,
};
use crate::errors::ZlibDecodeErrors;
use crate::grammar::{
    block_codes, dynamic_code_lengths, dynamic_litlen_count, dynamic_offset_count, fixed_litlen_lens, fixed_offset_lens, inflate_code_lengths, precode_lens,
    precode_order, repeated,
};
use crate::huffman::{
    DEFLATE_MAX_CODEWORD_LENGTH, code_end, code_is_valid, count_len, is_complete_code, lemma_code_end_scale,
    lemma_count_len_take, lens_bounded,
};
use crate::lookup::{codeword_len_at, decode_entry, symbol_at};
use crate::table::table_decodes;

verus! {

/// How many of the first `n` symbols of the fixed literal/length code have
/// length `l`.
pub open spec fn fixed_litlen_count(n: nat, l: nat) -> nat {
    if l == 8 {
        (if n <= 144 {
            n
        } else {
            144
        }) + (if n <= 280 {
            0
        } else {
            (n - 280) as nat
        })
    } else if l == 9 {
        if n <= 144 {
            0
        } else if n <= 256 {
            (n - 144) as nat
        } else {
            112
        }
    } else if l == 7 {
        if n <= 256 {
            0
        } else if n <= 280 {
            (n - 256) as nat
        } else {
            24
        }
    } else {
        0
    }
}

proof fn lemma_fixed_litlen_counts(n: nat, l: nat)
    requires
        n <= 288,
    ensures
        count_len(fixed_litlen_lens().take(n as int), l) == fixed_litlen_count(n, l),
    decreases n,
{
    let f = fixed_litlen_lens();
    if n == 0 {
        assert(f.take(0).len() == 0);
    } else {
        lemma_fixed_litlen_counts((n - 1) as nat, l);
        lemma_count_len_take(f, (n - 1) as nat, l);
        assert(((n - 1) as nat + 1) as int == n as int);
    }
}

proof fn lemma_fixed_offset_counts(n: nat, l: nat)
    requires
        n <= 32,
    ensures
        count_len(fixed_offset_lens().take(n as int), l) == if l == 5 {
            n
        } else {
            0
        },
    decreases n,
{
    let f = fixed_offset_lens();
    if n == 0 {
        assert(f.take(0).len() == 0);
    } else {
        lemma_fixed_offset_counts((n - 1) as nat, l);
        lemma_count_len_take(f, (n - 1) as nat, l);
        assert(((n - 1) as nat + 1) as int == n as int);
    }
}

/// Where no symbol has a length from 1 to `l`, no code space is used up to
/// `l`.
proof fn lemma_code_end_unused(lens: Seq<u8>, l: nat)
    requires
        forall|j: nat| 1 <= j <= l ==> count_len(lens, j) == 0,
    ensures
        code_end(lens, l) == 0,
    decreases l,
{
    if l > 0 {
        lemma_code_end_unused(lens, (l - 1) as nat);
        assert(count_len(lens, l) == 0);
    }
}

/// The fixed codes are complete.
pub proof fn lemma_fixed_codes_valid()
    ensures
        is_complete_code(fixed_litlen_lens()),
        is_complete_code(fixed_offset_lens()),
        code_is_valid(fixed_litlen_lens()),
        code_is_valid(fixed_offset_lens()),
        lens_bounded(fixed_litlen_lens(), 15),
        lens_bounded(fixed_offset_lens(), 15),
{
    lemma2_to64();
    let f = fixed_litlen_lens();
    assert(f.take(288) =~= f);
    assert forall|j: nat| true implies count_len(f, j) == fixed_litlen_count(288, j) by {
        lemma_fixed_litlen_counts(288, j);
    }
    lemma_code_end_unused(f, 6);
    assert(code_end(f, 7) == 2 * code_end(f, 6) + count_len(f, 7));
    assert(code_end(f, 8) == 2 * code_end(f, 7) + count_len(f, 8));
    assert(code_end(f, 9) == 2 * code_end(f, 8) + count_len(f, 9));
    assert(code_end(f, 9) == 512);
    lemma_code_end_scale(f, 9, 15);
    assert(code_end(f, 15) == 512 * 64);
    let d = fixed_offset_lens();
    assert(d.take(32) =~= d);
    assert forall|j: nat| true implies count_len(d, j) == if j == 5 {
        32nat
    } else {
        0nat
    } by {
        lemma_fixed_offset_counts(32, j);
    }
    lemma_code_end_unused(d, 4);
    assert(code_end(d, 5) == 2 * code_end(d, 4) + count_len(d, 5));
    lemma_code_end_scale(d, 5, 15);
    assert(code_end(d, 15) == 32 * 1024);
}

/// Writes `value` to the places from `from` up to `to`.
pub fn fill_lens(lens: &mut Vec<u8>, from: usize, to: usize, value: u8)
    requires
        from <= to <= old(lens)@.len(),
    ensures
        final(lens)@.len() == old(lens)@.len(),
        forall|i: int|
            0 <= i < old(lens)@.len() ==> final(lens)@[i] == if from <= i < to {
                value
            } else {
                old(lens)@[i]
            },
{
    let mut j: usize = from;
    while j < to
        invariant
            from <= j <= to <= lens@.len(),
            lens@.len() == old(lens)@.len(),
            forall|i: int|
                0 <= i < old(lens)@.len() ==> lens@[i] == if from <= i < j {
                    value
                } else {
                    old(lens)@[i]
                },
        decreases to - j,
    {
        lens[j] = value;
        j += 1;
    }
}

/// A vector of `n` zero bytes.
pub fn zeroed_lens(n: usize) -> (v: Vec<u8>)
    ensures
        v@.len() == n,
        forall|k: int| 0 <= k < n ==> v@[k] == 0,
{
    let mut v: Vec<u8> = Vec::new();
    let mut k: usize = 0;
    while k < n
        invariant
            k <= n,
            v@.len() == k,
            forall|j: int| 0 <= j < k ==> v@[j] == 0,
        decreases n - k,
    {
        v.push(0);
        k += 1;
    }
    v
}

/// The precode symbol whose length is transmitted `k`-th.
pub fn precode_position(k: usize) -> (sym: usize)
    requires
        k < 19,
    ensures
        sym as int == precode_order(k as nat),
        sym < 19,
{
    if k == 0 {
        16
    } else if k == 1 {
        17
    } else if k == 2 {
        18
    } else if k == 3 {
        0
    } else if k == 4 {
        8
    } else if k == 5 {
        7
    } else if k == 6 {
        9
    } else if k == 7 {
        6
    } else if k == 8 {
        10
    } else if k == 9 {
        5
    } else if k == 10 {
        11
    } else if k == 11 {
        4
    } else if k == 12 {
        12
    } else if k == 13 {
        3
    } else if k == 14 {
        13
    } else if k == 15 {
        2
    } else if k == 16 {
        14
    } else if k == 17 {
        1
    } else {
        15
    }
}

/// The lengths of the precode have nineteen entries of at most three bits.
pub proof fn lemma_precode_lens(data: Seq<u8>, pos: nat, n: nat)
    ensures
        precode_lens(data, pos, n).len() == 19,
        lens_bounded(precode_lens(data, pos, n), 7),
    decreases n,
{
    lemma2_to64();
    if n > 0 {
        lemma_precode_lens(data, pos, (n - 1) as nat);
        crate::bitstream::lemma_stream_bits_bound(data, (pos + 3 * (n - 1)) as nat, 3);
    }
}

/// Reads the codeword lengths of the literal/length and offset codes of a
/// dynamic block, `total_syms` in all, with the precode table.
///
/// The lengths are written to the front of `lens`; a repeat code may write
/// beyond the last length, into the margin that `lens` has for it.
#[verifier::rlimit(40)]
pub fn read_code_lengths<'a>(
    stream: &mut BitStreamReader<'a>,
    precode_decode_table: &Vec<u32>,
    lens: &mut Vec<u8>,
    total_syms: usize,
    Ghost(pl): Ghost<Seq<u8>>,
) -> (r: Result<(), ZlibDecodeErrors>)
    requires
        old(stream).wf(),
        total_syms <= 320,
        old(lens)@.len() == 320 + DEFLATE_MAX_LENS_OVERRUN,
        pl.len() == 19,
        table_decodes(precode_decode_table@, precode_results(), pl, PRECODE_TABLE_BITS as nat),
    ensures
        final(stream).wf(),
        final(stream).src == old(stream).src,
        final(lens)@.len() == old(lens)@.len(),
        match inflate_code_lengths(
            old(stream).src@,
            old(stream).bit_pos(),
            pl,
            total_syms as nat,
            Seq::empty(),
        ) {
            Err(e) => r == Err::<(), ZlibDecodeErrors>(e),
            Ok((found, pos2)) => {
                &&& r is Ok
                &&& final(stream).bit_pos() == pos2
                &&& found == final(lens)@.take(total_syms as int)
                &&& lens_bounded(found, 15)
            },
        },
{
    let ghost data = stream.src@;
    let ghost start = stream.bit_pos();
    let ghost n = total_syms as nat;
    let mut i: usize = 0;
    proof {
        assert(lens@.take(0) =~= Seq::<u8>::empty());
        crate::entries::lemma_precode_results_wf();
    }
    while i < total_syms
        invariant
            stream.wf(),
            stream.src == old(stream).src,
            data == stream.src@,
            start == old(stream).bit_pos(),
            n == total_syms,
            i <= total_syms <= 320,
            lens@.len() == 320 + DEFLATE_MAX_LENS_OVERRUN,
            lens@.len() == old(lens)@.len(),
            pl.len() == 19,
            table_decodes(
                precode_decode_table@,
                precode_results(),
                pl,
                PRECODE_TABLE_BITS as nat,
            ),
            crate::entries::results_wf(precode_results()),
            forall|j: int| 0 <= j < i ==> lens@[j] <= 15,
            inflate_code_lengths(data, start, pl, n, Seq::empty()) == inflate_code_lengths(
                data,
                stream.bit_pos(),
                pl,
                n,
                lens@.take(i as int),
            ),
        decreases total_syms - i,
    {
        let ghost pos = stream.bit_pos();
        let ghost acc = lens@.take(i as int);
        let ghost sym = symbol_at(data, pos, pl);
        let ghost l = codeword_len_at(data, pos, pl);
        proof {
            lemma2_to64();
        }
        stream.refill();
        // decode the next precode symbol
        let decoded = decode_entry(
            stream,
            precode_decode_table,
            PRECODE_TABLE_BITS,
            Ghost(precode_results()),
            Ghost(pl),
        );
        proof {
            lemma_precode_result(sym);
            assert(precode_results()[sym as int] == precode_result(sym));
            assert(crate::lookup::symbol_bits_at(data, pos, pl, precode_results()) == l);
        }
        let entry: u32 = match decoded {
            Ok(found) => found.0,
            Err(e) => {
                return Err(e);
            },
        };
        let presym: u32 = payload_of(entry);
        if presym < 16 {
            // an explicit codeword length
            lens[i] = presym as u8;
            proof {
                assert(lens@.take(i + 1) =~= acc.push(sym as u8));
            }
            i += 1;
            continue ;
        }
        // Run-length encoded codeword lengths. The largest number of
        // entries is always written; the margin of `lens` has room for it.
        let rep_val: u8;
        let rep_count: usize;
        if presym == 16 {
            // repeat the previous length three to six times
            if i == 0 {
                return Err(ZlibDecodeErrors::CorruptData);
            }
            if !stream.has(2) {
                return Err(ZlibDecodeErrors::InsufficientData);
            }
            rep_val = lens[i - 1];
            rep_count = 3 + stream.get_bits(2) as usize;
            proof {
                lemma2_to64();
                assert(acc.last() == rep_val);
            }
            fill_lens(lens, i, i + 6, rep_val);
        } else if presym == 17 {
            // repeat zero three to ten times
            if !stream.has(3) {
                return Err(ZlibDecodeErrors::InsufficientData);
            }
            rep_val = 0;
            rep_count = 3 + stream.get_bits(3) as usize;
            proof {
                lemma2_to64();
            }
            fill_lens(lens, i, i + 10, 0);
        } else {
            // repeat zero 11 to 138 times
            if !stream.has(7) {
                return Err(ZlibDecodeErrors::InsufficientData);
            }
            rep_val = 0;
            rep_count = 11 + stream.get_bits(7) as usize;
            proof {
                lemma2_to64();
            }
            fill_lens(lens, i, i + rep_count, 0);
        }
        if i + rep_count > total_syms {
            // the repeat runs over the last codeword length
            return Err(ZlibDecodeErrors::CorruptData);
        }
        proof {
            assert(lens@.take(i + rep_count) =~= acc + repeated(rep_val, rep_count as nat));
        }
        i += rep_count;
    }
    proof {
        let found = lens@.take(total_syms as int);
        assert forall|j: int| 0 <= j < found.len() implies #[trigger] found[j] as nat <= 15 by {
            assert(found[j] == lens@[j]);
        }
    }
    Ok(())
}

/// Reads the header of a dynamic block: the three counts, the codeword
/// lengths of the precode, and with the precode the codeword lengths of the
/// literal/length and offset codes.
///
/// Returns the lengths, those of the literal/length code first, and how
/// many of them belong to each of the two codes.
#[verifier::rlimit(40)]
pub fn read_dynamic_header<'a>(
    stream: &mut BitStreamReader<'a>,
    precode_symbols: &Vec<u32>,
) -> (r: Result<(Vec<u8>, usize, usize), ZlibDecodeErrors>)
    requires
        old(stream).wf(),
        precode_symbols@ == precode_results(),
    ensures
        final(stream).wf(),
        final(stream).src == old(stream).src,
        match dynamic_code_lengths(old(stream).src@, old(stream).bit_pos()) {
            Err(e) => r == Err::<(Vec<u8>, usize, usize), ZlibDecodeErrors>(e),
            Ok((found, pos2)) => {
                &&& r is Ok
                &&& final(stream).bit_pos() == pos2
                &&& r.unwrap().0@.len() == 320 + DEFLATE_MAX_LENS_OVERRUN
                &&& r.unwrap().1 == dynamic_litlen_count(old(stream).src@, old(stream).bit_pos())
                &&& r.unwrap().2 == dynamic_offset_count(old(stream).src@, old(stream).bit_pos())
                &&& 257 <= r.unwrap().1 <= 288
                &&& 1 <= r.unwrap().2 <= 32
                &&& found == r.unwrap().0@.take(r.unwrap().1 + r.unwrap().2)
                &&& lens_bounded(found, 15)
            },
        },
{
    let ghost data = stream.src@;
    let ghost pos = stream.bit_pos();
    proof {
        lemma2_to64();
        crate::entries::lemma_precode_results_wf();
    }
    // the three counts
    stream.refill();
    if !stream.has(5 + 5 + 4) {
        return Err(ZlibDecodeErrors::InsufficientData);
    }
    let num_litlen_syms: usize = 257 + stream.get_bits(5) as usize;
    let num_offset_syms: usize = 1 + stream.get_bits(5) as usize;
    let num_explicit_precode_lens: usize = 4 + stream.get_bits(4) as usize;
    let ghost hclen = num_explicit_precode_lens as nat;

    // the codeword lengths of the precode, in their fixed order
    let mut precode_lengths: Vec<u8> = zeroed_lens(DEFLATE_NUM_PRECODE_SYMS);
    stream.refill();
    if !stream.has(3) {
        return Err(ZlibDecodeErrors::InsufficientData);
    }
    let first_precode: u8 = stream.get_bits(3) as u8;
    precode_lengths[precode_position(0)] = first_precode;
    stream.refill();
    let expected: u8 = (3 * (num_explicit_precode_lens - 1)) as u8;
    if !stream.has(expected) {
        return Err(ZlibDecodeErrors::InsufficientData);
    }
    proof {
        let none = precode_lens(data, pos + 14, 0);
        assert(none =~= Seq::new(19, |i: int| 0u8));
        assert((pos + 14 + 3 * (1 - 1)) as nat == pos + 14);
        assert(precode_lens(data, pos + 14, 1) == none.update(
            precode_order(0),
            stream_bits(data, pos + 14, 3) as u8,
        ));
        assert(precode_lengths@ =~= precode_lens(data, pos + 14, 1));
    }
    let mut k: usize = 1;
    while k < num_explicit_precode_lens
        invariant
            stream.wf(),
            stream.src == old(stream).src,
            stream.src@ == data,
            1 <= k <= num_explicit_precode_lens <= 19,
            stream.bit_pos() == pos + 14 + 3 * k,
            stream.bits_left >= 3 * (num_explicit_precode_lens - k),
            precode_lengths@ == precode_lens(data, pos + 14, k as nat),
        decreases num_explicit_precode_lens - k,
    {
        proof {
            lemma2_to64();
        }
        let bits: u8 = stream.get_bits(3) as u8;
        proof {
            lemma_precode_lens(data, pos + 14, k as nat);
        }
        precode_lengths[precode_position(k)] = bits;
        k += 1;
    }
    let ghost pl = precode_lengths@;
    proof {
        lemma_precode_lens(data, pos + 14, hclen);
        assert(pl.take(19) =~= pl);
    }
    let mut precode_decode_table: Vec<u32> = zeroed_table(PRECODE_ENOUGH);
    match DeflateDecoder::build_decode_table_inner(
        precode_lengths.as_slice(),
        precode_symbols.as_slice(),
        &mut precode_decode_table,
        PRECODE_TABLE_BITS,
        DEFLATE_NUM_PRECODE_SYMS,
        DEFLATE_MAX_PRE_CODEWORD_LEN,
    ) {
        Ok(()) => {},
        Err(e) => {
            return Err(e);
        },
    }

    // the codeword lengths of the literal/length and offset codes
    let mut lens: Vec<u8> = zeroed_lens(
        DEFLATE_NUM_LITLEN_SYMS + DEFLATE_NUM_OFFSET_SYMS + DEFLATE_MAX_LENS_OVERRUN,
    );
    match read_code_lengths(
        stream,
        &precode_decode_table,
        &mut lens,
        num_litlen_syms + num_offset_syms,
        Ghost(pl),
    ) {
        Ok(()) => {},
        Err(e) => {
            return Err(e);
        },
    }
    Ok((lens, num_litlen_syms, num_offset_syms))
}

/// The codeword lengths of the fixed codes: the 288 of the literal/length
/// code, then the 32 of the offset code.
pub fn fixed_lens() -> (lens: Vec<u8>)
    ensures
        lens@.len() == 320,
        lens@.take(288) == fixed_litlen_lens(),
        lens@.subrange(288, 320) == fixed_offset_lens(),
{
    let mut lens: Vec<u8> = zeroed_lens(DEFLATE_NUM_LITLEN_SYMS + DEFLATE_NUM_OFFSET_SYMS);
    fill_lens(&mut lens, 0, 144, 8);
    fill_lens(&mut lens, 144, 256, 9);
    fill_lens(&mut lens, 256, 280, 7);
    fill_lens(&mut lens, 280, 288, 8);
    fill_lens(&mut lens, 288, 320, 5);
    proof {
        assert(lens@.take(288) =~= fixed_litlen_lens());
        assert(lens@.subrange(288, 320) =~= fixed_offset_lens());
    }
    lens
}

impl<'a> DeflateDecoder<'a> {
    /// Builds the decode tables of a compressed block whose three header
    /// bits were read: those of the fixed codes for a block of type 1,
    /// those that the block transmits for a block of type 2.
    ///
    /// The tables of the fixed codes are built once and kept until a
    /// dynamic block replaces them.
    #[verifier::rlimit(40)]
    pub fn build_decode_table(&mut self, block_type: u64) -> (r: Result<(), ZlibDecodeErrors>)
        requires
            old(self).wf(),
            old(self).stream.wf(),
            block_type == DEFLATE_BLOCKTYPE_STATIC || block_type
                == DEFLATE_BLOCKTYPE_DYNAMIC_HUFFMAN,
        ensures
            final(self).wf(),
            final(self).stream.wf(),
            final(self).data == old(self).data,
            final(self).position == old(self).position,
            final(self).end == old(self).end,
            final(self).is_last_block == old(self).is_last_block,
            final(self).stream.src == old(self).stream.src,
            block_type == DEFLATE_BLOCKTYPE_STATIC ==> final(self).static_codes_loaded,
            block_type == DEFLATE_BLOCKTYPE_DYNAMIC_HUFFMAN ==> !final(self).static_codes_loaded,
            (block_type == DEFLATE_BLOCKTYPE_STATIC && old(self).static_codes_loaded)
                ==> final(self).deflate_header_tables == old(self).deflate_header_tables,
            match block_codes(old(self).stream.src@, old(self).stream.bit_pos(), block_type as nat) {
                Err(e) => r == Err::<(), ZlibDecodeErrors>(e),
                Ok((ll, dl, pos2)) => {
                    &&& r is Ok
                    &&& final(self).stream.bit_pos() == pos2
                    &&& final(self).deflate_header_tables.decodes(ll, dl)
                    &&& 257 <= ll.len() <= 288
                    &&& 1 <= dl.len() <= 32
                },
            },
    {
        let lens: Vec<u8>;
        let num_litlen_syms: usize;
        let num_offset_syms: usize;
        proof {
            lemma2_to64();
            lemma_fixed_codes_valid();
        }
        if block_type == DEFLATE_BLOCKTYPE_DYNAMIC_HUFFMAN {
            self.static_codes_loaded = false;
            let mut stream: BitStreamReader<'a> = self.stream;
            let header = match read_dynamic_header(
                &mut stream,
                &self.deflate_header_tables.precode_results,
            ) {
                Ok(header) => header,
                Err(e) => {
                    return Err(e);
                },
            };
            self.stream = stream;
            lens = header.0;
            num_litlen_syms = header.1;
            num_offset_syms = header.2;
        } else {
            if self.static_codes_loaded {
                return Ok(());
            }
            lens = fixed_lens();
            num_litlen_syms = DEFLATE_NUM_LITLEN_SYMS;
            num_offset_syms = DEFLATE_NUM_OFFSET_SYMS;
        }
        let ghost ll = lens@.take(num_litlen_syms as int);
        let ghost dl = lens@.subrange(
            num_litlen_syms as int,
            (num_litlen_syms + num_offset_syms) as int,
        );
        // the offset table first, then the literal/length table
        let all: &[u8] = lens.as_slice();
        let offset_lens: &[u8] = slice_subrange(all, num_litlen_syms, all.len());
        proof {
            let found = lens@.take(num_litlen_syms + num_offset_syms);
            assert(found.take(num_litlen_syms as int) =~= ll);
            assert(found.subrange(
                num_litlen_syms as int,
                (num_litlen_syms + num_offset_syms) as int,
            ) =~= dl);
            assert(offset_lens@.take(num_offset_syms as int) =~= dl);
            assert forall|j: int| 0 <= j < ll.len() implies #[trigger] ll[j] as nat <= 15 by {
                if block_type == DEFLATE_BLOCKTYPE_DYNAMIC_HUFFMAN {
                    assert(ll[j] == found[j]);
                }
            }
            assert forall|j: int| 0 <= j < dl.len() implies #[trigger] dl[j] as nat <= 15 by {
                if block_type == DEFLATE_BLOCKTYPE_DYNAMIC_HUFFMAN {
                    assert(dl[j] == found[j + num_litlen_syms]);
                }
            }
        }
        match Self::build_decode_table_inner(
            offset_lens,
            self.deflate_header_tables.offset_results.as_slice(),
            &mut self.deflate_header_tables.offset_decode_table,
            OFFSET_TABLEBITS,
            num_offset_syms,
            DEFLATE_MAX_CODEWORD_LENGTH,
        ) {
            Ok(()) => {},
            Err(e) => {
                return Err(e);
            },
        }
        match Self::build_decode_table_inner(
            all,
            self.deflate_header_tables.litlen_results.as_slice(),
            &mut self.deflate_header_tables.litlen_decode_table,
            LITLEN_TABLE_BITS,
            num_litlen_syms,
            DEFLATE_MAX_CODEWORD_LENGTH,
        ) {
            Ok(()) => {},
            Err(e) => {
                return Err(e);
            },
        }
        if block_type == DEFLATE_BLOCKTYPE_STATIC {
            self.static_codes_loaded = true;
        }
        Ok(())
    }
}

} // verus!
