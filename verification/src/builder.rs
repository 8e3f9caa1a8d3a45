//! The steps of decode-table construction.
use vstd::prelude::*;
use vstd::arithmetic::power2::{pow2, lemma2_to64};
use vstd::arithmetic::div_mod::{
    lemma_fundamental_div_mod, lemma_fundamental_div_mod_converse, lemma_small_mod,
};
use vstd::arithmetic::mul::lemma_mul_is_commutative;
use vstd::bits::{lemma_u32_shl_is_mul, lemma_u32_pow2_no_overflow};
use crate::bits::{
    low_bits_usize, lemma_pow2_monotone, lemma_pow2_split, lemma_pow2_step, pow2_u32, pow2_usize,
    shr_usize,
};
use crate::decoder::DeflateDecoder;
use crate::entries::{
    entry_code_bits, entry_kind, entry_payload, entry_total_bits, kind_subtable,
    make_decode_table_entry, make_subtable_pointer, results_wf,
};
use crate::errors::ZlibDecodeErrors;
use crate::huffman::{
    code_end, code_is_valid, code_space, count_below, count_len, is_complete_code,
    is_single_code, lemma_code_end_scale, lemma_count_below_all, lemma_count_below_monotone,
    lemma_count_len_above, lemma_count_len_bound, lemma_count_len_prefix, lemma_count_len_take,
    lemma_nth_with_len, lemma_nth_with_len_take, lemma_rev_increment, lens_bounded, nth_with_len,
    rev_bits,
};
use crate::walk::{
    lemma_code_end_fits, lemma_scaled_value_doubles, lemma_code_space_at, lemma_residue, lemma_sizing_step, lemma_sub_lengthen, lemma_sub_new,
    lemma_sub_opened, lemma_sub_room, lemma_sub_same, lemma_sub_step, lemma_subtable_extent,
    lemma_walk_last, lemma_walk_lengthen, lemma_walk_next, lemma_walk_symbol, sub_head, walk_inv,
};
use crate::table::{
    lemma_primary_double, lemma_primary_finish, lemma_primary_write, lemma_rev_zero,
    lemma_scale_order, lemma_secondary_fill, lemma_secondary_finish, lemma_secondary_lengthen,
    lemma_secondary_new_subtable, lemma_secondary_start, lemma_uniform_table, primary_ok,
    secondary_ok, table_decodes,
};

verus! {

/// A vector of `n` zero words.
pub fn zeroed_table(n: usize) -> (v: Vec<u32>)
    ensures
        v@.len() == n,
        forall|k: int| 0 <= k < n ==> v@[k] == 0,
{
    let mut v: Vec<u32> = Vec::new();
    let mut k: usize = 0;
    while k < n
        invariant
            k <= n,
            v@.len() == k,
            forall|j: int| 0 <= j < k ==> v@[j] == 0,
        decreases n - k,
    {
        v.push(0);
        k += 1;
    }
    v
}

/// `counts` says for each length from 0 to 15 how many symbols have it.
pub open spec fn counts_of(counts: Seq<u32>, lens: Seq<u8>) -> bool {
    &&& counts.len() == 16
    &&& forall|l: int| 0 <= l < 16 ==> counts[l] as nat == count_len(lens, l as nat)
}

/// Counts how many of the first `num_syms` symbols have each length.
pub fn count_lengths(lens: &[u8], num_syms: usize) -> (counts: Vec<u32>)
    requires
        num_syms <= lens@.len(),
        num_syms <= 288,
        lens_bounded(lens@.take(num_syms as int), 15),
    ensures
        counts_of(counts@, lens@.take(num_syms as int)),
{
    let ghost lens_n = lens@.take(num_syms as int);
    let mut counts: Vec<u32> = zeroed_table(16);
    let mut sym: usize = 0;
    proof {
        assert(lens_n.take(0).len() == 0);
    }
    while sym < num_syms
        invariant
            sym <= num_syms <= lens@.len(),
            num_syms <= 288,
            lens_n == lens@.take(num_syms as int),
            lens_bounded(lens_n, 15),
            counts@.len() == 16,
            forall|l: int|
                0 <= l < 16 ==> counts@[l] as nat == count_len(lens_n.take(sym as int), l as nat),
        decreases num_syms - sym,
    {
        let l: usize = lens[sym] as usize;
        proof {
            assert(lens_n[sym as int] == lens@[sym as int]);
            assert(l <= 15);
            assert forall|j: nat| j < 16 implies #[trigger] count_len(lens_n.take(sym + 1), j)
                == count_len(lens_n.take(sym as int), j) + if j == l {
                1nat
            } else {
                0nat
            } by {
                lemma_count_len_take(lens_n, sym as nat, j);
            }
            lemma_count_len_bound(lens_n.take(sym as int), l as nat);
        }
        let v: u32 = counts[l];
        counts[l] = v + 1;
        sym += 1;
    }
    proof {
        assert(lens_n.take(num_syms as int) =~= lens_n);
    }
    counts
}

/// The sorted position of the `k`-th symbol of length `l`.
pub open spec fn sorted_index(lens: Seq<u8>, l: nat, k: nat) -> int {
    (count_below(lens, l) + k) as int
}

/// The symbols are in the order of their codewords: by length, and by symbol
/// among those of one length. The unused symbols come first.
pub open spec fn is_sorted_by_code(sorted: Seq<u16>, lens: Seq<u8>) -> bool {
    &&& sorted.len() == lens.len()
    &&& forall|l: nat, k: nat|
        l < 16 && k < count_len(lens, l) ==> 0 <= #[trigger] sorted_index(lens, l, k)
            < sorted.len() && sorted[sorted_index(lens, l, k)] as nat == nth_with_len(lens, l, k)
}

/// The first `n` symbols stand at their places in the sorted order.
pub open spec fn is_placed(sorted: Seq<u16>, lens: Seq<u8>, n: int) -> bool {
    forall|j: nat, q: nat|
        j < 16 && q < count_len(lens.take(n), j) ==> 0 <= #[trigger] sorted_index(lens, j, q)
            < lens.len() && sorted[sorted_index(lens, j, q)] as nat == nth_with_len(
            lens.take(n),
            j,
            q,
        )
}

/// The places of two different lengths in the sorted order do not overlap.
proof fn lemma_sorted_ranges(lens: Seq<u8>, l: nat, m: nat)
    requires
        l < m,
    ensures
        count_below(lens, l) + count_len(lens, l) <= count_below(lens, m),
{
    lemma_count_below_monotone(lens, l + 1, m);
}

/// Sorts the first `num_syms` symbols by codeword length and then by symbol.
#[verifier::rlimit(40)]
pub fn sort_symbols(lens: &[u8], num_syms: usize, len_counts: &Vec<u32>) -> (sorted: Vec<u16>)
    requires
        num_syms <= lens@.len(),
        num_syms <= 288,
        lens_bounded(lens@.take(num_syms as int), 15),
        counts_of(len_counts@, lens@.take(num_syms as int)),
    ensures
        is_sorted_by_code(sorted@, lens@.take(num_syms as int)),
{
    let ghost lens_n = lens@.take(num_syms as int);
    proof {
        assert forall|i: int| 0 <= i < lens_n.len() implies (#[trigger] lens_n[i] as nat) < 16 by {
            assert(lens_n[i] as nat <= 15);
        }
        lemma_count_below_all(lens_n, 16);
    }
    // where the symbols of each length start
    let mut offsets: Vec<u32> = zeroed_table(16);
    let mut l: usize = 0;
    while l < 15
        invariant
            l <= 15,
            offsets@.len() == 16,
            len_counts@.len() == 16,
            lens_n.len() == num_syms,
            num_syms <= 288,
            count_below(lens_n, 16) == num_syms,
            forall|j: int|
                0 <= j < 16 ==> len_counts@[j] as nat == count_len(lens_n, j as nat),
            forall|j: int| 0 <= j <= l ==> offsets@[j] as nat == count_below(lens_n, j as nat),
        decreases 15 - l,
    {
        proof {
            lemma_count_below_monotone(lens_n, (l + 1) as nat, 16);
        }
        let next: u32 = offsets[l] + len_counts[l];
        offsets[l + 1] = next;
        l += 1;
    }
    let mut sorted: Vec<u16> = Vec::new();
    let mut k: usize = 0;
    while k < num_syms
        invariant
            k <= num_syms,
            sorted@.len() == k,
        decreases num_syms - k,
    {
        sorted.push(0);
        k += 1;
    }
    let mut sym: usize = 0;
    proof {
        assert(lens_n.take(0).len() == 0);
    }
    while sym < num_syms
        invariant
            sym <= num_syms <= lens@.len(),
            num_syms <= 288,
            lens_n == lens@.take(num_syms as int),
            lens_bounded(lens_n, 15),
            count_below(lens_n, 16) == num_syms,
            offsets@.len() == 16,
            sorted@.len() == num_syms,
            forall|j: int|
                0 <= j < 16 ==> offsets@[j] as nat == count_below(lens_n, j as nat) + count_len(
                    lens_n.take(sym as int),
                    j as nat,
                ),
            is_placed(sorted@, lens_n, sym as int),
        decreases num_syms - sym,
    {
        let pos: usize = lens[sym] as usize;
        let ghost before = sorted@;
        let ghost place = sorted_index(lens_n, pos as nat, count_len(lens_n.take(sym as int), pos as nat));
        proof {
            assert(lens_n[sym as int] == lens@[sym as int]);
            assert(pos <= 15);
            lemma_count_len_take(lens_n, sym as nat, pos as nat);
            lemma_count_len_prefix(lens_n, (sym + 1) as nat, pos as nat);
            lemma_sorted_ranges(lens_n, pos as nat, 16);
        }
        let at: usize = offsets[pos] as usize;
        sorted[at] = sym as u16;
        offsets[pos] = (at + 1) as u32;
        proof {
            assert forall|j: int| 0 <= j < 16 implies #[trigger] offsets@[j] as nat
                == count_below(lens_n, j as nat) + count_len(lens_n.take(sym + 1), j as nat) by {
                lemma_count_len_take(lens_n, sym as nat, j as nat);
            }
            assert forall|j: nat, q: nat|
                j < 16 && q < count_len(lens_n.take(sym + 1), j) implies 0 <= #[trigger] sorted_index(
                lens_n,
                j,
                q,
            ) < lens_n.len() && sorted@[sorted_index(lens_n, j, q)] as nat == nth_with_len(
                lens_n.take(sym + 1),
                j,
                q,
            ) by {
                lemma_count_len_take(lens_n, sym as nat, j);
                lemma_nth_with_len_take(lens_n, sym as nat, j, q);
                lemma_count_len_prefix(lens_n, sym as nat, j);
                lemma_count_len_prefix(lens_n, (sym + 1) as nat, j);
                lemma_sorted_ranges(lens_n, j, 16);
                assert(0 <= sorted_index(lens_n, j, q) < num_syms);
                if j == pos && q == count_len(lens_n.take(sym as int), j) {
                    assert(sorted_index(lens_n, j, q) == place);
                    assert(place == at);
                    assert(sorted@[place] == sym as u16);
                } else {
                    assert(q < count_len(lens_n.take(sym as int), j));
                    if j < pos {
                        lemma_sorted_ranges(lens_n, j, pos as nat);
                    } else if j > pos {
                        lemma_sorted_ranges(lens_n, pos as nat, j);
                    }
                    assert(sorted_index(lens_n, j, q) != place);
                    assert(before[sorted_index(lens_n, j, q)] as nat == nth_with_len(
                        lens_n.take(sym as int),
                        j,
                        q,
                    ));
                }
            }
        }
        proof {
            assert(is_placed(sorted@, lens_n, sym + 1));
        }
        sym += 1;
    }
    proof {
        assert(lens_n.take(num_syms as int) =~= lens_n);
        assert(is_placed(sorted@, lens_n, num_syms as int));
    }
    sorted
}

/// Copies the first `end` entries onto the `end` entries that follow.
pub fn double_table(table: &mut Vec<u32>, end: usize)
    requires
        2 * end <= old(table)@.len(),
    ensures
        final(table)@.len() == old(table)@.len(),
        forall|k: int|
            0 <= k < end ==> final(table)@[k] == old(table)@[k] && final(table)@[k + end] == old(
                table,
            )@[k],
        forall|k: int| 2 * end <= k < old(table)@.len() ==> final(table)@[k] == old(table)@[k],
{
    let mut k: usize = 0;
    let size: usize = table.len();
    while k < end
        invariant
            k <= end,
            2 * end <= size,
            size == table@.len(),
            table@.len() == old(table)@.len(),
            forall|j: int| 0 <= j < end ==> table@[j] == old(table)@[j],
            forall|j: int| 0 <= j < k ==> table@[j + end] == old(table)@[j],
            forall|j: int| 2 * end <= j < table@.len() ==> table@[j] == old(table)@[j],
        decreases end - k,
    {
        let v: u32 = table[k];
        table[end + k] = v;
        k += 1;
    }
}

/// Writes `entry` at `first`, `first + stride`, `first + 2 * stride` and so
/// on, below `end`.
pub fn fill_stride(table: &mut Vec<u32>, first: usize, end: usize, stride: usize, entry: u32)
    requires
        end <= old(table)@.len(),
        stride > 0,
        end + stride <= usize::MAX,
    ensures
        final(table)@.len() == old(table)@.len(),
        forall|k: int|
            0 <= k < old(table)@.len() ==> final(table)@[k] == if first <= k < end && (k - first)
                % (stride as int) == 0 {
                entry
            } else {
                old(table)@[k]
            },
{
    let mut j: usize = first;
    proof {
        lemma_small_mod(0, stride as nat);
    }
    while j < end
        invariant
            first <= j,
            end <= table@.len(),
            stride > 0,
            end + stride <= usize::MAX,
            table@.len() == old(table)@.len(),
            (j - first) % (stride as int) == 0,
            forall|k: int|
                0 <= k < table@.len() ==> table@[k] == if first <= k < end && k < j && (k - first)
                    % (stride as int) == 0 {
                    entry
                } else {
                    old(table)@[k]
                },
        decreases end + stride - j,
    {
        let ghost before = table@;
        table[j] = entry;
        proof {
            let s = stride as int;
            let a = (j - first) as int;
            lemma_fundamental_div_mod(a, s);
            assert forall|k: int| 0 <= k < table@.len() implies table@[k] == if first <= k < end
                && k < j + stride && (k - first) % s == 0 {
                entry
            } else {
                old(table)@[k]
            } by {
                if j < k < j + stride {
                    // no multiple of the stride strictly between two neighbours
                    let d = k - j;
                    lemma_mul_is_commutative(s, a / s);
                    lemma_fundamental_div_mod_converse(a + d, s, a / s, d);
                }
            }
            lemma_mul_is_commutative(s, a / s + 1);
            assert(a + s == (a / s + 1) * s + 0) by (nonlinear_arith)
                requires
                    a == s * (a / s) + a % s,
                    a % s == 0,
            ;
            lemma_fundamental_div_mod_converse(a + s, s, a / s + 1, 0);
        }
        j += stride;
    }
}

/// Writes `entry` to every place of the table.
pub fn fill_all(table: &mut Vec<u32>, entry: u32)
    ensures
        final(table)@.len() == old(table)@.len(),
        forall|k: int| 0 <= k < old(table)@.len() ==> final(table)@[k] == entry,
{
    let mut j: usize = 0;
    while j < table.len()
        invariant
            j <= table@.len(),
            table@.len() == old(table)@.len(),
            forall|k: int| 0 <= k < j ==> table@[k] == entry,
        decreases table@.len() - j,
    {
        table[j] = entry;
        j += 1;
    }
}

/// The codeword that follows `codeword` among the codewords of `len` bits,
/// both in the bit order of the stream: the highest zero bit is set and
/// the one bits above it are cleared.
#[verifier::rlimit(40)]
pub fn next_codeword(codeword: usize, len: u32) -> (r: usize)
    requires
        1 <= len <= 15,
        codeword < pow2(len as nat),
        codeword != pow2(len as nat) - 1,
    ensures
        r < pow2(len as nat),
        rev_bits(r as nat, len as nat) == rev_bits(codeword as nat, len as nat) + 1,
{
    let end: u32 = pow2_u32(len);
    let cw: u32 = codeword as u32;
    proof {
        lemma2_to64();
        lemma_pow2_monotone(len as nat, 15);
    }
    let flipped: u32 = cw ^ (end - 1);
    // the highest zero bit of the codeword is the highest one bit here
    let mut bit: u32 = end >> 1;
    let ghost mut p: u32 = (len - 1) as u32;
    proof {
        lemma_u32_pow2_no_overflow(len as nat);
        lemma_u32_shl_is_mul(1u32, len);
        lemma_u32_pow2_no_overflow(p as nat);
        lemma_u32_shl_is_mul(1u32, p);
        lemma_pow2_step(p as nat);
        assert(end >> 1 == end / 2) by (bit_vector);
        assert(flipped != 0 && flipped < end) by (bit_vector)
            requires
                len <= 15,
                end == 1u32 << len,
                cw < end,
                cw != end - 1,
                flipped == cw ^ ((end - 1) as u32),
        ;
    }
    while flipped & bit == 0
        invariant
            1 <= len <= 15,
            p < len,
            bit == pow2(p as nat),
            bit == 1u32 << p,
            end == pow2(len as nat),
            end == 1u32 << len,
            flipped != 0,
            flipped < 2 * bit,
            flipped == cw ^ ((end - 1) as u32),
            cw < end,
        decreases p,
    {
        proof {
            assert(p != 0 && flipped < bit && bit >> 1 == 1u32 << ((p - 1) as u32) && 2 * (bit
                >> 1) == bit) by (bit_vector)
                requires
                    flipped & bit == 0,
                    flipped != 0,
                    flipped < 2 * bit,
                    bit == 1u32 << p,
                    p <= 14,
            ;
            p = (p - 1) as u32;
            lemma_u32_pow2_no_overflow(p as nat);
            lemma_u32_shl_is_mul(1u32, p);
        }
        bit = bit >> 1;
    }
    let low: u32 = cw & (bit - 1);
    let next: u32 = low | bit;
    proof {
        assert(low < bit && next == low + bit && cw + 2 * bit == low + end && bit >= 1) by (bit_vector)
            requires
                flipped & bit != 0,
                flipped < 2 * bit,
                flipped == cw ^ ((end - 1) as u32),
                cw < end,
                bit == 1u32 << p,
                end == 1u32 << len,
                p < len,
                len <= 15,
                low == cw & ((bit - 1) as u32),
                next == low | bit,
        ;
        lemma_rev_increment(low as nat, p as nat, len as nat);
        lemma_pow2_step(p as nat);
        lemma_pow2_monotone((p + 1) as nat, len as nat);
    }
    next as usize
}

impl<'a> DeflateDecoder<'a> {
    /// Builds the decode table of the code that gives the first `num_syms`
    /// symbols the codeword lengths `lens`.
    ///
    /// The table is built exactly when the code is complete, empty, or has
    /// a single codeword of one bit; every other code is corrupt data. The
    /// primary part has `2^table_bits` entries; subtables are appended
    /// behind it, and the table grows where it is too short for them, to
    /// 65536 entries at most.
    #[verifier::rlimit(40)]
    pub fn build_decode_table_inner(
        lens: &[u8],
        decode_results: &[u32],
        decode_table: &mut Vec<u32>,
        table_bits: usize,
        num_syms: usize,
        max_codeword_len: usize,
    ) -> (r: Result<(), ZlibDecodeErrors>)
        requires
            1 <= table_bits <= 15,
            1 <= max_codeword_len <= 15,
            num_syms <= lens@.len(),
            num_syms <= 288,
            num_syms <= decode_results@.len(),
            decode_results@.len() >= 1,
            lens_bounded(lens@.take(num_syms as int), max_codeword_len as nat),
            results_wf(decode_results@),
            pow2(table_bits as nat) <= old(decode_table)@.len(),
        ensures
            r is Ok <==> code_is_valid(lens@.take(num_syms as int)),
            r is Err ==> r == Err::<(), ZlibDecodeErrors>(ZlibDecodeErrors::CorruptData),
            r is Ok ==> table_decodes(
                final(decode_table)@,
                decode_results@,
                lens@.take(num_syms as int),
                table_bits as nat,
            ),
            final(decode_table)@.len() >= old(decode_table)@.len(),
            final(decode_table)@.len() == old(decode_table)@.len() || final(decode_table)@.len()
                <= 65536,
    {
        let ghost lens_n = lens@.take(num_syms as int);
        let ghost results = decode_results@;
        let ghost tb = table_bits as nat;
        proof {
            lemma2_to64();
            assert forall|i: int| 0 <= i < lens_n.len() implies #[trigger] lens_n[i] as nat <= 15 by {
                assert(lens_n[i] as nat <= max_codeword_len);
            }
        }
        // count how many codewords have each length, including 0
        let len_counts: Vec<u32> = count_lengths(lens, num_syms);

        // the longest length that is actually used
        let mut max_len: usize = max_codeword_len;
        proof {
            assert forall|l: nat| max_codeword_len < l implies #[trigger] count_len(lens_n, l)
                == 0 by {
                lemma_count_len_above(lens_n, max_codeword_len as nat, l);
            }
        }
        while max_len > 1 && len_counts[max_len] == 0
            invariant
                1 <= max_len <= 15,
                counts_of(len_counts@, lens_n),
                forall|l: nat| max_len < l ==> #[trigger] count_len(lens_n, l) == 0,
            decreases max_len,
        {
            max_len -= 1;
        }

        // sort the symbols by codeword length and symbol value
        let sorted_syms: Vec<u16> = sort_symbols(lens, num_syms, &len_counts);

        // how much of the code space the codewords use
        let mut codespace_used: u32 = 0;
        let mut len: usize = 1;
        while len < max_len
            invariant
                1 <= len <= max_len <= 15,
                counts_of(len_counts@, lens_n),
                lens_n.len() <= 288,
                codespace_used as nat == code_end(lens_n, (len - 1) as nat),
            decreases max_len - len,
        {
            proof {
                lemma_code_end_fits(lens_n, len as nat);
            }
            codespace_used = 2 * codespace_used + len_counts[len];
            len += 1;
        }
        proof {
            lemma_code_end_fits(lens_n, len as nat);
        }
        codespace_used = 2 * codespace_used + len_counts[max_len];

        let full: u32 = pow2_u32(max_len as u32);
        proof {
            lemma_code_space_at(lens_n, max_len as nat);
        }
        if codespace_used > full {
            // overfull code
            return Err(ZlibDecodeErrors::CorruptData);
        }
        if codespace_used < full {
            // incomplete code: only two kinds are accepted
            let sym: usize;
            if codespace_used == 0 {
                // no codeword at all: symbol 0 with length 1
                sym = 0;
            } else {
                if codespace_used != pow2_u32((max_len - 1) as u32) || len_counts[1] != 1 {
                    return Err(ZlibDecodeErrors::CorruptData);
                }
                // a single codeword of one bit: both bit values decode to it
                proof {
                    assert(count_below(lens_n, 1) == count_below(lens_n, 0) + count_len(lens_n, 0));
                    assert(sorted_index(lens_n, 1, 0) == len_counts@[0] as int);
                    lemma_nth_with_len(lens_n, 1, 0);
                }
                sym = sorted_syms[len_counts[0] as usize] as usize;
            }
            let entry: u32 = make_decode_table_entry(decode_results, sym, 1);
            // the whole table is initialised, since the stream may hold any bits
            fill_all(decode_table, entry);
            proof {
                lemma_uniform_table(decode_table@, results, lens_n, tb, sym as nat);
            }
            return Ok(());
        }

        // The code is complete. Walk through the codewords in canonical
        // order; first those that fit the primary table.
        let mut codeword: usize = 0;
        let mut count: u32 = len_counts[1];
        let mut i: usize = len_counts[0] as usize;
        len = 1;
        proof {
            assert(count_below(lens_n, 1) == count_below(lens_n, 0) + count_len(lens_n, 0));
            assert(count_below(lens_n, 2) == count_below(lens_n, 1) + count_len(lens_n, 1));
            assert(code_end(lens_n, 1) == 2 * code_end(lens_n, 0) + count_len(lens_n, 1));
            lemma_rev_zero(1);
        }
        while count == 0
            invariant
                counts_of(len_counts@, lens_n),
                count == len_counts@[len as int],
                walk_inv(lens_n, len as nat, count as nat, 0, 0, i as nat),
            decreases 15 - len,
        {
            proof {
                lemma_walk_lengthen(lens_n, len as nat, 0, 0, i as nat);
            }
            len += 1;
            count = len_counts[len];
        }
        let ghost mut c: nat = 0;
        // the primary table is right for the codeword values below `pc`,
        // seen at the resolution `min(len, table_bits)`
        let ghost mut pc: nat = 0;
        let mut curr_table_end: usize = pow2_usize(len as u32);
        proof {
            let pl = if len <= table_bits { len as nat } else { tb };
            lemma_pow2_monotone(pl, tb);
            assert(primary_ok(decode_table@, results, lens_n, pl, 0));
            assert(0 * pow2((len - pl) as nat) == 0);
        }
        while len <= table_bits
            invariant
                1 <= table_bits <= 15,
                tb == table_bits,
                results == decode_results@,
                results_wf(results),
                lens_n == lens@.take(num_syms as int),
                lens_n.len() == num_syms,
                num_syms <= 288,
                num_syms <= results.len(),
                counts_of(len_counts@, lens_n),
                is_sorted_by_code(sorted_syms@, lens_n),
                decode_table@.len() >= old(decode_table)@.len(),
                decode_table@.len() == old(decode_table)@.len() || decode_table@.len() <= 65536,
                pow2(tb) <= decode_table@.len(),
                count >= 1,
                walk_inv(lens_n, len as nat, count as nat, c, codeword as nat, i as nat),
                len <= table_bits ==> curr_table_end == pow2(len as nat) && pc == c,
                primary_ok(
                    decode_table@,
                    results,
                    lens_n,
                    if len <= table_bits {
                        len as nat
                    } else {
                        tb
                    },
                    pc,
                ),
                len > table_bits ==> c == pc * pow2((len - table_bits) as nat),
            decreases num_syms - i,
        {
            proof {
                lemma_walk_symbol(
                    lens_n,
                    sorted_syms@,
                    len as nat,
                    count as nat,
                    c,
                    codeword as nat,
                    i as nat,
                );
                lemma_pow2_monotone(len as nat, tb);
            }
            let sym: usize = sorted_syms[i] as usize;
            let entry: u32 = make_decode_table_entry(decode_results, sym, len as u32);
            i += 1;
            // the entry of the current codeword
            let ghost before_write = decode_table@;
            decode_table[codeword] = entry;
            proof {
                lemma_primary_write(
                    before_write,
                    results,
                    lens_n,
                    len as nat,
                    c,
                    codeword as nat,
                    sym as nat,
                );
            }
            if codeword == curr_table_end - 1 {
                // last codeword (all ones): widen the table to its full size
                proof {
                    lemma_walk_last(
                        lens_n,
                        len as nat,
                        count as nat,
                        c,
                        codeword as nat,
                        (i - 1) as nat,
                    );
                }
                let mut width: usize = len;
                while width < table_bits
                    invariant
                        len <= width <= table_bits <= 15,
                        tb == table_bits,
                        is_complete_code(lens_n),
                        curr_table_end == pow2(width as nat),
                        primary_ok(decode_table@, results, lens_n, width as nat, pow2(width as nat)),
                        pow2(tb) <= decode_table@.len(),
                        decode_table@.len() >= old(decode_table)@.len(),
                decode_table@.len() == old(decode_table)@.len() || decode_table@.len() <= 65536,
                    decreases table_bits - width,
                {
                    let ghost before = decode_table@;
                    proof {
                        lemma_pow2_step(width as nat);
                        lemma_pow2_monotone((width + 1) as nat, tb);
                        lemma2_to64();
                        lemma_pow2_monotone(tb, 15);
                    }
                    double_table(decode_table, curr_table_end);
                    proof {
                        lemma_primary_double(
                            before,
                            decode_table@,
                            results,
                            lens_n,
                            width as nat,
                            pow2(width as nat),
                        );
                    }
                    curr_table_end = 2 * curr_table_end;
                    width += 1;
                }
                proof {
                    lemma_primary_finish(decode_table@, results, lens_n, tb);
                }
                return Ok(());
            }
            // advance to the next codeword in canonical order
            let next: usize = next_codeword(codeword, len as u32);
            proof {
                lemma_walk_next(
                    lens_n,
                    len as nat,
                    count as nat,
                    c,
                    codeword as nat,
                    next as nat,
                    (i - 1) as nat,
                );
                c = c + 1;
                pc = c;
            }
            codeword = next;
            count -= 1;
            // advance to the next codeword length that is used
            while count == 0
                invariant
                    1 <= table_bits <= 15,
                    tb == table_bits,
                    counts_of(len_counts@, lens_n),
                    decode_table@.len() >= old(decode_table)@.len(),
                decode_table@.len() == old(decode_table)@.len() || decode_table@.len() <= 65536,
                    pow2(tb) <= decode_table@.len(),
                    walk_inv(lens_n, len as nat, count as nat, c, codeword as nat, i as nat),
                    len <= table_bits ==> curr_table_end == pow2(len as nat) && pc == c,
                    primary_ok(
                        decode_table@,
                        results,
                        lens_n,
                        if len <= table_bits {
                            len as nat
                        } else {
                            tb
                        },
                        pc,
                    ),
                    len > table_bits ==> c == pc * pow2((len - table_bits) as nat),
                decreases 15 - len,
            {
                proof {
                    lemma_walk_lengthen(lens_n, len as nat, c, codeword as nat, i as nat);
                }
                len += 1;
                if len <= table_bits {
                    // double the table: the first half is copied onto the second
                    let ghost before = decode_table@;
                    proof {
                        lemma_pow2_step((len - 1) as nat);
                        lemma_pow2_monotone(len as nat, tb);
                        lemma2_to64();
                        lemma_pow2_monotone(tb, 15);
                    }
                    double_table(decode_table, curr_table_end);
                    proof {
                        lemma_primary_double(
                            before,
                            decode_table@,
                            results,
                            lens_n,
                            (len - 1) as nat,
                            pc,
                        );
                        pc = 2 * pc;
                    }
                    curr_table_end = 2 * curr_table_end;
                } else {
                    proof {
                        lemma_scaled_value_doubles(c, pc, (len - 1 - table_bits) as nat);
                    }
                }
                proof {
                    c = 2 * c;
                }
                count = len_counts[len];
            }
        }

        // The codewords that are longer than `table_bits` need subtables.
        curr_table_end = pow2_usize(table_bits as u32);
        let mut subtable_prefix: usize = usize::MAX;
        let mut subtable_start: usize = curr_table_end;
        let mut subtable_bits: usize = 0;
        let ghost mut has_sub: bool = false;
        let ghost mut cur_p: nat = 0;
        proof {
            lemma2_to64();
            lemma_pow2_monotone(tb, 15);
            lemma_secondary_start(decode_table@, results, lens_n, tb, pc, len as nat, c, -1);
            reveal(sub_head);
        }
        loop
            invariant
                1 <= table_bits < len <= 15,
                tb == table_bits,
                results == decode_results@,
                results_wf(results),
                lens_n == lens@.take(num_syms as int),
                lens_n.len() == num_syms,
                num_syms <= 288,
                num_syms <= results.len(),
                counts_of(len_counts@, lens_n),
                is_sorted_by_code(sorted_syms@, lens_n),
                decode_table@.len() >= old(decode_table)@.len(),
                decode_table@.len() == old(decode_table)@.len() || decode_table@.len() <= 65536,
                count >= 1,
                walk_inv(lens_n, len as nat, count as nat, c, codeword as nat, i as nat),
                secondary_ok(
                    decode_table@,
                    results,
                    lens_n,
                    tb,
                    len as nat,
                    c,
                    if has_sub {
                        subtable_prefix as int
                    } else {
                        -1
                    },
                    subtable_start as nat,
                ),
                pow2(tb) <= subtable_start <= curr_table_end <= decode_table@.len(),
                curr_table_end <= 65536,
                sub_head(
                    lens_n,
                    tb,
                    len as nat,
                    c,
                    pc,
                    has_sub,
                    subtable_prefix as nat,
                    subtable_bits as nat,
                    cur_p,
                    subtable_start as nat,
                    curr_table_end as nat,
                ),
                has_sub ==> {
                    &&& subtable_prefix < decode_table@.len()
                    &&& entry_kind(decode_table@[subtable_prefix as int]) == kind_subtable()
                    &&& entry_total_bits(decode_table@[subtable_prefix as int]) == tb
                    &&& entry_code_bits(decode_table@[subtable_prefix as int]) == subtable_bits
                    &&& entry_payload(decode_table@[subtable_prefix as int]) == subtable_start
                },
            decreases num_syms - i,
        {
            let prefix: usize = low_bits_usize(codeword, table_bits as u32);
            let ghost pv = rev_bits(prefix as nat, tb);
            // Start a new subtable if the first `table_bits` bits of the
            // codeword are not the prefix of the current subtable.
            if prefix != subtable_prefix {
                let ghost old_prefix: int = if has_sub { subtable_prefix as int } else { -1 };
                let ghost old_p: int = if has_sub { cur_p as int } else { -1 };
                let ghost old_start = subtable_start as nat;
                let ghost old_end = curr_table_end as nat;
                proof {
                    lemma_sub_new(
                        lens_n,
                        tb,
                        len as nat,
                        count as nat,
                        c,
                        codeword as nat,
                        i as nat,
                        pc,
                        has_sub,
                        subtable_prefix as nat,
                        subtable_bits as nat,
                        cur_p,
                        subtable_start as nat,
                        curr_table_end as nat,
                    );
                }
                subtable_prefix = prefix;
                subtable_start = curr_table_end;
                // If fewer codewords of this length than fill the subtable
                // are left, longer ones are brought in until it is full.
                subtable_bits = len - table_bits;
                let mut used: u32 = count;
                let mut limit: u32 = pow2_u32(subtable_bits as u32);
                while used < limit
                    invariant
                        limit == pow2(subtable_bits as nat),
                        lens_n.len() <= 288,
                        1 <= table_bits <= 15,
                        tb == table_bits,
                        table_bits + subtable_bits <= 15,
                        len - table_bits <= subtable_bits,
                        counts_of(len_counts@, lens_n),
                        is_complete_code(lens_n),
                        pv < pow2(tb),
                        used + pv * pow2(subtable_bits as nat) == code_end(
                            lens_n,
                            tb + subtable_bits as nat,
                        ),
                    decreases 15 - subtable_bits,
                {
                    proof {
                        lemma_sizing_step(lens_n, tb, subtable_bits as nat, pv, used as nat);
                    }
                    subtable_bits += 1;
                    if subtable_bits + table_bits > 15 {
                        return Err(ZlibDecodeErrors::CorruptData);
                    }
                    used = 2 * used + len_counts[table_bits + subtable_bits];
                    limit = 2 * limit;
                }
                // the entry that points from the primary table to the subtable
                proof {
                    lemma_subtable_extent(tb, subtable_bits as nat, old_p, pv, old_end);
                    lemma2_to64();
                    lemma_pow2_monotone(subtable_bits as nat, 15);
                }
                let pointer: u32 = make_subtable_pointer(
                    subtable_start,
                    subtable_bits as u32,
                    table_bits as u32,
                );
                curr_table_end = subtable_start + pow2_usize(subtable_bits as u32);
                let ghost before = decode_table@;
                if curr_table_end > decode_table.len() {
                    decode_table.resize(curr_table_end, 0);
                    proof {
                        assert forall|j: int| 0 <= j < before.len() implies decode_table@[j]
                            == before[j] by {
                            assert(decode_table@.subrange(0, before.len() as int)[j]
                                == decode_table@[j]);
                        }
                    }
                }
                decode_table[subtable_prefix] = pointer;
                proof {
                    lemma_secondary_new_subtable(
                        before,
                        decode_table@,
                        results,
                        lens_n,
                        tb,
                        len as nat,
                        c,
                        old_prefix,
                        old_start,
                        old_end,
                        prefix as nat,
                        pointer,
                    );
                    lemma_sub_opened(
                        lens_n,
                        tb,
                        len as nat,
                        c,
                        prefix as nat,
                        subtable_bits as nat,
                        pv,
                        subtable_start as nat,
                        curr_table_end as nat,
                        used as nat,
                    );
                    has_sub = true;
                    cur_p = pv;
                }
            } else {
                proof {
                    lemma_sub_same(
                        lens_n,
                        tb,
                        len as nat,
                        count as nat,
                        c,
                        codeword as nat,
                        i as nat,
                        pc,
                        has_sub,
                        subtable_prefix as nat,
                        subtable_bits as nat,
                        cur_p,
                        subtable_start as nat,
                        curr_table_end as nat,
                    );
                }
            }
            proof {
                lemma_sub_room(
                    lens_n,
                    tb,
                    len as nat,
                    count as nat,
                    c,
                    codeword as nat,
                    i as nat,
                    subtable_prefix as nat,
                    subtable_bits as nat,
                    cur_p,
                    subtable_start as nat,
                    curr_table_end as nat,
                );
                lemma_walk_symbol(
                    lens_n,
                    sorted_syms@,
                    len as nat,
                    count as nat,
                    c,
                    codeword as nat,
                    i as nat,
                );
            }
            // fill the subtable entries of the current codeword
            let stride: usize = pow2_usize((len - table_bits) as u32);
            let first: usize = subtable_start + shr_usize(codeword, table_bits as u32);
            let sym: usize = sorted_syms[i] as usize;
            let entry: u32 = make_decode_table_entry(
                decode_results,
                sym,
                (len - table_bits) as u32,
            );
            i += 1;
            let ghost before_fill = decode_table@;
            let ghost k = pow2((len - tb) as nat);
            let ghost hi = codeword as nat / pow2(tb);
            fill_stride(decode_table, first, curr_table_end, stride, entry);
            proof {
                assert forall|j: int| 0 <= j < before_fill.len() implies decode_table@[j] == if subtable_start
                    <= j < subtable_start + pow2(subtable_bits as nat) && ((j
                    - subtable_start) as nat) % k == hi {
                    entry
                } else {
                    before_fill[j]
                } by {
                    if subtable_start <= j < curr_table_end {
                        lemma_residue((j - subtable_start) as nat, hi, k);
                    }
                }
                lemma_secondary_fill(
                    before_fill,
                    decode_table@,
                    results,
                    lens_n,
                    tb,
                    len as nat,
                    c,
                    codeword as nat,
                    sym as nat,
                    subtable_start as nat,
                    subtable_bits as nat,
                );
                lemma_walk_last(
                    lens_n,
                    len as nat,
                    count as nat,
                    c,
                    codeword as nat,
                    (i - 1) as nat,
                );
            }
            // advance to the next codeword
            if codeword == pow2_usize(len as u32) - 1 {
                // last codeword
                proof {
                    lemma_secondary_finish(
                        decode_table@,
                        results,
                        lens_n,
                        tb,
                        len as nat,
                        subtable_prefix as int,
                        subtable_start as nat,
                    );
                }
                return Ok(());
            }
            let next: usize = next_codeword(codeword, len as u32);
            proof {
                lemma_walk_next(
                    lens_n,
                    len as nat,
                    count as nat,
                    c,
                    codeword as nat,
                    next as nat,
                    (i - 1) as nat,
                );
                lemma_sub_step(
                    lens_n,
                    tb,
                    len as nat,
                    c,
                    pc,
                    subtable_prefix as nat,
                    subtable_bits as nat,
                    cur_p,
                    subtable_start as nat,
                    curr_table_end as nat,
                );
                c = c + 1;
            }
            codeword = next;
            count -= 1;
            while count == 0
                invariant
                    1 <= table_bits < len <= 15,
                    tb == table_bits,
                    counts_of(len_counts@, lens_n),
                    walk_inv(lens_n, len as nat, count as nat, c, codeword as nat, i as nat),
                    has_sub,
                    secondary_ok(
                        decode_table@,
                        results,
                        lens_n,
                        tb,
                        len as nat,
                        c,
                        subtable_prefix as int,
                        subtable_start as nat,
                    ),
                    sub_head(
                        lens_n,
                        tb,
                        len as nat,
                        c,
                        pc,
                        has_sub,
                        subtable_prefix as nat,
                        subtable_bits as nat,
                        cur_p,
                        subtable_start as nat,
                        curr_table_end as nat,
                    ),
                decreases 15 - len,
            {
                proof {
                    lemma_walk_lengthen(lens_n, len as nat, c, codeword as nat, i as nat);
                    lemma_secondary_lengthen(
                        decode_table@,
                        results,
                        lens_n,
                        tb,
                        len as nat,
                        c,
                        subtable_prefix as int,
                        subtable_start as nat,
                    );
                    lemma_sub_lengthen(
                        lens_n,
                        tb,
                        len as nat,
                        c,
                        pc,
                        subtable_prefix as nat,
                        subtable_bits as nat,
                        cur_p,
                        subtable_start as nat,
                        curr_table_end as nat,
                    );
                    c = 2 * c;
                }
                len += 1;
                count = len_counts[len];
            }
        }
    }
}

} // verus!
