//! Canonical Huffman codes as DEFLATE defines them.
//!
//! A code is given by one codeword length per symbol, zero meaning that the
//! symbol is unused. Shorter codewords are numerically smaller, and
//! codewords of equal length are ordered by symbol. The stream stores a
//! codeword most significant bit first, so the first `l` bits of the stream,
//! read in order, form its value.
use vstd::prelude::*;
use vstd::arithmetic::power2::*;
use vstd::arithmetic::div_mod::*;
use crate::bits::{
    lemma_div_pow2_twice, lemma_join_pow2, lemma_mod_pow2_narrow, lemma_mod_pow2_split,
    lemma_pow2_monotone, lemma_pow2_step, lemma_small_pow2,
};

verus! {

/// The longest codeword DEFLATE allows.
pub const DEFLATE_MAX_CODEWORD_LENGTH: usize = 15;

/// The first `l` bits of `w` (lowest bit first) read as a number whose most
/// significant bit is the first one.
pub open spec fn rev_bits(w: nat, l: nat) -> nat
    decreases l,
{
    if l == 0 {
        0
    } else {
        2 * rev_bits(w, (l - 1) as nat) + (w / pow2((l - 1) as nat)) % 2
    }
}

/// The number of symbols whose codeword length is `l`.
pub open spec fn count_len(lens: Seq<u8>, l: nat) -> nat
    decreases lens.len(),
{
    if lens.len() == 0 {
        0
    } else {
        count_len(lens.drop_last(), l) + if lens.last() as nat == l {
            1nat
        } else {
            0nat
        }
    }
}

/// One past the last codeword of length `l`: the part of the code space,
/// in units of `2^-l`, that the codewords of length at most `l` use.
pub open spec fn code_end(lens: Seq<u8>, l: nat) -> nat
    decreases l,
{
    if l == 0 {
        0
    } else {
        2 * code_end(lens, (l - 1) as nat) + count_len(lens, l)
    }
}

/// The first codeword of length `l`.
pub open spec fn first_code(lens: Seq<u8>, l: nat) -> nat {
    if l == 0 {
        0
    } else {
        2 * code_end(lens, (l - 1) as nat)
    }
}

/// The symbol that has `k` symbols of length `l` before it and has length
/// `l` itself.
pub open spec fn nth_with_len(lens: Seq<u8>, l: nat, k: nat) -> nat
    decreases lens.len(),
{
    if lens.len() == 0 {
        0
    } else if lens.last() as nat == l && count_len(lens.drop_last(), l) == k {
        (lens.len() - 1) as nat
    } else {
        nth_with_len(lens.drop_last(), l, k)
    }
}

/// Looks for the codeword that the bits of `w` start with, trying the
/// lengths from `l` upwards: symbol and codeword length.
pub open spec fn decode_from(lens: Seq<u8>, w: nat, l: nat) -> Option<(nat, nat)>
    decreases 16 - l,
{
    if l > 15 {
        None
    } else {
        let c = rev_bits(w, l);
        if first_code(lens, l) <= c < code_end(lens, l) {
            Some((nth_with_len(lens, l, (c - first_code(lens, l)) as nat), l))
        } else {
            decode_from(lens, w, l + 1)
        }
    }
}

/// The code space that the code uses, in units of `2^-15`.
pub open spec fn code_space(lens: Seq<u8>) -> nat {
    code_end(lens, 15)
}

/// Every length is at most `max`.
pub open spec fn lens_bounded(lens: Seq<u8>, max: nat) -> bool {
    forall|i: int| 0 <= i < lens.len() ==> #[trigger] lens[i] as nat <= max
}

/// The codewords fill the code space exactly.
pub open spec fn is_complete_code(lens: Seq<u8>) -> bool {
    code_space(lens) == 32768
}

/// No symbol is used.
pub open spec fn is_empty_code(lens: Seq<u8>) -> bool {
    code_space(lens) == 0
}

/// Exactly one symbol is used, with a codeword of one bit.
pub open spec fn is_single_code(lens: Seq<u8>) -> bool {
    code_space(lens) == 16384 && count_len(lens, 1) == 1
}

/// The codes a decode table can be built for: complete ones, the empty one,
/// and the one with a single one-bit codeword.
pub open spec fn code_is_valid(lens: Seq<u8>) -> bool {
    is_complete_code(lens) || is_empty_code(lens) || is_single_code(lens)
}

/// The symbol that the bits of `w` decode to, and the length of its
/// codeword.
///
/// With a single one-bit codeword both bit values decode to its symbol. Where
/// no codeword matches, which for a valid code happens only when it is
/// empty, the answer is symbol 0 with length 1.
#[verifier::opaque]
pub open spec fn huffman_decode(lens: Seq<u8>, w: nat) -> (nat, nat) {
    if is_single_code(lens) {
        (nth_with_len(lens, 1, 0), 1)
    } else {
        match decode_from(lens, w, 1) {
            Some(r) => r,
            None => (0, 1),
        }
    }
}

// ---------------------------------------------------------------------
// Bit reversal
// ---------------------------------------------------------------------
/// The value of `l` bits is below `2^l`.
pub proof fn lemma_rev_bound(w: nat, l: nat)
    ensures
        rev_bits(w, l) < pow2(l),
    decreases l,
{
    lemma2_to64();
    if l > 0 {
        lemma_rev_bound(w, (l - 1) as nat);
        lemma_pow2_step((l - 1) as nat);
    }
}

/// The bit of `w` at index `i`, seen through the low `m > i` bits.
pub proof fn lemma_bit_of_low_bits(w: nat, i: nat, m: nat)
    requires
        i < m,
    ensures
        ((w % pow2(m)) / pow2(i)) % 2 == (w / pow2(i)) % 2,
{
    lemma2_to64();
    lemma_mod_pow2_split(w, i, (m - i) as nat);
    lemma_mod_pow2_narrow(w / pow2(i), 1, (m - i) as nat);
}

/// The first `l` bits depend only on the low `m >= l` bits.
pub proof fn lemma_rev_low_bits(w: nat, l: nat, m: nat)
    requires
        l <= m,
    ensures
        rev_bits(w % pow2(m), l) == rev_bits(w, l),
    decreases l,
{
    lemma_pow2_pos(m);
    if l > 0 {
        let k = (l - 1) as nat;
        let v = w % pow2(m);
        lemma_rev_low_bits(w, k, m);
        lemma_bit_of_low_bits(w, k, m);
        assert(rev_bits(v, l) == 2 * rev_bits(v, k) + (v / pow2(k)) % 2);
        assert(rev_bits(w, l) == 2 * rev_bits(w, k) + (w / pow2(k)) % 2);
    }
}

/// Words that agree on their low `m` bits have the same first `l <= m` bits.
pub proof fn lemma_rev_agree(a: nat, b: nat, l: nat, m: nat)
    requires
        l <= m,
        a % pow2(m) == b % pow2(m),
    ensures
        rev_bits(a, l) == rev_bits(b, l),
{
    lemma_rev_low_bits(a, l, m);
    lemma_rev_low_bits(b, l, m);
}

/// Equal first `l` bits mean equal low `l` bits.
pub proof fn lemma_rev_injective(a: nat, b: nat, l: nat)
    requires
        rev_bits(a, l) == rev_bits(b, l),
    ensures
        a % pow2(l) == b % pow2(l),
    decreases l,
{
    lemma2_to64();
    if l == 0 {
    } else {
        let k = (l - 1) as nat;
        assert(rev_bits(a, k) == rev_bits(b, k) && (a / pow2(k)) % 2 == (b / pow2(k)) % 2);
        lemma_rev_injective(a, b, k);
        lemma_mod_pow2_split(a, k, 1);
        lemma_mod_pow2_split(b, k, 1);
    }
}

/// Reading `t + r` bits is reading `t` bits and then `r` more.
pub proof fn lemma_rev_concat(w: nat, t: nat, r: nat)
    ensures
        rev_bits(w, t + r) == rev_bits(w, t) * pow2(r) + rev_bits(w / pow2(t), r),
    decreases r,
{
    lemma2_to64();
    let x = w / pow2(t);
    lemma_pow2_pos(t);
    if r == 0 {
        assert(rev_bits(w, t) * 1 == rev_bits(w, t));
        assert(rev_bits(x, 0) == 0);
        assert(t + r == t);
    } else {
        let q = (r - 1) as nat;
        lemma_rev_concat(w, t, q);
        lemma_div_pow2_twice(w, t, q);
        lemma_pow2_step(q);
        assert((t + r - 1) as nat == t + q);
        assert(q + 1 == r);
        assert(rev_bits(w, t + r) == 2 * rev_bits(w, t + q) + (w / pow2(t + q)) % 2);
        assert(rev_bits(x, r) == 2 * rev_bits(x, q) + (x / pow2(q)) % 2);
        assert(rev_bits(w, t) * pow2(r) == 2 * (rev_bits(w, t) * pow2(q))) by (nonlinear_arith)
            requires
                pow2(r) == 2 * pow2(q),
        ;
    }
}

/// `l` one bits read as `2^l - 1`.
pub proof fn lemma_rev_all_ones(l: nat)
    ensures
        rev_bits((pow2(l) - 1) as nat, l) == pow2(l) - 1,
        pow2(l) >= 1,
    decreases l,
{
    lemma2_to64();
    lemma_pow2_pos(l);
    if l > 0 {
        let k = (l - 1) as nat;
        lemma_rev_all_ones(k);
        lemma_pow2_step(k);
        let w = (pow2(l) - 1) as nat;
        let lo = (pow2(k) - 1) as nat;
        assert(w == lo + pow2(k) * 1);
        lemma_join_pow2(lo, 1, k);
        lemma_rev_low_bits(w, k, k);
    }
}

/// Setting the highest zero bit of a reversed codeword and clearing the one
/// bits above it adds one to the codeword.
///
/// `cw` has its low `p` bits equal to `z`, bit `p` clear and the bits from
/// `p + 1` up to `l - 1` set.
pub proof fn lemma_rev_increment(z: nat, p: nat, l: nat)
    requires
        p < l,
        z < pow2(p),
    ensures
        rev_bits(z + pow2(p), l) == rev_bits((z + pow2(l) - 2 * pow2(p)) as nat, l) + 1,
        z + pow2(l) >= 2 * pow2(p),
    decreases l - p,
{
    lemma2_to64();
    lemma_pow2_pos(p);
    lemma_pow2_step(p);
    lemma_pow2_monotone(p + 1, l);
    let k = (l - 1) as nat;
    lemma_pow2_step(k);
    let hi = z + pow2(p);
    let cw = (z + pow2(l) - 2 * pow2(p)) as nat;
    if l == p + 1 {
        // cw == z, hi == z + 2^p
        assert(cw == z);
        lemma_small_pow2(z, p);
        lemma_join_pow2(z, 1, p);
        assert(hi == z + pow2(p) * 1);
        lemma_rev_low_bits(hi, p, p);
        assert(hi % pow2(p) == z);
    } else {
        lemma_rev_increment(z, p, k);
        let cw_k = (z + pow2(k) - 2 * pow2(p)) as nat;
        lemma_pow2_monotone(p + 1, k);
        assert(cw_k < pow2(k));
        assert(cw == cw_k + pow2(k) * 1);
        lemma_join_pow2(cw_k, 1, k);
        lemma_rev_low_bits(cw, k, k);
        assert(hi < pow2(k));
        lemma_small_pow2(hi, k);
    }
}

// ---------------------------------------------------------------------
// Counting
// ---------------------------------------------------------------------
/// Counting over a prefix extended by one symbol.
pub proof fn lemma_count_len_take(lens: Seq<u8>, n: nat, l: nat)
    requires
        n < lens.len(),
    ensures
        count_len(lens.take((n + 1) as int), l) == count_len(lens.take(n as int), l) + if lens[n as int] as nat
            == l {
            1nat
        } else {
            0nat
        },
{
    assert(lens.take((n + 1) as int).drop_last() =~= lens.take(n as int));
}

/// A prefix has no more symbols of a length than the whole.
pub proof fn lemma_count_len_prefix(lens: Seq<u8>, n: nat, l: nat)
    requires
        n <= lens.len(),
    ensures
        count_len(lens.take(n as int), l) <= count_len(lens, l),
        count_len(lens, l) <= lens.len(),
    decreases lens.len() - n,
{
    if n == lens.len() {
        assert(lens.take(n as int) =~= lens);
        lemma_count_len_bound(lens, l);
    } else {
        lemma_count_len_take(lens, n, l);
        lemma_count_len_prefix(lens, n + 1, l);
    }
}

/// There are no more symbols of a length than symbols.
pub proof fn lemma_count_len_bound(lens: Seq<u8>, l: nat)
    ensures
        count_len(lens, l) <= lens.len(),
    decreases lens.len(),
{
    if lens.len() > 0 {
        lemma_count_len_bound(lens.drop_last(), l);
    }
}

/// The symbols of the lengths below `l`, counted together.
pub open spec fn count_below(lens: Seq<u8>, l: nat) -> nat
    decreases l,
{
    if l == 0 {
        0
    } else {
        count_below(lens, (l - 1) as nat) + count_len(lens, (l - 1) as nat)
    }
}

/// Where every length is below `l`, the lengths below `l` count every symbol.
pub proof fn lemma_count_below_all(lens: Seq<u8>, l: nat)
    requires
        forall|i: int| 0 <= i < lens.len() ==> (#[trigger] lens[i] as nat) < l,
    ensures
        count_below(lens, l) == lens.len(),
    decreases lens.len(),
{
    if lens.len() == 0 {
        lemma_count_below_empty(lens, l);
    } else {
        let rest = lens.drop_last();
        lemma_count_below_all(rest, l);
        lemma_count_below_push(lens, l);
    }
}

proof fn lemma_count_below_empty(lens: Seq<u8>, l: nat)
    requires
        lens.len() == 0,
    ensures
        count_below(lens, l) == 0,
    decreases l,
{
    if l > 0 {
        lemma_count_below_empty(lens, (l - 1) as nat);
    }
}

proof fn lemma_count_below_push(lens: Seq<u8>, l: nat)
    requires
        lens.len() > 0,
    ensures
        count_below(lens, l) == count_below(lens.drop_last(), l) + if (lens.last() as nat) < l {
            1nat
        } else {
            0nat
        },
    decreases l,
{
    if l > 0 {
        lemma_count_below_push(lens, (l - 1) as nat);
    }
}

/// The lengths below `l` count no more than those below `m >= l`.
pub proof fn lemma_count_below_monotone(lens: Seq<u8>, l: nat, m: nat)
    requires
        l <= m,
    ensures
        count_below(lens, l) <= count_below(lens, m),
    decreases m - l,
{
    if l < m {
        lemma_count_below_monotone(lens, l, (m - 1) as nat);
    }
}

/// What `nth_with_len` finds: a symbol of that length with that many
/// symbols of the length before it.
pub proof fn lemma_nth_with_len(lens: Seq<u8>, l: nat, k: nat)
    requires
        k < count_len(lens, l),
    ensures
        nth_with_len(lens, l, k) < lens.len(),
        lens[nth_with_len(lens, l, k) as int] as nat == l,
        count_len(lens.take(nth_with_len(lens, l, k) as int), l) == k,
    decreases lens.len(),
{
    if lens.len() > 0 {
        let rest = lens.drop_last();
        if lens.last() as nat == l && count_len(rest, l) == k {
            assert(lens.take(lens.len() - 1) =~= rest);
        } else {
            lemma_nth_with_len(rest, l, k);
            let s = nth_with_len(rest, l, k);
            assert(lens.take(s as int) =~= rest.take(s as int));
        }
    }
}

/// `nth_with_len` over a prefix extended by one symbol.
pub proof fn lemma_nth_with_len_take(lens: Seq<u8>, n: nat, l: nat, k: nat)
    requires
        n < lens.len(),
    ensures
        nth_with_len(lens.take((n + 1) as int), l, k) == if lens[n as int] as nat == l && count_len(
            lens.take(n as int),
            l,
        ) == k {
            n
        } else {
            nth_with_len(lens.take(n as int), l, k)
        },
{
    assert(lens.take((n + 1) as int).drop_last() =~= lens.take(n as int));
}

// ---------------------------------------------------------------------
// Code space
// ---------------------------------------------------------------------
/// The code space used up to length `m`, in the units of a length `l >= m`.
pub proof fn lemma_code_end_monotone(lens: Seq<u8>, m: nat, l: nat)
    requires
        m <= l,
    ensures
        code_end(lens, m) * pow2((l - m) as nat) <= code_end(lens, l),
    decreases l - m,
{
    lemma2_to64();
    if m == l {
        assert(code_end(lens, m) * 1 == code_end(lens, m));
    } else {
        let k = (l - 1) as nat;
        lemma_code_end_monotone(lens, m, k);
        lemma_pow2_step((k - m) as nat);
        assert((l - m) as nat == (k - m) as nat + 1);
        assert(code_end(lens, m) * pow2((l - m) as nat) == 2 * (code_end(lens, m) * pow2(
            (k - m) as nat,
        ))) by (nonlinear_arith)
            requires
                pow2((l - m) as nat) == 2 * pow2((k - m) as nat),
        ;
    }
}

/// Where no symbol has a length in `(m, l]`, lengthening to `l` only
/// rescales the used code space.
pub proof fn lemma_code_end_scale(lens: Seq<u8>, m: nat, l: nat)
    requires
        m <= l,
        forall|j: nat| m < j <= l ==> count_len(lens, j) == 0,
    ensures
        code_end(lens, l) == code_end(lens, m) * pow2((l - m) as nat),
    decreases l - m,
{
    lemma2_to64();
    if m == l {
        assert(code_end(lens, m) * 1 == code_end(lens, m));
    } else {
        let k = (l - 1) as nat;
        lemma_code_end_scale(lens, m, k);
        lemma_pow2_step((k - m) as nat);
        assert((l - m) as nat == (k - m) as nat + 1);
        assert(count_len(lens, l) == 0);
        assert(code_end(lens, m) * pow2((l - m) as nat) == 2 * (code_end(lens, m) * pow2(
            (k - m) as nat,
        ))) by (nonlinear_arith)
            requires
                pow2((l - m) as nat) == 2 * pow2((k - m) as nat),
        ;
    }
}

/// No symbol has a length above the bound.
pub proof fn lemma_count_len_above(lens: Seq<u8>, max: nat, l: nat)
    requires
        lens_bounded(lens, max),
        l > max,
    ensures
        count_len(lens, l) == 0,
    decreases lens.len(),
{
    if lens.len() > 0 {
        let rest = lens.drop_last();
        assert forall|i: int| 0 <= i < rest.len() implies #[trigger] rest[i] as nat <= max by {
            assert(rest[i] == lens[i]);
        }
        lemma_count_len_above(rest, max, l);
        assert(lens.last() == lens[lens.len() - 1]);
    }
}

// ---------------------------------------------------------------------
// Decoding
// ---------------------------------------------------------------------
/// A decoded length lies between the starting length and 15, and the bits
/// form a codeword of that length.
pub proof fn lemma_decode_from_range(lens: Seq<u8>, w: nat, l: nat)
    requires
        l >= 1,
    ensures
        match decode_from(lens, w, l) {
            Some((s, dl)) => l <= dl <= 15 && first_code(lens, dl) <= rev_bits(w, dl) < code_end(
                lens,
                dl,
            ) && s == nth_with_len(lens, dl, (rev_bits(w, dl) - first_code(lens, dl)) as nat),
            None => true,
        },
    decreases 16 - l,
{
    if l <= 15 {
        let c = rev_bits(w, l);
        if first_code(lens, l) <= c < code_end(lens, l) {
        } else {
            lemma_decode_from_range(lens, w, l + 1);
        }
    }
}

/// Bits that lie at or beyond the first codeword of length `l` lie beyond
/// every codeword that is shorter.
pub proof fn lemma_no_shorter_match(lens: Seq<u8>, w: nat, l: nat, j: nat)
    requires
        1 <= j < l,
        rev_bits(w, l) >= first_code(lens, l),
    ensures
        rev_bits(w, j) >= code_end(lens, j),
    decreases l - j,
{
    if j + 1 == l {
    } else {
        lemma_no_shorter_match(lens, w, l, j + 1);
    }
}

/// Bits that form a codeword of length `l` decode to its symbol.
pub proof fn lemma_decode_at(lens: Seq<u8>, w: nat, l: nat)
    requires
        1 <= l <= 15,
        first_code(lens, l) <= rev_bits(w, l) < code_end(lens, l),
    ensures
        decode_from(lens, w, 1) == Some(
            (nth_with_len(lens, l, (rev_bits(w, l) - first_code(lens, l)) as nat), l),
        ),
{
    lemma_decode_skip(lens, w, l, 1);
}

proof fn lemma_decode_skip(lens: Seq<u8>, w: nat, l: nat, j: nat)
    requires
        1 <= j <= l <= 15,
        first_code(lens, l) <= rev_bits(w, l) < code_end(lens, l),
    ensures
        decode_from(lens, w, j) == Some(
            (nth_with_len(lens, l, (rev_bits(w, l) - first_code(lens, l)) as nat), l),
        ),
    decreases l - j,
{
    if j < l {
        lemma_no_shorter_match(lens, w, l, j);
        lemma_decode_skip(lens, w, l, j + 1);
    }
}

/// Bits below the end of the codewords of length `l` decode, to a codeword
/// of length at most `l`.
pub proof fn lemma_decode_covered(lens: Seq<u8>, w: nat, l: nat)
    requires
        1 <= l <= 15,
        rev_bits(w, l) < code_end(lens, l),
    ensures
        decode_from(lens, w, 1) is Some,
        decode_from(lens, w, 1).unwrap().1 <= l,
        decode_from(lens, w, 1).unwrap().1 >= 1,
    decreases l,
{
    if rev_bits(w, l) >= first_code(lens, l) {
        lemma_decode_at(lens, w, l);
    } else {
        // below the first codeword of this length: covered at a shorter one
        assert(l > 1);
        lemma_decode_covered(lens, w, (l - 1) as nat);
    }
}

/// Decoding looks only at the bits of the codeword it finds.
pub proof fn lemma_decode_agree(lens: Seq<u8>, a: nat, b: nat, m: nat)
    requires
        a % pow2(m) == b % pow2(m),
        decode_from(lens, a, 1) is Some,
        decode_from(lens, a, 1).unwrap().1 <= m,
    ensures
        decode_from(lens, b, 1) == decode_from(lens, a, 1),
{
    lemma_decode_agree_from(lens, a, b, m, 1);
}

proof fn lemma_decode_agree_from(lens: Seq<u8>, a: nat, b: nat, m: nat, j: nat)
    requires
        j >= 1,
        a % pow2(m) == b % pow2(m),
        decode_from(lens, a, j) is Some,
        decode_from(lens, a, j).unwrap().1 <= m,
    ensures
        decode_from(lens, b, j) == decode_from(lens, a, j),
    decreases 16 - j,
{
    lemma_decode_from_range(lens, a, j);
    if j <= 15 {
        assert(j <= m);
        lemma_rev_agree(a, b, j, m);
        let c = rev_bits(a, j);
        if first_code(lens, j) <= c < code_end(lens, j) {
        } else {
            lemma_decode_agree_from(lens, a, b, m, j + 1);
        }
    }
}

/// A decoded symbol is a symbol of the code and its length is between 1
/// and 15.
pub proof fn lemma_huffman_decode_range(lens: Seq<u8>, w: nat)
    requires
        lens.len() > 0,
    ensures
        huffman_decode(lens, w).0 < lens.len(),
        1 <= huffman_decode(lens, w).1 <= 15,
{
    reveal(huffman_decode);
    if is_single_code(lens) {
        lemma_nth_with_len(lens, 1, 0);
    } else {
        lemma_decode_from_range(lens, w, 1);
        match decode_from(lens, w, 1) {
            Some((s, dl)) => {
                lemma_nth_with_len(lens, dl, (rev_bits(w, dl) - first_code(lens, dl)) as nat);
            },
            None => {},
        }
    }
}

/// Decoding looks only at the bits of the codeword it finds: words that
/// agree on at least that many low bits decode alike.
pub proof fn lemma_huffman_decode_agree(lens: Seq<u8>, a: nat, b: nat, m: nat)
    requires
        code_is_valid(lens),
        a % pow2(m) == b % pow2(m),
        huffman_decode(lens, a).1 <= m,
    ensures
        huffman_decode(lens, b) == huffman_decode(lens, a),
{
    reveal(huffman_decode);
    if is_single_code(lens) {
    } else if is_empty_code(lens) {
        lemma_empty_code_decodes_nothing(lens, a, 1);
        lemma_empty_code_decodes_nothing(lens, b, 1);
    } else {
        lemma_rev_bound(a, 15);
        lemma2_to64();
        lemma_decode_covered(lens, a, 15);
        lemma_decode_agree(lens, a, b, m);
    }
}

/// With no codeword at all nothing decodes.
pub proof fn lemma_empty_code_decodes_nothing(lens: Seq<u8>, w: nat, l: nat)
    requires
        is_empty_code(lens),
        l >= 1,
    ensures
        decode_from(lens, w, l) is None,
    decreases 16 - l,
{
    if l <= 15 {
        lemma_code_end_monotone(lens, l, 15);
        lemma_pow2_pos((15 - l) as nat);
        assert(code_end(lens, l) == 0) by (nonlinear_arith)
            requires
                code_end(lens, l) * pow2((15 - l) as nat) <= 0,
                pow2((15 - l) as nat) > 0,
        ;
        lemma_empty_code_decodes_nothing(lens, w, l + 1);
    }
}

} // verus!
