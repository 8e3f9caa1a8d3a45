//! What the construction of a decode table knows while it walks through
//! the codewords in canonical order.
//!
//! The walk keeps the value of the next codeword beside its form in stream
//! bit order, so that "the table is right for every codeword passed" can be
//! said as "for every value below the current one".
use vstd::prelude::*;
use vstd::arithmetic::power2::{pow2, lemma_pow2_pos, lemma2_to64};
use vstd::arithmetic::div_mod::{
    lemma_fundamental_div_mod, lemma_fundamental_div_mod_converse, lemma_mod_bound,
};
use vstd::arithmetic::mul::lemma_mul_is_commutative;
use crate::bits::{
    lemma_mod_pow2_split, lemma_pow2_monotone, lemma_pow2_split, lemma_pow2_step,
    lemma_small_pow2,
};
use crate::builder::{is_sorted_by_code, sorted_index};
use crate::huffman::{
    code_end, code_is_valid, code_space, count_below, count_len, first_code, is_complete_code,
    is_empty_code, is_single_code, lemma_code_end_monotone, lemma_code_end_scale,
    lemma_count_len_bound, lemma_nth_with_len, lemma_rev_all_ones, lemma_rev_injective,
    nth_with_len, rev_bits,
};
use crate::table::{lemma_prefix_split, lemma_quot_rest, lemma_rev_extend, lemma_scale_order};

verus! {

// ---------------------------------------------------------------------
// The walk through the codewords in canonical order
// ---------------------------------------------------------------------
/// What the walk knows at a codeword: `len` is the current length, `count`
/// codewords of it are left, `codeword` is the next one in stream bit order
/// and `c` its value, `i` is the place of its symbol in the sorted order.
pub open spec fn walk_inv(lens: Seq<u8>, len: nat, count: nat, c: nat, codeword: nat, i: nat) -> bool {
    &&& 1 <= len <= 15
    &&& c + count == code_end(lens, len)
    &&& count <= count_len(lens, len)
    &&& rev_bits(codeword, len) == c
    &&& codeword < pow2(len)
    &&& c < pow2(len)
    &&& i + count == count_below(lens, len + 1)
    &&& is_complete_code(lens)
}

/// The symbol at the current place is the one the current codeword belongs
/// to.
pub proof fn lemma_walk_symbol(
    lens: Seq<u8>,
    sorted: Seq<u16>,
    len: nat,
    count: nat,
    c: nat,
    codeword: nat,
    i: nat,
)
    requires
        walk_inv(lens, len, count, c, codeword, i),
        count >= 1,
        is_sorted_by_code(sorted, lens),
    ensures
        first_code(lens, len) <= c < code_end(lens, len),
        i < sorted.len(),
        sorted[i as int] as nat == nth_with_len(lens, len, (c - first_code(lens, len)) as nat),
        (sorted[i as int] as nat) < lens.len(),
{
    let k = (count_len(lens, len) - count) as nat;
    assert(code_end(lens, len) == first_code(lens, len) + count_len(lens, len));
    assert(count_below(lens, len + 1) == count_below(lens, len) + count_len(lens, len));
    assert(i == sorted_index(lens, len, k));
    lemma_nth_with_len(lens, len, k);
}

/// A codeword of all ones is the last one: its value fills the code space.
pub proof fn lemma_walk_last(lens: Seq<u8>, len: nat, count: nat, c: nat, codeword: nat, i: nat)
    requires
        walk_inv(lens, len, count, c, codeword, i),
    ensures
        codeword == pow2(len) - 1 <==> c + 1 == pow2(len),
{
    lemma_rev_all_ones(len);
    if c + 1 == pow2(len) {
        lemma_rev_injective(codeword, (pow2(len) - 1) as nat, len);
        lemma_small_pow2(codeword, len);
        lemma_small_pow2((pow2(len) - 1) as nat, len);
    }
}

/// After a codeword that is not the last one.
pub proof fn lemma_walk_next(
    lens: Seq<u8>,
    len: nat,
    count: nat,
    c: nat,
    codeword: nat,
    next: nat,
    i: nat,
)
    requires
        walk_inv(lens, len, count, c, codeword, i),
        count >= 1,
        codeword != pow2(len) - 1,
        next < pow2(len),
        rev_bits(next, len) == c + 1,
    ensures
        walk_inv(lens, len, (count - 1) as nat, c + 1, next, i + 1),
{
    lemma_walk_last(lens, len, count, c, codeword, i);
}

/// When the codewords of a length are used up there is a longer length, and
/// the walk goes on there with a zero bit appended.
pub proof fn lemma_walk_lengthen(lens: Seq<u8>, len: nat, c: nat, codeword: nat, i: nat)
    requires
        walk_inv(lens, len, 0, c, codeword, i),
    ensures
        len < 15,
        walk_inv(lens, len + 1, count_len(lens, len + 1), 2 * c, codeword, i),
{
    lemma2_to64();
    lemma_rev_extend(codeword, len);
    lemma_pow2_step(len);
    assert(code_end(lens, len + 1) == 2 * code_end(lens, len) + count_len(lens, len + 1));
    assert(count_below(lens, len + 2) == count_below(lens, len + 1) + count_len(lens, len + 1));
}

/// The used code space is bounded by the number of symbols.
pub proof fn lemma_code_end_bound(lens: Seq<u8>, l: nat)
    ensures
        code_end(lens, l) + lens.len() <= lens.len() * pow2(l),
    decreases l,
{
    lemma2_to64();
    if l == 0 {
        assert(lens.len() * 1 == lens.len());
    } else {
        lemma_code_end_bound(lens, (l - 1) as nat);
        lemma_count_len_bound(lens, l);
        lemma_pow2_step((l - 1) as nat);
        assert(lens.len() * pow2(l) == 2 * (lens.len() * pow2((l - 1) as nat))) by (nonlinear_arith)
            requires
                pow2(l) == 2 * pow2((l - 1) as nat),
        ;
    }
}

/// A codeword value that is a multiple of `2^over` is, with a zero bit
/// appended, a multiple of `2^(over + 1)`.
pub proof fn lemma_scaled_value_doubles(c: nat, pc: nat, over: nat)
    requires
        over == 0 ==> c == pc,
        over > 0 ==> c == pc * pow2(over),
    ensures
        2 * c == pc * pow2(over + 1),
{
    lemma2_to64();
    lemma_pow2_step(over);
    assert(pc * pow2(0) == pc);
    assert(2 * (pc * pow2(over)) == pc * pow2(over + 1)) by (nonlinear_arith)
        requires
            pow2(over + 1) == 2 * pow2(over),
    ;
}

/// The code space that a code of at most 288 symbols uses up to a length
/// of at most 15 fits 32 bits.
pub proof fn lemma_code_end_fits(lens: Seq<u8>, l: nat)
    requires
        lens.len() <= 288,
        1 <= l <= 15,
    ensures
        code_end(lens, l) == 2 * code_end(lens, (l - 1) as nat) + count_len(lens, l),
        code_end(lens, l) <= 288 * 32768,
        count_len(lens, l) <= 288,
{
    lemma2_to64();
    lemma_code_end_bound(lens, l);
    lemma_pow2_monotone(l, 15);
    lemma_count_len_bound(lens, l);
    assert(lens.len() * pow2(l) <= 288 * 32768) by (nonlinear_arith)
        requires
            lens.len() <= 288,
            pow2(l) <= 32768,
    ;
}

/// What the code space used at the longest length `m` says about the code:
/// its share of the `2^m` codewords of that length is its share of the whole
/// code space.
pub proof fn lemma_code_space_at(lens: Seq<u8>, m: nat)
    requires
        1 <= m <= 15,
        forall|l: nat| m < l ==> #[trigger] count_len(lens, l) == 0,
    ensures
        code_end(lens, m) > pow2(m) ==> !code_is_valid(lens),
        code_end(lens, m) == pow2(m) <==> is_complete_code(lens),
        code_end(lens, m) == 0 <==> is_empty_code(lens),
        (code_end(lens, m) == pow2((m - 1) as nat) && count_len(lens, 1) == 1) <==> is_single_code(
            lens,
        ),
        pow2(m) <= 32768,
        pow2((m - 1) as nat) < pow2(m),
{
    lemma2_to64();
    let used = code_end(lens, m);
    let k = pow2((15 - m) as nat);
    lemma_code_end_scale(lens, m, 15);
    lemma_pow2_split(m, (15 - m) as nat);
    lemma_pow2_split((m - 1) as nat, (15 - m) as nat);
    lemma_pow2_step((m - 1) as nat);
    lemma_pow2_monotone(m, 15);
    lemma_scale_order(used, pow2(m), k);
    lemma_scale_order(used, pow2((m - 1) as nat), k);
    lemma_scale_order(used, 0, k);
    assert(code_space(lens) == used * k);
    assert(pow2(m) * k == 32768);
    assert(pow2((m - 1) as nat) * k == 16384) by (nonlinear_arith)
        requires
            (2 * pow2((m - 1) as nat)) * k == 32768,
    ;
    assert(0 * k == 0);
}

/// A subtable that was sized for the codewords of its prefix has room for
/// every codeword that begins with the prefix.
pub proof fn lemma_subtable_has_room(lens: Seq<u8>, tb: nat, sb: nat, len: nat, c: nat, p: nat)
    requires
        tb + sb <= 15,
        tb < len <= 15,
        code_end(lens, tb + sb) >= (p + 1) * pow2(sb),
        first_code(lens, len) <= c,
        c < (p + 1) * pow2((len - tb) as nat),
    ensures
        len <= tb + sb,
{
    if len > tb + sb {
        let r = tb + sb;
        let d = (len - 1 - r) as nat;
        lemma_code_end_monotone(lens, r, (len - 1) as nat);
        lemma_pow2_step(d);
        lemma_pow2_split(sb, d + 1);
        assert(sb + (d + 1) == (len - tb) as nat);
        let ce = code_end(lens, r);
        let q = pow2(sb);
        let e = pow2(d + 1);
        assert(first_code(lens, len) == 2 * code_end(lens, (len - 1) as nat));
        assert(ce * e <= first_code(lens, len)) by (nonlinear_arith)
            requires
                ce * pow2(d) <= code_end(lens, (len - 1) as nat),
                e == 2 * pow2(d),
                first_code(lens, len) == 2 * code_end(lens, (len - 1) as nat),
        ;
        assert((p + 1) * (q * e) <= ce * e) by (nonlinear_arith)
            requires
                ce >= (p + 1) * q,
                e >= 0,
        ;
        assert(false);
    }
}

/// Where the codeword value `c = pv * k + rest` lies just after a codeword
/// with prefix `p` but does not have prefix `p` itself, it is the first
/// codeword of the next prefix.
pub proof fn lemma_next_prefix(c: nat, pv: nat, rest: nat, k: nat, p: nat)
    requires
        c == pv * k + rest,
        rest < k,
        p * k < c <= (p + 1) * k,
        pv != p,
    ensures
        pv == p + 1,
        rest == 0,
{
    lemma_quot_rest(pv, rest, k, p);
    lemma_quot_rest(pv, rest, k, p + 2);
    assert((p + 2) * k > (p + 1) * k) by (nonlinear_arith)
        requires
            k > 0,
    ;
    assert((p + 1) * k + 0 <= pv * k + rest ==> pv >= p + 1);
    assert(pv * k == (p + 1) * k);
}

/// Sizes of the table and its subtables stay below what a payload holds.
pub proof fn lemma_subtable_extent(tb: nat, sb: nat, p_old: int, p: nat, old_end: nat)
    requires
        1 <= tb <= 15,
        tb + sb <= 15,
        p < pow2(tb),
        p_old < p,
        old_end <= pow2(tb) + (p_old + 1) * pow2((15 - tb) as nat),
    ensures
        old_end < 65536,
        old_end + pow2(sb) <= pow2(tb) + (p + 1) * pow2((15 - tb) as nat),
        old_end + pow2(sb) <= 65536,
{
    lemma2_to64();
    let u = pow2((15 - tb) as nat);
    lemma_pow2_split(tb, (15 - tb) as nat);
    lemma_pow2_monotone(sb, (15 - tb) as nat);
    lemma_pow2_monotone(tb, 15);
    assert((p_old + 1) * u <= p * u) by (nonlinear_arith)
        requires
            p_old + 1 <= p,
            u >= 0,
    ;
    assert((p + 1) * u == p * u + u) by (nonlinear_arith);
    assert((p + 1) * u <= pow2(tb) * u) by (nonlinear_arith)
        requires
            p + 1 <= pow2(tb),
            u >= 0,
    ;
    assert(u >= 1);
}

// ---------------------------------------------------------------------
// The subtable that is being filled
// ---------------------------------------------------------------------
/// What is known of the current subtable before a codeword is looked at.
///
/// With a subtable open, the last codeword belonged to its prefix `cur_p`,
/// the subtable has `2^sb` entries from `start` to `end`, and the codewords
/// of length at most `tb + sb` fill the prefix. Before the first subtable
/// the walk stands at a prefix boundary.
#[verifier::opaque]
pub open spec fn sub_head(
    lens: Seq<u8>,
    tb: nat,
    len: nat,
    c: nat,
    pc: nat,
    has_sub: bool,
    prefix: nat,
    sb: nat,
    cur_p: nat,
    start: nat,
    end: nat,
) -> bool {
    if has_sub {
        &&& prefix < pow2(tb)
        &&& end == start + pow2(sb)
        &&& tb + sb <= 15
        &&& cur_p == rev_bits(prefix, tb)
        &&& cur_p * pow2((len - tb) as nat) < c <= (cur_p + 1) * pow2((len - tb) as nat)
        &&& code_end(lens, tb + sb) >= (cur_p + 1) * pow2(sb)
        &&& end <= pow2(tb) + (cur_p + 1) * pow2((15 - tb) as nat)
    } else {
        &&& prefix >= pow2(tb)
        &&& c == pc * pow2((len - tb) as nat)
        &&& end == pow2(tb)
        &&& start == pow2(tb)
    }
}

/// What is known of the current subtable while a codeword of its prefix is
/// handled.
#[verifier::opaque]
pub open spec fn sub_mid(
    lens: Seq<u8>,
    tb: nat,
    len: nat,
    c: nat,
    prefix: nat,
    sb: nat,
    cur_p: nat,
    start: nat,
    end: nat,
) -> bool {
    &&& prefix < pow2(tb)
    &&& end == start + pow2(sb)
    &&& tb + sb <= 15
    &&& cur_p == rev_bits(prefix, tb)
    &&& cur_p * pow2((len - tb) as nat) <= c < (cur_p + 1) * pow2((len - tb) as nat)
    &&& code_end(lens, tb + sb) >= (cur_p + 1) * pow2(sb)
    &&& end <= pow2(tb) + (cur_p + 1) * pow2((15 - tb) as nat)
}

/// A codeword whose prefix differs from that of the current subtable is the
/// first codeword of its prefix.
#[verifier::rlimit(40)]
pub proof fn lemma_sub_new(
    lens: Seq<u8>,
    tb: nat,
    len: nat,
    count: nat,
    c: nat,
    codeword: nat,
    i: nat,
    pc: nat,
    has_sub: bool,
    prefix: nat,
    sb: nat,
    cur_p: nat,
    start: nat,
    end: nat,
)
    requires
        1 <= tb < len <= 15,
        walk_inv(lens, len, count, c, codeword, i),
        sub_head(lens, tb, len, c, pc, has_sub, prefix, sb, cur_p, start, end),
        codeword % pow2(tb) != prefix,
    ensures
        c == rev_bits(codeword % pow2(tb), tb) * pow2((len - tb) as nat),
        rev_bits(codeword % pow2(tb), tb) < pow2(tb),
        (if has_sub {
            cur_p as int
        } else {
            -1
        }) < rev_bits(codeword % pow2(tb), tb),
        end <= pow2(tb) + ((if has_sub {
            cur_p as int
        } else {
            -1
        }) + 1) * pow2((15 - tb) as nat),
        has_sub ==> prefix < pow2(tb) && end == start + pow2(sb),
        count + rev_bits(codeword % pow2(tb), tb) * pow2((len - tb) as nat) == code_end(
            lens,
            tb + (len - tb) as nat,
        ),
{
    reveal(sub_head);
    let k = pow2((len - tb) as nat);
    let pv = rev_bits(codeword % pow2(tb), tb);
    let rest = rev_bits(codeword / pow2(tb), (len - tb) as nat);
    lemma_prefix_split(codeword, tb, len);
    lemma_pow2_pos((len - tb) as nat);
    lemma_pow2_pos(tb);
    lemma_mod_bound(codeword as int, pow2(tb) as int);
    if has_sub {
        if pv == cur_p {
            lemma_rev_injective(codeword % pow2(tb), prefix, tb);
            lemma_small_pow2(codeword % pow2(tb), tb);
            lemma_small_pow2(prefix, tb);
        }
        lemma_next_prefix(c, pv, rest, k, cur_p);
    } else {
        if rest != 0 {
            lemma_quot_rest(pv, rest, k, pc);
            lemma_quot_rest(pv, rest, k, pc + 1);
            assert((pc + 1) * k == pc * k + k) by (nonlinear_arith);
            assert(false);
        }
        assert(0 * pow2((15 - tb) as nat) == 0);
    }
    assert(tb + (len - tb) as nat == len);
}

/// A codeword with the prefix of the current subtable belongs to it.
pub proof fn lemma_sub_same(
    lens: Seq<u8>,
    tb: nat,
    len: nat,
    count: nat,
    c: nat,
    codeword: nat,
    i: nat,
    pc: nat,
    has_sub: bool,
    prefix: nat,
    sb: nat,
    cur_p: nat,
    start: nat,
    end: nat,
)
    requires
        1 <= tb < len <= 15,
        walk_inv(lens, len, count, c, codeword, i),
        sub_head(lens, tb, len, c, pc, has_sub, prefix, sb, cur_p, start, end),
        codeword % pow2(tb) == prefix,
    ensures
        has_sub,
        sub_mid(lens, tb, len, c, prefix, sb, cur_p, start, end),
{
    reveal(sub_head);
    reveal(sub_mid);
    let k = pow2((len - tb) as nat);
    let rest = rev_bits(codeword / pow2(tb), (len - tb) as nat);
    lemma_prefix_split(codeword, tb, len);
    lemma_pow2_pos(tb);
    lemma_mod_bound(codeword as int, pow2(tb) as int);
    assert((cur_p + 1) * k == cur_p * k + k) by (nonlinear_arith);
}

/// One more length is brought into the subtable that is being sized; the
/// code space cannot run out before the subtable is full.
pub proof fn lemma_sizing_step(lens: Seq<u8>, tb: nat, sb: nat, pv: nat, used: nat)
    requires
        is_complete_code(lens),
        lens.len() <= 288,
        tb + sb <= 15,
        pv < pow2(tb),
        used < pow2(sb),
        used + pv * pow2(sb) == code_end(lens, tb + sb),
    ensures
        tb + sb < 15,
        2 * used + count_len(lens, tb + sb + 1) + pv * pow2(sb + 1) == code_end(
            lens,
            tb + sb + 1,
        ),
        2 * used + count_len(lens, tb + sb + 1) <= 65536 + 288,
        pow2(sb + 1) == 2 * pow2(sb),
        pow2(sb) <= 32768,
{
    lemma2_to64();
    lemma_pow2_split(tb, sb);
    lemma_pow2_step(sb);
    lemma_pow2_monotone(sb, 15);
    assert((pv + 1) * pow2(sb) <= pow2(tb) * pow2(sb)) by (nonlinear_arith)
        requires
            pv + 1 <= pow2(tb),
            pow2(sb) >= 0,
    ;
    assert((pv + 1) * pow2(sb) == pv * pow2(sb) + pow2(sb)) by (nonlinear_arith);
    if tb + sb == 15 {
        assert(false);
    }
    assert(pv * pow2(sb + 1) == 2 * (pv * pow2(sb))) by (nonlinear_arith)
        requires
            pow2(sb + 1) == 2 * pow2(sb),
    ;
    assert(code_end(lens, tb + sb + 1) == 2 * code_end(lens, tb + sb) + count_len(
        lens,
        tb + sb + 1,
    ));
    lemma_count_len_bound(lens, tb + sb + 1);
}

/// A subtable that was just sized and opened.
pub proof fn lemma_sub_opened(
    lens: Seq<u8>,
    tb: nat,
    len: nat,
    c: nat,
    prefix: nat,
    sb: nat,
    pv: nat,
    start: nat,
    end: nat,
    used: nat,
)
    requires
        1 <= tb < len <= 15,
        tb + sb <= 15,
        prefix < pow2(tb),
        pv == rev_bits(prefix, tb),
        c == pv * pow2((len - tb) as nat),
        used >= pow2(sb),
        used + pv * pow2(sb) == code_end(lens, tb + sb),
        end == start + pow2(sb),
        end <= pow2(tb) + (pv + 1) * pow2((15 - tb) as nat),
    ensures
        sub_mid(lens, tb, len, c, prefix, sb, pv, start, end),
{
    reveal(sub_mid);
    lemma_pow2_pos((len - tb) as nat);
    assert((pv + 1) * pow2((len - tb) as nat) == pv * pow2((len - tb) as nat) + pow2(
        (len - tb) as nat,
    )) by (nonlinear_arith);
    assert((pv + 1) * pow2(sb) == pv * pow2(sb) + pow2(sb)) by (nonlinear_arith);
}

/// The current subtable has room for the current codeword.
#[verifier::rlimit(40)]
pub proof fn lemma_sub_room(
    lens: Seq<u8>,
    tb: nat,
    len: nat,
    count: nat,
    c: nat,
    codeword: nat,
    i: nat,
    prefix: nat,
    sb: nat,
    cur_p: nat,
    start: nat,
    end: nat,
)
    requires
        1 <= tb < len <= 15,
        count >= 1,
        walk_inv(lens, len, count, c, codeword, i),
        sub_mid(lens, tb, len, c, prefix, sb, cur_p, start, end),
    ensures
        len <= tb + sb <= 15,
        end == start + pow2(sb),
        pow2((len - tb) as nat) <= pow2(sb),
        pow2(sb) <= 32768,
        pow2((len - tb) as nat) >= 1,
        codeword / pow2(tb) < pow2((len - tb) as nat),
        prefix < pow2(tb),
{
    reveal(sub_mid);
    lemma2_to64();
    assert(code_end(lens, len) == first_code(lens, len) + count_len(lens, len));
    lemma_subtable_has_room(lens, tb, sb, len, c, cur_p);
    lemma_pow2_monotone((len - tb) as nat, sb);
    lemma_pow2_monotone(sb, 15);
    assert(tb + (len - tb) as nat == len);
    lemma_join_high(codeword, tb, (len - tb) as nat);
}

/// After a codeword of the current subtable.
pub proof fn lemma_sub_step(
    lens: Seq<u8>,
    tb: nat,
    len: nat,
    c: nat,
    pc: nat,
    prefix: nat,
    sb: nat,
    cur_p: nat,
    start: nat,
    end: nat,
)
    requires
        sub_mid(lens, tb, len, c, prefix, sb, cur_p, start, end),
    ensures
        sub_head(lens, tb, len, c + 1, pc, true, prefix, sb, cur_p, start, end),
{
    reveal(sub_mid);
    reveal(sub_head);
}

/// Going on to the next codeword length within the current subtable.
pub proof fn lemma_sub_lengthen(
    lens: Seq<u8>,
    tb: nat,
    len: nat,
    c: nat,
    pc: nat,
    prefix: nat,
    sb: nat,
    cur_p: nat,
    start: nat,
    end: nat,
)
    requires
        tb < len,
        sub_head(lens, tb, len, c, pc, true, prefix, sb, cur_p, start, end),
    ensures
        sub_head(lens, tb, len + 1, 2 * c, pc, true, prefix, sb, cur_p, start, end),
{
    reveal(sub_head);
    let d = (len - tb) as nat;
    lemma_pow2_step(d);
    assert((len + 1 - tb) as nat == d + 1);
    assert(cur_p * pow2(d + 1) == 2 * (cur_p * pow2(d))) by (nonlinear_arith)
        requires
            pow2(d + 1) == 2 * pow2(d),
    ;
    assert((cur_p + 1) * pow2(d + 1) == 2 * ((cur_p + 1) * pow2(d))) by (nonlinear_arith)
        requires
            pow2(d + 1) == 2 * pow2(d),
    ;
}

/// The bits of a word above its low `t` bits, for a word of `t + r` bits.
pub proof fn lemma_join_high(w: nat, t: nat, r: nat)
    requires
        w < pow2(t + r),
    ensures
        w / pow2(t) < pow2(r),
{
    lemma_mod_pow2_split(w, t, r);
    lemma_small_pow2(w, t + r);
    lemma_pow2_pos(r);
    lemma_mod_bound((w / pow2(t)) as int, pow2(r) as int);
}

/// A number has the rest `r` modulo `k` exactly when it is `r` plus a
/// multiple of `k`.
pub proof fn lemma_residue(x: nat, r: nat, k: nat)
    requires
        r < k,
    ensures
        x % k == r <==> (x >= r && (x - r) % (k as int) == 0),
{
    lemma_fundamental_div_mod(x as int, k as int);
    if x % k == r {
        lemma_mul_is_commutative(k as int, (x as int) / (k as int));
        lemma_fundamental_div_mod_converse(x - r, k as int, (x as int) / (k as int), 0);
    }
    if x >= r && (x - r) % (k as int) == 0 {
        lemma_fundamental_div_mod(x - r, k as int);
        lemma_mul_is_commutative(k as int, (x - r) / (k as int));
        lemma_fundamental_div_mod_converse(x as int, k as int, (x - r) / (k as int), r as int);
    }
}

} // verus!
