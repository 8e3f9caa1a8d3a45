//! Construction of the flat decode tables.
//!
//! A table answers, for the next bits `w` of the stream, which symbol the
//! bits decode to. The primary part is indexed by the low `table_bits` bits
//! of `w`; a codeword that is longer than that is reached through a pointer
//! entry and a subtable indexed by the bits that follow.
use vstd::prelude::*;
use vstd::arithmetic::power2::{pow2, lemma_pow2_pos};
use vstd::arithmetic::div_mod::{lemma_fundamental_div_mod, lemma_mod_bound};
use crate::bits::{
    lemma_join_pow2, lemma_mod_pow2_narrow, lemma_mod_pow2_split, lemma_pow2_step,
    lemma_small_pow2,
};
use crate::entries::{
    entry_code_bits, entry_kind, entry_payload, entry_total_bits, kind_subtable, make_entry,
};
use crate::huffman::{
    code_end, first_code, huffman_decode, is_complete_code, is_empty_code, is_single_code,
    lemma_decode_at, lemma_empty_code_decodes_nothing, lemma_huffman_decode_agree,
    lemma_rev_agree, lemma_rev_bound, lemma_rev_concat, lemma_rev_injective, lemma_rev_low_bits,
    nth_with_len, rev_bits,
};

verus! {

/// The entry that the symbol decoded from `w` gets where `used` bits of its
/// codeword were consumed on the way.
pub open spec fn symbol_entry(results: Seq<u32>, lens: Seq<u8>, w: nat, used: nat) -> u32 {
    make_entry(
        results[huffman_decode(lens, w).0 as int],
        (huffman_decode(lens, w).1 - used) as nat,
    )
}

/// The table serves the bits `w`: the primary entry at the low `tb` bits
/// is the entry of the decoded symbol, or, where the codeword is longer
/// than `tb` bits, points to a subtable inside the table whose entry at the
/// following bits is.
pub open spec fn entry_ok(table: Seq<u32>, results: Seq<u32>, lens: Seq<u8>, tb: nat, w: nat) -> bool {
    let l = huffman_decode(lens, w).1;
    let e = table[(w % pow2(tb)) as int];
    if l <= tb {
        e == symbol_entry(results, lens, w, 0)
    } else {
        &&& entry_kind(e) == kind_subtable()
        &&& entry_total_bits(e) == tb
        &&& l <= tb + entry_code_bits(e) <= 15
        &&& pow2(tb) <= entry_payload(e)
        &&& entry_payload(e) + pow2(entry_code_bits(e)) <= table.len()
        &&& table[(entry_payload(e) + (w / pow2(tb)) % pow2(entry_code_bits(e))) as int]
            == symbol_entry(results, lens, w, tb)
    }
}

/// The table decodes the code `lens`: it serves every bit string.
#[verifier::opaque]
pub open spec fn table_decodes(table: Seq<u32>, results: Seq<u32>, lens: Seq<u8>, tb: nat) -> bool {
    &&& pow2(tb) <= table.len()
    &&& forall|w: nat| #[trigger] entry_ok(table, results, lens, tb, w)
}

// ---------------------------------------------------------------------
// Arithmetic used by the construction
// ---------------------------------------------------------------------
/// Scaling by a positive factor keeps order and equality.
pub proof fn lemma_scale_order(a: nat, b: nat, k: nat)
    requires
        k > 0,
    ensures
        a < b <==> a * k < b * k,
        a == b <==> a * k == b * k,
        a > b <==> a * k > b * k,
{
    assert(a < b ==> a * k < b * k) by (nonlinear_arith)
        requires
            k > 0,
    ;
    assert(a > b ==> a * k > b * k) by (nonlinear_arith)
        requires
            k > 0,
    ;
}

/// No bits set read as zero.
pub proof fn lemma_rev_zero(l: nat)
    ensures
        rev_bits(0, l) == 0,
    decreases l,
{
    if l > 0 {
        lemma_rev_zero((l - 1) as nat);
        lemma_pow2_pos((l - 1) as nat);
        lemma_small_pow2(0, (l - 1) as nat);
    }
}

/// Reading one bit more of a word that has no more bits appends a zero.
pub proof fn lemma_rev_extend(w: nat, l: nat)
    requires
        w < pow2(l),
    ensures
        rev_bits(w, l + 1) == 2 * rev_bits(w, l),
        w < pow2(l + 1),
{
    lemma_small_pow2(w, l);
    lemma_pow2_step(l);
}

/// The first `t` bits of a codeword of `len >= t` bits are its prefix.
pub proof fn lemma_prefix_split(w: nat, t: nat, len: nat)
    requires
        t <= len,
    ensures
        rev_bits(w, len) == rev_bits(w % pow2(t), t) * pow2((len - t) as nat) + rev_bits(
            w / pow2(t),
            (len - t) as nat,
        ),
        rev_bits(w / pow2(t), (len - t) as nat) < pow2((len - t) as nat),
        rev_bits(w % pow2(t), t) < pow2(t),
        rev_bits(w % pow2(t), t) == rev_bits(w, t),
{
    lemma_pow2_pos(t);
    lemma_rev_concat(w, t, (len - t) as nat);
    lemma_rev_low_bits(w, t, t);
    lemma_rev_bound(w / pow2(t), (len - t) as nat);
    lemma_rev_bound(w % pow2(t), t);
    assert(t + (len - t) as nat == len);
}

/// From `a * k + r` with `r < k` the quotient and the rest can be read.
pub proof fn lemma_quot_rest(a: nat, r: nat, k: nat, b: nat)
    requires
        r < k,
    ensures
        (a * k + r < b * k) <==> a < b,
        (a * k + r >= b * k) <==> a >= b,
{
    assert(a < b ==> a * k + r < b * k) by (nonlinear_arith)
        requires
            r < k,
    ;
    assert(a >= b ==> a * k + r >= b * k) by (nonlinear_arith)
        requires
            r < k,
    ;
}

// ---------------------------------------------------------------------
// The primary table while it is built
// ---------------------------------------------------------------------
/// The primary entry at `idx` is the entry of the symbol that `idx`
/// decodes to, which has at most `len` bits.
pub open spec fn direct_ok(table: Seq<u32>, results: Seq<u32>, lens: Seq<u8>, len: nat, idx: nat) -> bool {
    huffman_decode(lens, idx).1 <= len && table[idx as int] == symbol_entry(results, lens, idx, 0)
}

/// Seen as a table of `2^len` entries, the table is right wherever the
/// index reads as a codeword value below `c`.
pub open spec fn primary_ok(table: Seq<u32>, results: Seq<u32>, lens: Seq<u8>, len: nat, c: nat) -> bool {
    &&& pow2(len) <= table.len()
    &&& forall|idx: nat|
        idx < pow2(len) && rev_bits(idx, len) < c ==> #[trigger] direct_ok(
            table,
            results,
            lens,
            len,
            idx,
        )
}

/// Writing the entry of the codeword with value `c` extends the part of the
/// table that is right by that codeword.
pub proof fn lemma_primary_write(
    table: Seq<u32>,
    results: Seq<u32>,
    lens: Seq<u8>,
    len: nat,
    c: nat,
    codeword: nat,
    sym: nat,
)
    requires
        primary_ok(table, results, lens, len, c),
        is_complete_code(lens),
        1 <= len <= 15,
        codeword < pow2(len),
        rev_bits(codeword, len) == c,
        first_code(lens, len) <= c < code_end(lens, len),
        sym == nth_with_len(lens, len, (c - first_code(lens, len)) as nat),
    ensures
        primary_ok(
            table.update(codeword as int, make_entry(results[sym as int], len)),
            results,
            lens,
            len,
            c + 1,
        ),
{
    reveal(huffman_decode);
    let e = make_entry(results[sym as int], len);
    let t2 = table.update(codeword as int, e);
    assert forall|idx: nat| idx < pow2(len) && rev_bits(idx, len) < c + 1 implies #[trigger] direct_ok(
        t2,
        results,
        lens,
        len,
        idx,
    ) by {
        if rev_bits(idx, len) < c {
            assert(direct_ok(table, results, lens, len, idx));
            assert(idx != codeword);
        } else {
            lemma_rev_injective(idx, codeword, len);
            lemma_small_pow2(idx, len);
            lemma_small_pow2(codeword, len);
            assert(idx == codeword);
            lemma_decode_at(lens, idx, len);
        }
    }
}

/// Copying the first half of the table onto the second doubles the part
/// that is right.
#[verifier::rlimit(40)]
pub proof fn lemma_primary_double(
    old_t: Seq<u32>,
    new_t: Seq<u32>,
    results: Seq<u32>,
    lens: Seq<u8>,
    len: nat,
    c: nat,
)
    requires
        primary_ok(old_t, results, lens, len, c),
        is_complete_code(lens),
        len < 15,
        pow2(len + 1) <= new_t.len(),
        forall|k: int|
            0 <= k < pow2(len) ==> new_t[k] == old_t[k] && new_t[k + pow2(len)] == old_t[k],
    ensures
        primary_ok(new_t, results, lens, len + 1, 2 * c),
{
    reveal(huffman_decode);
    lemma_pow2_step(len);
    assert forall|idx: nat| idx < pow2(len + 1) && rev_bits(idx, len + 1) < 2 * c implies #[trigger] direct_ok(
        new_t,
        results,
        lens,
        len + 1,
        idx,
    ) by {
        let lo = idx % pow2(len);
        lemma_mod_bound(idx as int, pow2(len) as int);
        lemma_rev_low_bits(idx, len, len);
        assert(rev_bits(lo, len) == rev_bits(idx, len));
        assert(rev_bits(lo, len) < c);
        assert(direct_ok(old_t, results, lens, len, lo));
        lemma_small_pow2(lo, len);
        lemma_huffman_decode_agree(lens, lo, idx, len);
        lemma_fundamental_div_mod(idx as int, pow2(len) as int);
        if idx < pow2(len) {
            lemma_small_pow2(idx, len);
            assert(new_t[idx as int] == old_t[lo as int]);
        } else {
            let k = (idx - pow2(len)) as nat;
            lemma_join_pow2(k, 1, len);
            assert(idx == k + pow2(len) * 1);
            assert(lo == k);
            assert(new_t[(k + pow2(len)) as int] == old_t[k as int]);
        }
    }
}

/// A primary table that is right everywhere decodes the code.
pub proof fn lemma_primary_finish(table: Seq<u32>, results: Seq<u32>, lens: Seq<u8>, tb: nat)
    requires
        primary_ok(table, results, lens, tb, pow2(tb)),
        is_complete_code(lens),
    ensures
        table_decodes(table, results, lens, tb),
{
    reveal(table_decodes);
    assert forall|w: nat| #[trigger] entry_ok(table, results, lens, tb, w) by {
        lemma_rev_bound(w, tb);
        lemma_primary_serves(table, results, lens, tb, pow2(tb), w);
    }
}

/// Where the primary table is right for the first `tb` bits of `w`, it
/// serves `w`.
pub proof fn lemma_primary_serves(
    table: Seq<u32>,
    results: Seq<u32>,
    lens: Seq<u8>,
    tb: nat,
    c: nat,
    w: nat,
)
    requires
        primary_ok(table, results, lens, tb, c),
        is_complete_code(lens),
        rev_bits(w, tb) < c,
    ensures
        entry_ok(table, results, lens, tb, w),
        huffman_decode(lens, w).1 <= tb,
{
    reveal(huffman_decode);
    let idx = w % pow2(tb);
    lemma_pow2_pos(tb);
    lemma_mod_bound(w as int, pow2(tb) as int);
    lemma_rev_low_bits(w, tb, tb);
    assert(direct_ok(table, results, lens, tb, idx));
    lemma_small_pow2(idx, tb);
    lemma_huffman_decode_agree(lens, idx, w, tb);
}

// ---------------------------------------------------------------------
// The subtables while they are built
// ---------------------------------------------------------------------
/// The subtable that serves `w`, if any, lies below `sub_start`, unless `w`
/// belongs to the subtable that is being filled.
pub open spec fn region_below(table: Seq<u32>, lens: Seq<u8>, tb: nat, w: nat, prefix: int, sub_start: nat) -> bool {
    let e = table[(w % pow2(tb)) as int];
    (huffman_decode(lens, w).1 > tb && (w % pow2(tb)) as int != prefix) ==> entry_payload(e)
        + pow2(entry_code_bits(e)) <= sub_start
}

/// Served and framed: what the construction knows of a bit string it has
/// passed.
pub open spec fn served(
    table: Seq<u32>,
    results: Seq<u32>,
    lens: Seq<u8>,
    tb: nat,
    w: nat,
    prefix: int,
    sub_start: nat,
) -> bool {
    entry_ok(table, results, lens, tb, w) && region_below(table, lens, tb, w, prefix, sub_start)
}

/// Every bit string whose first `len` bits read as a codeword value below
/// `c` is served.
pub open spec fn secondary_ok(
    table: Seq<u32>,
    results: Seq<u32>,
    lens: Seq<u8>,
    tb: nat,
    len: nat,
    c: nat,
    prefix: int,
    sub_start: nat,
) -> bool {
    forall|w: nat|
        rev_bits(w, len) < c ==> #[trigger] served(table, results, lens, tb, w, prefix, sub_start)
}

/// What the finished primary part gives the subtable phase to start from.
pub proof fn lemma_secondary_start(
    table: Seq<u32>,
    results: Seq<u32>,
    lens: Seq<u8>,
    tb: nat,
    pc: nat,
    len: nat,
    c: nat,
    prefix: int,
)
    requires
        primary_ok(table, results, lens, tb, pc),
        is_complete_code(lens),
        tb <= len,
        c == pc * pow2((len - tb) as nat),
    ensures
        secondary_ok(table, results, lens, tb, len, c, prefix, pow2(tb)),
{
    assert forall|w: nat| rev_bits(w, len) < c implies #[trigger] served(
        table,
        results,
        lens,
        tb,
        w,
        prefix,
        pow2(tb),
    ) by {
        lemma_prefix_split(w, tb, len);
        let p = rev_bits(w, tb);
        let r = rev_bits(w / pow2(tb), (len - tb) as nat);
        lemma_quot_rest(p, r, pow2((len - tb) as nat), pc);
        lemma_primary_serves(table, results, lens, tb, pc, w);
    }
}

/// Going on to the next codeword length keeps what is served.
pub proof fn lemma_secondary_lengthen(
    table: Seq<u32>,
    results: Seq<u32>,
    lens: Seq<u8>,
    tb: nat,
    len: nat,
    c: nat,
    prefix: int,
    sub_start: nat,
)
    requires
        secondary_ok(table, results, lens, tb, len, c, prefix, sub_start),
    ensures
        secondary_ok(table, results, lens, tb, len + 1, 2 * c, prefix, sub_start),
{
    assert forall|w: nat| rev_bits(w, len + 1) < 2 * c implies #[trigger] served(
        table,
        results,
        lens,
        tb,
        w,
        prefix,
        sub_start,
    ) by {
        assert(rev_bits(w, len) < c);
    }
}

/// Starting a new subtable: the pointer entry is written at the new prefix
/// and the table may have grown. Nothing that is served is disturbed,
/// because no bit string passed so far begins with the new prefix.
#[verifier::rlimit(40)]
pub proof fn lemma_secondary_new_subtable(
    table: Seq<u32>,
    new_t: Seq<u32>,
    results: Seq<u32>,
    lens: Seq<u8>,
    tb: nat,
    len: nat,
    c: nat,
    old_prefix: int,
    old_start: nat,
    old_end: nat,
    prefix: nat,
    pointer: u32,
)
    requires
        secondary_ok(table, results, lens, tb, len, c, old_prefix, old_start),
        tb < len,
        prefix < pow2(tb),
        c == rev_bits(prefix, tb) * pow2((len - tb) as nat),
        pow2(tb) <= old_start <= old_end <= table.len(),
        old_prefix >= 0 ==> old_prefix < pow2(tb) && entry_payload(table[old_prefix]) + pow2(
            entry_code_bits(table[old_prefix]),
        ) == old_end,
        new_t.len() >= table.len(),
        forall|k: int| 0 <= k < table.len() && k != prefix ==> new_t[k] == table[k],
        new_t[prefix as int] == pointer,
    ensures
        secondary_ok(new_t, results, lens, tb, len, c, prefix as int, old_end),
{
    assert forall|w: nat| rev_bits(w, len) < c implies #[trigger] served(
        new_t,
        results,
        lens,
        tb,
        w,
        prefix as int,
        old_end,
    ) by {
        assert(served(table, results, lens, tb, w, old_prefix, old_start));
        lemma_prefix_split(w, tb, len);
        let p = rev_bits(w, tb);
        let r = rev_bits(w / pow2(tb), (len - tb) as nat);
        lemma_quot_rest(p, r, pow2((len - tb) as nat), rev_bits(prefix, tb));
        assert(p < rev_bits(prefix, tb));
        let idx = w % pow2(tb);
        lemma_pow2_pos(tb);
        lemma_mod_bound(w as int, pow2(tb) as int);
        assert(idx != prefix);
        let e = table[idx as int];
        assert(new_t[idx as int] == e);
        if huffman_decode(lens, w).1 > tb {
            let sub = (entry_payload(e) + (w / pow2(tb)) % pow2(entry_code_bits(e))) as int;
            lemma_pow2_pos(entry_code_bits(e));
            lemma_mod_bound((w / pow2(tb)) as int, pow2(entry_code_bits(e)) as int);
            assert(pow2(tb) <= sub < table.len());
            assert(sub != prefix);
            assert(new_t[sub] == table[sub]);
        }
    }
}

/// Filling the entries of one long codeword serves the bit strings that
/// begin with it and disturbs none that was served.
#[verifier::rlimit(40)]
pub proof fn lemma_secondary_fill(
    table: Seq<u32>,
    new_t: Seq<u32>,
    results: Seq<u32>,
    lens: Seq<u8>,
    tb: nat,
    len: nat,
    c: nat,
    codeword: nat,
    sym: nat,
    sub_start: nat,
    sub_bits: nat,
)
    requires
        secondary_ok(
            table,
            results,
            lens,
            tb,
            len,
            c,
            (codeword % pow2(tb)) as int,
            sub_start,
        ),
        is_complete_code(lens),
        1 <= tb < len <= tb + sub_bits <= 15,
        codeword < pow2(len),
        rev_bits(codeword, len) == c,
        first_code(lens, len) <= c < code_end(lens, len),
        sym == nth_with_len(lens, len, (c - first_code(lens, len)) as nat),
        pow2(tb) <= sub_start,
        sub_start + pow2(sub_bits) <= table.len(),
        entry_kind(table[(codeword % pow2(tb)) as int]) == kind_subtable(),
        entry_total_bits(table[(codeword % pow2(tb)) as int]) == tb,
        entry_code_bits(table[(codeword % pow2(tb)) as int]) == sub_bits,
        entry_payload(table[(codeword % pow2(tb)) as int]) == sub_start,
        new_t.len() == table.len(),
        forall|k: int|
            0 <= k < table.len() ==> new_t[k] == if sub_start <= k < sub_start + pow2(sub_bits)
                && ((k - sub_start) as nat) % pow2((len - tb) as nat) == codeword / pow2(tb) {
                make_entry(results[sym as int], (len - tb) as nat)
            } else {
                table[k]
            },
    ensures
        secondary_ok(
            new_t,
            results,
            lens,
            tb,
            len,
            c + 1,
            (codeword % pow2(tb)) as int,
            sub_start,
        ),
{
    reveal(huffman_decode);
    let prefix = codeword % pow2(tb);
    let k_bits = (len - tb) as nat;
    lemma_pow2_pos(tb);
    lemma_pow2_pos(k_bits);
    lemma_pow2_pos(sub_bits);
    lemma_mod_bound(codeword as int, pow2(tb) as int);
    assert(tb + k_bits == len);
    assert forall|w: nat| rev_bits(w, len) < c + 1 implies #[trigger] served(
        new_t,
        results,
        lens,
        tb,
        w,
        prefix as int,
        sub_start,
    ) by {
        let idx = w % pow2(tb);
        lemma_mod_bound(w as int, pow2(tb) as int);
        let x = (w / pow2(tb)) % pow2(sub_bits);
        lemma_mod_bound((w / pow2(tb)) as int, pow2(sub_bits) as int);
        // the low `len` bits of `w`, split at `tb`
        lemma_mod_pow2_split(w, tb, k_bits);
        lemma_mod_pow2_split(codeword, tb, k_bits);
        lemma_small_pow2(codeword, len);
        lemma_mod_pow2_narrow(w / pow2(tb), k_bits, sub_bits);
        assert(new_t[idx as int] == table[idx as int]);
        if rev_bits(w, len) < c {
            assert(served(table, results, lens, tb, w, prefix as int, sub_start));
            let e = table[idx as int];
            if huffman_decode(lens, w).1 > tb {
                if idx == prefix {
                    // same subtable: the entry of `w` is not among those written
                    if x % pow2(k_bits) == codeword / pow2(tb) {
                        assert(w % pow2(len) == codeword % pow2(len));
                        lemma_rev_agree(w, codeword, len, len);
                        assert(false);
                    }
                    assert(new_t[(sub_start + x) as int] == table[(sub_start + x) as int]);
                } else {
                    let xe = (w / pow2(tb)) % pow2(entry_code_bits(e));
                    lemma_pow2_pos(entry_code_bits(e));
                    lemma_mod_bound((w / pow2(tb)) as int, pow2(entry_code_bits(e)) as int);
                    assert(entry_payload(e) + xe < sub_start);
                    assert(new_t[(entry_payload(e) + xe) as int] == table[(entry_payload(e)
                        + xe) as int]);
                }
            }
        } else {
            lemma_rev_injective(w, codeword, len);
            assert(w % pow2(len) == codeword);
            lemma_rev_agree(w, codeword, len, len);
            lemma_decode_at(lens, w, len);
            assert(huffman_decode(lens, w) == (sym, len));
            assert(idx == prefix);
            assert(x % pow2(k_bits) == codeword / pow2(tb));
            assert(new_t[(sub_start + x) as int] == make_entry(results[sym as int], k_bits));
        }
    }
}

/// Once every bit string is served the table decodes the code.
pub proof fn lemma_secondary_finish(
    table: Seq<u32>,
    results: Seq<u32>,
    lens: Seq<u8>,
    tb: nat,
    len: nat,
    prefix: int,
    sub_start: nat,
)
    requires
        secondary_ok(table, results, lens, tb, len, pow2(len), prefix, sub_start),
        pow2(tb) <= table.len(),
    ensures
        table_decodes(table, results, lens, tb),
{
    reveal(table_decodes);
    assert forall|w: nat| #[trigger] entry_ok(table, results, lens, tb, w) by {
        lemma_rev_bound(w, len);
        assert(served(table, results, lens, tb, w, prefix, sub_start));
    }
}

/// A table filled with the one entry of a one-symbol or empty code decodes
/// that code.
pub proof fn lemma_uniform_table(table: Seq<u32>, results: Seq<u32>, lens: Seq<u8>, tb: nat, sym: nat)
    requires
        tb >= 1,
        pow2(tb) <= table.len(),
        forall|k: int| 0 <= k < table.len() ==> table[k] == make_entry(results[sym as int], 1),
        (is_empty_code(lens) && sym == 0) || (is_single_code(lens) && sym == nth_with_len(
            lens,
            1,
            0,
        )),
    ensures
        table_decodes(table, results, lens, tb),
{
    reveal(huffman_decode);
    reveal(table_decodes);
    assert forall|w: nat| #[trigger] entry_ok(table, results, lens, tb, w) by {
        lemma_pow2_pos(tb);
        lemma_mod_bound(w as int, pow2(tb) as int);
        if is_single_code(lens) {
        } else {
            lemma_empty_code_decodes_nothing(lens, w, 1);
        }
    }
}

} // verus!
