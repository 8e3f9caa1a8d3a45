//! The packed 32-bit decode-table entry and the symbol tables of RFC 1951.
//!
//! An entry is one word:
//!
//! * bits 0-7: how many bits the entry consumes;
//! * bits 8-13: for a subtable pointer the width of the subtable index, for
//!   every other entry the number of codeword bits among the consumed bits
//!   (what is left of them are extra bits);
//! * bits 14-15: the kind of the entry;
//! * bits 16-31: the payload: a literal byte, a length or offset base, a
//!   precode symbol, or the index at which a subtable starts.
//!
//! The two kind bits read as flags: `HUFFDEC_EXCEPTIONAL` is bit 15 and is
//! set for an end-of-block entry and for a subtable pointer; bit 14 tells a
//! literal from a match when bit 15 is clear, and a subtable pointer from an
//! end-of-block entry when it is set.
use vstd::prelude::*;

verus! {

/// Kind bits of a literal entry.
pub const HUFFDEC_LITERAL: u32 = 0x4000;

/// Kind bits of an end-of-block entry.
pub const HUFFDEC_END_OF_BLOCK: u32 = 0x8000;

/// The bit that marks the two unusual kinds: end of block and subtable
/// pointer.
pub const HUFFDEC_EXCEPTIONAL: u32 = 0x8000;

/// Kind bits of an entry that redirects to a subtable.
pub const HUFFDEC_SUITABLE_POINTER: u32 = 0xC000;

/// The two kind bits.
pub const HUFFDEC_KIND_MASK: u32 = 0xC000;

/// Number of symbols of the precode.
pub const DEFLATE_NUM_PRECODE_SYMS: usize = 19;

/// Number of symbols of the literal/length code, the two reserved ones
/// included.
pub const DEFLATE_NUM_LITLEN_SYMS: usize = 288;

/// Number of symbols of the offset code, the two reserved ones included.
pub const DEFLATE_NUM_OFFSET_SYMS: usize = 32;

/// The largest number of symbols of any of the three codes.
pub const DEFLATE_MAX_NUM_SYMS: usize = 288;

/// Kind of an entry that carries a base value and extra bits: a match
/// length, a match offset or a precode symbol.
pub open spec fn kind_match() -> nat {
    0
}

/// Kind of a literal entry.
pub open spec fn kind_literal() -> nat {
    1
}

/// Kind of an end-of-block entry.
pub open spec fn kind_end_of_block() -> nat {
    2
}

/// Kind of a subtable pointer.
pub open spec fn kind_subtable() -> nat {
    3
}

/// The number of bits an entry consumes.
pub open spec fn entry_total_bits(e: u32) -> nat {
    (e % 256) as nat
}

/// The number of codeword bits of an entry, or the index width of the
/// subtable it points to.
pub open spec fn entry_code_bits(e: u32) -> nat {
    ((e / 256) % 64) as nat
}

/// The kind of an entry.
pub open spec fn entry_kind(e: u32) -> nat {
    ((e / 16384) % 4) as nat
}

/// The payload of an entry.
pub open spec fn entry_payload(e: u32) -> nat {
    (e / 65536) as nat
}

/// The word with the given fields.
pub open spec fn pack_entry(payload: nat, kind: nat, code_bits: nat, total_bits: nat) -> nat {
    payload * 65536 + kind * 16384 + code_bits * 256 + total_bits
}

/// The fields are in range.
pub open spec fn fields_fit(payload: nat, kind: nat, code_bits: nat, total_bits: nat) -> bool {
    payload < 65536 && kind < 4 && code_bits < 64 && total_bits < 256
}

/// A packed word gives its fields back.
pub proof fn lemma_pack_fields(payload: nat, kind: nat, code_bits: nat, total_bits: nat)
    requires
        fields_fit(payload, kind, code_bits, total_bits),
    ensures
        pack_entry(payload, kind, code_bits, total_bits) <= u32::MAX,
        entry_payload(pack_entry(payload, kind, code_bits, total_bits) as u32) == payload,
        entry_kind(pack_entry(payload, kind, code_bits, total_bits) as u32) == kind,
        entry_code_bits(pack_entry(payload, kind, code_bits, total_bits) as u32) == code_bits,
        entry_total_bits(pack_entry(payload, kind, code_bits, total_bits) as u32) == total_bits,
{
    let p: u32 = payload as u32;
    let k: u32 = kind as u32;
    let c: u32 = code_bits as u32;
    let t: u32 = total_bits as u32;
    let e: u32 = (p * 65536 + k * 16384 + c * 256 + t) as u32;
    assert(e / 65536 == p && (e / 16384) % 4 == k && (e / 256) % 64 == c && e % 256 == t)
        by (bit_vector)
        requires
            p < 65536,
            k < 4,
            c < 64,
            t < 256,
            e == p * 65536 + k * 16384 + c * 256 + t,
    ;
}

/// Every word is the packing of its fields.
pub proof fn lemma_entry_is_packed(e: u32)
    ensures
        e == pack_entry(
            entry_payload(e),
            entry_kind(e),
            entry_code_bits(e),
            entry_total_bits(e),
        ),
        fields_fit(entry_payload(e), entry_kind(e), entry_code_bits(e), entry_total_bits(e)),
{
    assert(e == (e / 65536) * 65536 + ((e / 16384) % 4) * 16384 + ((e / 256) % 64) * 256 + e
        % 256 && e / 65536 < 65536) by (bit_vector);
}

/// What a symbol stands for before its codeword length is known: payload
/// and kind are final, the codeword-bits field is zero and the low byte
/// holds the number of extra bits.
pub open spec fn result_wf(r: u32) -> bool {
    entry_code_bits(r) == 0 && entry_total_bits(r) <= 13 && entry_kind(r) != kind_subtable()
}

/// The finished entry of a symbol whose codeword has `len` bits to consume
/// here: `len` goes to the codeword-bits field and is added to the consumed
/// bits.
pub open spec fn make_entry(r: u32, len: nat) -> u32 {
    (r + 257 * len) as u32
}

/// The fields of a finished entry.
pub proof fn lemma_make_entry(r: u32, len: nat)
    requires
        result_wf(r),
        len <= 15,
    ensures
        r + 257 * len <= u32::MAX,
        entry_payload(make_entry(r, len)) == entry_payload(r),
        entry_kind(make_entry(r, len)) == entry_kind(r),
        entry_code_bits(make_entry(r, len)) == len,
        entry_total_bits(make_entry(r, len)) == entry_total_bits(r) + len,
{
    lemma_entry_is_packed(r);
    lemma_pack_fields(
        entry_payload(r),
        entry_kind(r),
        len,
        entry_total_bits(r) + len,
    );
}

/// Builds the entry of symbol `sym` for a codeword of which `len` bits are
/// consumed by this entry.
pub fn make_decode_table_entry(decode_results: &[u32], sym: usize, len: u32) -> (e: u32)
    requires
        sym < decode_results@.len(),
        result_wf(decode_results@[sym as int]),
        len <= 15,
    ensures
        e == make_entry(decode_results@[sym as int], len as nat),
{
    proof {
        lemma_make_entry(decode_results@[sym as int], len as nat);
        assert((len << 8) + len == 257 * len) by (bit_vector)
            requires
                len <= 15,
        ;
    }
    decode_results[sym] + (len << 8) + len
}

/// Builds the entry that sends a lookup on to the subtable of `2^sub_bits`
/// entries at `start`, after `table_bits` bits are consumed.
pub fn make_subtable_pointer(start: usize, sub_bits: u32, table_bits: u32) -> (e: u32)
    requires
        start < 65536,
        sub_bits < 64,
        table_bits < 256,
    ensures
        e == pack_entry(start as nat, kind_subtable(), sub_bits as nat, table_bits as nat),
        entry_payload(e) == start,
        entry_kind(e) == kind_subtable(),
        entry_code_bits(e) == sub_bits,
        entry_total_bits(e) == table_bits,
{
    let s: u32 = start as u32;
    proof {
        lemma_pack_fields(start as nat, kind_subtable(), sub_bits as nat, table_bits as nat);
        assert(((s << 16) | 0xC000u32 | (sub_bits << 8) | table_bits) == s * 65536 + 3 * 16384
            + sub_bits * 256 + table_bits) by (bit_vector)
            requires
                s < 65536,
                sub_bits < 64,
                table_bits < 256,
        ;
    }
    (s << 16) | HUFFDEC_SUITABLE_POINTER | (sub_bits << 8) | table_bits
}

/// The number of bits the entry consumes.
pub fn total_bits_of(e: u32) -> (r: u8)
    ensures
        r as nat == entry_total_bits(e),
{
    proof {
        assert(e & 0xFF == e % 256) by (bit_vector);
    }
    (e & 0xFF) as u8
}

/// The codeword-bits field of the entry.
pub fn code_bits_of(e: u32) -> (r: u8)
    ensures
        r as nat == entry_code_bits(e),
        r < 64,
{
    proof {
        assert((e >> 8) & 0x3F == (e / 256) % 64) by (bit_vector);
    }
    ((e >> 8) & 0x3F) as u8
}

/// The payload of the entry.
pub fn payload_of(e: u32) -> (r: u32)
    ensures
        r as nat == entry_payload(e),
        r < 65536,
{
    proof {
        assert(e >> 16 == e / 65536) by (bit_vector);
    }
    e >> 16
}

/// Whether the entry is a literal.
pub fn is_literal(e: u32) -> (b: bool)
    ensures
        b == (entry_kind(e) == kind_literal()),
{
    proof {
        assert((e & 0xC000 == 0x4000) == ((e / 16384) % 4 == 1)) by (bit_vector);
    }
    (e & HUFFDEC_KIND_MASK) == HUFFDEC_LITERAL
}

/// Whether the entry is an end-of-block entry or a subtable pointer.
pub fn is_exceptional(e: u32) -> (b: bool)
    ensures
        b == (entry_kind(e) == kind_end_of_block() || entry_kind(e) == kind_subtable()),
{
    proof {
        assert((e & 0x8000 != 0) == ((e / 16384) % 4 >= 2)) by (bit_vector);
    }
    (e & HUFFDEC_EXCEPTIONAL) != 0
}

/// Whether the entry is an end-of-block entry.
pub fn is_end_of_block(e: u32) -> (b: bool)
    ensures
        b == (entry_kind(e) == kind_end_of_block()),
{
    proof {
        assert((e & 0xC000 == 0x8000) == ((e / 16384) % 4 == 2)) by (bit_vector);
    }
    (e & HUFFDEC_KIND_MASK) == HUFFDEC_END_OF_BLOCK
}

/// Whether the entry redirects to a subtable.
pub fn is_subtable_pointer(e: u32) -> (b: bool)
    ensures
        b == (entry_kind(e) == kind_subtable()),
{
    proof {
        assert((e & 0xC000 == 0xC000) == ((e / 16384) % 4 == 3)) by (bit_vector);
    }
    (e & HUFFDEC_KIND_MASK) == HUFFDEC_SUITABLE_POINTER
}

// ---------------------------------------------------------------------
// The symbol tables of RFC 1951, section 3.2.5
// ---------------------------------------------------------------------
/// The number of extra bits of length code `257 + i`.
pub open spec fn length_extra_bits(i: nat) -> nat {
    if i < 8 {
        0
    } else if i < 12 {
        1
    } else if i < 16 {
        2
    } else if i < 20 {
        3
    } else if i < 24 {
        4
    } else if i < 28 {
        5
    } else {
        0
    }
}

/// The smallest match length of length code `257 + i`, for `i < 29`.
pub open spec fn length_base(i: nat) -> nat {
    if i < 8 {
        3 + i
    } else if i < 12 {
        (11 + 2 * (i - 8)) as nat
    } else if i < 16 {
        (19 + 4 * (i - 12)) as nat
    } else if i < 20 {
        (35 + 8 * (i - 16)) as nat
    } else if i < 24 {
        (67 + 16 * (i - 20)) as nat
    } else if i < 28 {
        (131 + 32 * (i - 24)) as nat
    } else {
        258
    }
}

/// The number of extra bits of offset code `i`.
pub open spec fn offset_extra_bits(i: nat) -> nat {
    if i < 4 {
        0
    } else if i < 30 {
        (i / 2 - 1) as nat
    } else {
        0
    }
}

/// The smallest match offset of offset code `i`, for `i < 30`.
pub open spec fn offset_base(i: nat) -> nat {
    if i < 4 {
        1 + i
    } else if i < 6 {
        (5 + 2 * (i - 4)) as nat
    } else if i < 8 {
        (9 + 4 * (i - 6)) as nat
    } else if i < 10 {
        (17 + 8 * (i - 8)) as nat
    } else if i < 12 {
        (33 + 16 * (i - 10)) as nat
    } else if i < 14 {
        (65 + 32 * (i - 12)) as nat
    } else if i < 16 {
        (129 + 64 * (i - 14)) as nat
    } else if i < 18 {
        (257 + 128 * (i - 16)) as nat
    } else if i < 20 {
        (513 + 256 * (i - 18)) as nat
    } else if i < 22 {
        (1025 + 512 * (i - 20)) as nat
    } else if i < 24 {
        (2049 + 1024 * (i - 22)) as nat
    } else if i < 26 {
        (4097 + 2048 * (i - 24)) as nat
    } else if i < 28 {
        (8193 + 4096 * (i - 26)) as nat
    } else {
        (16385 + 8192 * (i - 28)) as nat
    }
}

/// What literal/length symbol `sym` stands for. The reserved symbols 286
/// and 287 get a match entry with base 0, which no valid length has.
pub open spec fn litlen_result(sym: nat) -> u32 {
    if sym < 256 {
        pack_entry(sym, kind_literal(), 0, 0) as u32
    } else if sym == 256 {
        pack_entry(0, kind_end_of_block(), 0, 0) as u32
    } else if sym < 286 {
        pack_entry(
            length_base((sym - 257) as nat),
            kind_match(),
            0,
            length_extra_bits((sym - 257) as nat),
        ) as u32
    } else {
        0
    }
}

/// What offset symbol `sym` stands for. The reserved symbols 30 and 31 get
/// a match entry with base 0, which no valid offset has.
pub open spec fn offset_result(sym: nat) -> u32 {
    if sym < 30 {
        pack_entry(offset_base(sym), kind_match(), 0, offset_extra_bits(sym)) as u32
    } else {
        0
    }
}

/// What precode symbol `sym` stands for: itself.
pub open spec fn precode_result(sym: nat) -> u32 {
    pack_entry(sym, kind_match(), 0, 0) as u32
}

/// The table of all literal/length symbols.
pub open spec fn litlen_results() -> Seq<u32> {
    Seq::new(288, |s: int| litlen_result(s as nat))
}

/// The table of all offset symbols.
pub open spec fn offset_results() -> Seq<u32> {
    Seq::new(32, |s: int| offset_result(s as nat))
}

/// The table of all precode symbols.
pub open spec fn precode_results() -> Seq<u32> {
    Seq::new(19, |s: int| precode_result(s as nat))
}

/// Every entry of a symbol table is well formed.
pub open spec fn results_wf(results: Seq<u32>) -> bool {
    forall|s: int| 0 <= s < results.len() ==> result_wf(#[trigger] results[s])
}

/// The fields of the literal/length symbol table.
pub proof fn lemma_litlen_result(sym: nat)
    requires
        sym < 288,
    ensures
        result_wf(litlen_result(sym)),
        sym < 256 ==> entry_kind(litlen_result(sym)) == kind_literal() && entry_payload(
            litlen_result(sym),
        ) == sym && entry_total_bits(litlen_result(sym)) == 0,
        sym == 256 ==> entry_kind(litlen_result(sym)) == kind_end_of_block() && entry_total_bits(
            litlen_result(sym),
        ) == 0,
        256 < sym < 286 ==> entry_kind(litlen_result(sym)) == kind_match() && entry_payload(
            litlen_result(sym),
        ) == length_base((sym - 257) as nat) && entry_total_bits(litlen_result(sym))
            == length_extra_bits((sym - 257) as nat) && 3 <= length_base((sym - 257) as nat)
            <= 258 && length_extra_bits((sym - 257) as nat) <= 5,
        sym >= 286 ==> entry_kind(litlen_result(sym)) == kind_match() && entry_payload(
            litlen_result(sym),
        ) == 0 && entry_total_bits(litlen_result(sym)) == 0,
{
    if sym < 256 {
        lemma_pack_fields(sym, kind_literal(), 0, 0);
    } else if sym == 256 {
        lemma_pack_fields(0, kind_end_of_block(), 0, 0);
    } else if sym < 286 {
        let i = (sym - 257) as nat;
        lemma_pack_fields(length_base(i), kind_match(), 0, length_extra_bits(i));
    }
}

/// The fields of the offset symbol table.
pub proof fn lemma_offset_result(sym: nat)
    requires
        sym < 32,
    ensures
        result_wf(offset_result(sym)),
        entry_kind(offset_result(sym)) == kind_match(),
        sym < 30 ==> entry_payload(offset_result(sym)) == offset_base(sym) && entry_total_bits(
            offset_result(sym),
        ) == offset_extra_bits(sym) && 1 <= offset_base(sym) <= 24577 && offset_extra_bits(sym)
            <= 13,
        sym >= 30 ==> entry_payload(offset_result(sym)) == 0 && entry_total_bits(
            offset_result(sym),
        ) == 0,
{
    if sym < 30 {
        lemma_pack_fields(offset_base(sym), kind_match(), 0, offset_extra_bits(sym));
    }
}

/// The fields of the precode symbol table.
pub proof fn lemma_precode_result(sym: nat)
    requires
        sym < 19,
    ensures
        result_wf(precode_result(sym)),
        entry_kind(precode_result(sym)) == kind_match(),
        entry_payload(precode_result(sym)) == sym,
        entry_total_bits(precode_result(sym)) == 0,
{
    lemma_pack_fields(sym, kind_match(), 0, 0);
}

/// Packs a payload, the kind bits and a number of extra bits.
fn pack_result(payload: u32, kind: u32, extra: u32) -> (r: u32)
    requires
        payload < 65536,
        kind < 4,
        extra < 256,
    ensures
        r == pack_entry(payload as nat, kind as nat, 0, extra as nat),
{
    proof {
        assert(((payload << 16) | (kind << 14) | extra) == payload * 65536 + kind * 16384 + extra)
            by (bit_vector)
            requires
                payload < 65536,
                kind < 4,
                extra < 256,
        ;
    }
    (payload << 16) | (kind << 14) | extra
}

/// Every entry of the precode symbol table is well formed.
pub proof fn lemma_precode_results_wf()
    ensures
        results_wf(precode_results()),
        precode_results().len() == 19,
{
    assert forall|s: int| 0 <= s < precode_results().len() implies result_wf(
        #[trigger] precode_results()[s],
    ) by {
        lemma_precode_result(s as nat);
    }
}

/// Every entry of the literal/length and offset symbol tables is well
/// formed.
pub proof fn lemma_symbol_results_wf()
    ensures
        results_wf(litlen_results()),
        results_wf(offset_results()),
        litlen_results().len() == 288,
        offset_results().len() == 32,
{
    assert forall|s: int| 0 <= s < litlen_results().len() implies result_wf(
        #[trigger] litlen_results()[s],
    ) by {
        lemma_litlen_result(s as nat);
    }
    assert forall|s: int| 0 <= s < offset_results().len() implies result_wf(
        #[trigger] offset_results()[s],
    ) by {
        lemma_offset_result(s as nat);
    }
}

/// The partial entry of literal/length symbol `sym`.
pub fn litlen_decode_result(sym: usize) -> (r: u32)
    requires
        sym < 288,
    ensures
        r == litlen_result(sym as nat),
{
    let s: u32 = sym as u32;
    if s < 256 {
        pack_result(s, 1, 0)
    } else if s == 256 {
        pack_result(0, 2, 0)
    } else if s < 286 {
        let i: u32 = s - 257;
        if i < 8 {
            pack_result(3 + i, 0, 0)
        } else if i < 12 {
            pack_result(11 + 2 * (i - 8), 0, 1)
        } else if i < 16 {
            pack_result(19 + 4 * (i - 12), 0, 2)
        } else if i < 20 {
            pack_result(35 + 8 * (i - 16), 0, 3)
        } else if i < 24 {
            pack_result(67 + 16 * (i - 20), 0, 4)
        } else if i < 28 {
            pack_result(131 + 32 * (i - 24), 0, 5)
        } else {
            pack_result(258, 0, 0)
        }
    } else {
        0
    }
}

/// The partial entry of offset symbol `sym`.
pub fn offset_decode_result(sym: usize) -> (r: u32)
    requires
        sym < 32,
    ensures
        r == offset_result(sym as nat),
{
    let i: u32 = sym as u32;
    if i < 4 {
        pack_result(1 + i, 0, 0)
    } else if i < 30 {
        let extra: u32 = i / 2 - 1;
        let step: u32 = i % 2;
        let base: u32 = if i < 6 {
            5 + 2 * step
        } else if i < 8 {
            9 + 4 * step
        } else if i < 10 {
            17 + 8 * step
        } else if i < 12 {
            33 + 16 * step
        } else if i < 14 {
            65 + 32 * step
        } else if i < 16 {
            129 + 64 * step
        } else if i < 18 {
            257 + 128 * step
        } else if i < 20 {
            513 + 256 * step
        } else if i < 22 {
            1025 + 512 * step
        } else if i < 24 {
            2049 + 1024 * step
        } else if i < 26 {
            4097 + 2048 * step
        } else if i < 28 {
            8193 + 4096 * step
        } else {
            16385 + 8192 * step
        };
        pack_result(base, 0, extra)
    } else {
        0
    }
}

/// The partial entry of precode symbol `sym`.
pub fn precode_decode_result(sym: usize) -> (r: u32)
    requires
        sym < 19,
    ensures
        r == precode_result(sym as nat),
{
    pack_result(sym as u32, 0, 0)
}

/// The literal/length symbol table.
pub fn litlen_decode_results() -> (v: Vec<u32>)
    ensures
        v@ == litlen_results(),
        results_wf(v@),
{
    let mut v: Vec<u32> = Vec::new();
    let mut s: usize = 0;
    while s < DEFLATE_NUM_LITLEN_SYMS
        invariant
            s <= 288,
            v@.len() == s,
            forall|k: int| 0 <= k < s ==> v@[k] == litlen_result(k as nat),
        decreases 288 - s,
    {
        v.push(litlen_decode_result(s));
        s += 1;
    }
    proof {
        assert(v@ =~= litlen_results());
        assert forall|k: int| 0 <= k < v@.len() implies result_wf(#[trigger] v@[k]) by {
            lemma_litlen_result(k as nat);
        }
    }
    v
}

/// The offset symbol table.
pub fn offset_decode_results() -> (v: Vec<u32>)
    ensures
        v@ == offset_results(),
        results_wf(v@),
{
    let mut v: Vec<u32> = Vec::new();
    let mut s: usize = 0;
    while s < DEFLATE_NUM_OFFSET_SYMS
        invariant
            s <= 32,
            v@.len() == s,
            forall|k: int| 0 <= k < s ==> v@[k] == offset_result(k as nat),
        decreases 32 - s,
    {
        v.push(offset_decode_result(s));
        s += 1;
    }
    proof {
        assert(v@ =~= offset_results());
        assert forall|k: int| 0 <= k < v@.len() implies result_wf(#[trigger] v@[k]) by {
            lemma_offset_result(k as nat);
        }
    }
    v
}

/// The precode symbol table.
pub fn precode_decode_results() -> (v: Vec<u32>)
    ensures
        v@ == precode_results(),
        results_wf(v@),
{
    let mut v: Vec<u32> = Vec::new();
    let mut s: usize = 0;
    while s < DEFLATE_NUM_PRECODE_SYMS
        invariant
            s <= 19,
            v@.len() == s,
            forall|k: int| 0 <= k < s ==> v@[k] == precode_result(k as nat),
        decreases 19 - s,
    {
        v.push(precode_decode_result(s));
        s += 1;
    }
    proof {
        assert(v@ =~= precode_results());
        assert forall|k: int| 0 <= k < v@.len() implies result_wf(#[trigger] v@[k]) by {
            lemma_precode_result(k as nat);
        }
    }
    v
}

} // verus!
