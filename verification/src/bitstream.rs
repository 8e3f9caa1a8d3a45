//! Little-endian bit extraction from a byte slice.
//!
//! A byte string is read as one natural number, least significant byte
//! first; the `n` bits at bit position `pos` are then
//! `(value / 2^pos) % 2^n`. Bits past the end of the input read as zero,
//! which is what a lookahead peek near the end of the stream sees.
use vstd::prelude::*;
use vstd::arithmetic::power2::*;
use vstd::arithmetic::div_mod::*;
use vstd::arithmetic::mul::*;
use vstd::slice::*;
use crate::bits::{
    append_bits_u64, lemma_div_pow2_twice, lemma_join_pow2, lemma_mod_pow2_split,
    lemma_pow2_monotone, lemma_pow2_split, lemma_small_pow2, low_bits_u64, shr_u64,
};

verus! {

/// The byte string as a number, first byte least significant.
pub open spec fn le_value(data: Seq<u8>) -> nat
    decreases data.len(),
{
    if data.len() == 0 {
        0
    } else {
        data[0] as nat + 256 * le_value(data.drop_first())
    }
}

/// The `n` bits of `data` that start at bit `pos`, as a number whose least
/// significant bit is the first bit of the stream.
#[verifier::opaque]
pub open spec fn stream_bits(data: Seq<u8>, pos: nat, n: nat) -> nat {
    (le_value(data) / pow2(pos)) % pow2(n)
}

/// The number of bits in `data`.
pub open spec fn total_bits(data: Seq<u8>) -> nat {
    8 * data.len()
}

/// A byte string of length `n` is a number below `2^(8n)`.
pub proof fn lemma_le_value_bound(data: Seq<u8>)
    ensures
        le_value(data) < pow2(8 * data.len()),
    decreases data.len(),
{
    lemma2_to64();
    if data.len() > 0 {
        let rest = data.drop_first();
        lemma_le_value_bound(rest);
        lemma_pow2_split(8, 8 * rest.len());
        assert(256 * le_value(rest) <= 256 * (pow2(8 * rest.len()) - 1)) by (nonlinear_arith)
            requires
                le_value(rest) <= pow2(8 * rest.len()) - 1,
        ;
        assert(8 * data.len() == 8 + 8 * rest.len());
    }
}

/// The eight bits at a byte boundary are that byte.
pub proof fn lemma_stream_byte(data: Seq<u8>, k: nat)
    requires
        k < data.len(),
    ensures
        stream_bits(data, 8 * k, 8) == data[k as int],
    decreases k,
{
    reveal(stream_bits);
    lemma2_to64();
    let v = le_value(data);
    let rest = data.drop_first();
    assert(v == data[0] as nat + 256 * le_value(rest));
    lemma_join_pow2(data[0] as nat, le_value(rest), 8);
    if k == 0 {
        assert(v / pow2(0) == v);
    } else {
        lemma_stream_byte(rest, (k - 1) as nat);
        lemma_div_pow2_twice(v, 8, (8 * (k - 1)) as nat);
        assert(8 + 8 * (k - 1) == 8 * k);
        assert(rest[k - 1] == data[k as int]);
    }
}

/// Past the end of the input every bit is zero.
pub proof fn lemma_stream_bits_past_end(data: Seq<u8>, pos: nat, n: nat)
    requires
        pos >= total_bits(data),
    ensures
        stream_bits(data, pos, n) == 0,
{
    reveal(stream_bits);
    lemma_le_value_bound(data);
    lemma_pow2_monotone(8 * data.len(), pos);
    lemma_small_pow2(le_value(data), pos);
    lemma_pow2_pos(n);
    lemma_small_mod(0, pow2(n));
}

/// Reading `a + b` bits is reading `a` bits and then `b` bits.
pub proof fn lemma_stream_bits_split(data: Seq<u8>, pos: nat, a: nat, b: nat)
    ensures
        stream_bits(data, pos, a + b) == stream_bits(data, pos, a) + pow2(a) * stream_bits(
            data,
            pos + a,
            b,
        ),
        stream_bits(data, pos, a + b) % pow2(a) == stream_bits(data, pos, a),
        stream_bits(data, pos, a + b) / pow2(a) == stream_bits(data, pos + a, b),
        stream_bits(data, pos, a) < pow2(a),
{
    reveal(stream_bits);
    let x = le_value(data) / pow2(pos);
    lemma_mod_pow2_split(x, a, b);
    lemma_div_pow2_twice(le_value(data), pos, a);
    lemma_pow2_pos(a);
    lemma_mod_bound(x as int, pow2(a) as int);
}

/// A read is below two to the number of bits read.
pub proof fn lemma_stream_bits_bound(data: Seq<u8>, pos: nat, n: nat)
    ensures
        stream_bits(data, pos, n) < pow2(n),
{
    reveal(stream_bits);
    lemma_pow2_pos(n);
    lemma_mod_bound((le_value(data) / pow2(pos)) as int, pow2(n) as int);
}

/// The sixty-four bits at a byte boundary are eight bytes, the first one
/// lowest.
pub proof fn lemma_stream_le_word(data: Seq<u8>, k: int)
    requires
        0 <= k,
        k + 8 <= data.len(),
    ensures
        stream_bits(data, (8 * k) as nat, 64) == data[k] as nat + 256 * (data[k + 1] as nat + 256 * (
            data[k + 2] as nat + 256 * (data[k + 3] as nat + 256 * (data[k + 4] as nat + 256 * (
                data[k + 5] as nat + 256 * (data[k + 6] as nat + 256 * (data[k + 7] as nat))
            )))
        )),
{
    lemma2_to64();
    let p = (8 * k) as nat;
    lemma_stream_bits_split(data, p, 8, 56);
    lemma_stream_bits_split(data, p + 8, 8, 48);
    lemma_stream_bits_split(data, p + 16, 8, 40);
    lemma_stream_bits_split(data, p + 24, 8, 32);
    lemma_stream_bits_split(data, p + 32, 8, 24);
    lemma_stream_bits_split(data, p + 40, 8, 16);
    lemma_stream_bits_split(data, p + 48, 8, 8);
    lemma_stream_byte(data, k as nat);
    lemma_stream_byte(data, (k + 1) as nat);
    lemma_stream_byte(data, (k + 2) as nat);
    lemma_stream_byte(data, (k + 3) as nat);
    lemma_stream_byte(data, (k + 4) as nat);
    lemma_stream_byte(data, (k + 5) as nat);
    lemma_stream_byte(data, (k + 6) as nat);
    lemma_stream_byte(data, (k + 7) as nat);
}

/// The eight bytes from `at` on as one word, the first byte lowest.
pub fn load_le_u64(src: &[u8], at: usize) -> (word: u64)
    requires
        at + 8 <= src@.len(),
    ensures
        word as nat == stream_bits(src@, 8 * (at as nat), 64),
{
    let b0: u64 = src[at] as u64;
    let b1: u64 = src[at + 1] as u64;
    let b2: u64 = src[at + 2] as u64;
    let b3: u64 = src[at + 3] as u64;
    let b4: u64 = src[at + 4] as u64;
    let b5: u64 = src[at + 5] as u64;
    let b6: u64 = src[at + 6] as u64;
    let b7: u64 = src[at + 7] as u64;
    proof {
        lemma_stream_le_word(src@, at as int);
        assert((b0 | (b1 << 8) | (b2 << 16) | (b3 << 24) | (b4 << 32) | (b5 << 40) | (b6 << 48) | (b7
            << 56)) == b0 + 256 * (b1 + 256 * (b2 + 256 * (b3 + 256 * (b4 + 256 * (b5 + 256 * (b6
            + 256 * b7))))))) by (bit_vector)
            requires
                b0 < 256,
                b1 < 256,
                b2 < 256,
                b3 < 256,
                b4 < 256,
                b5 < 256,
                b6 < 256,
                b7 < 256,
        ;
    }
    b0 | (b1 << 8) | (b2 << 16) | (b3 << 24) | (b4 << 32) | (b5 << 40) | (b6 << 48) | (b7 << 56)
}

/// A reader of bits over a borrowed byte slice.
///
/// `buffer` holds the next `bits_left` bits of the stream, lowest bit
/// first; `position` is the index of the first byte not yet loaded.
#[derive(Clone, Copy)]
pub struct BitStreamReader<'a> {
    pub src: &'a [u8],
    pub position: usize,
    pub bits_left: u8,
    pub buffer: u64,
}

impl<'a> BitStreamReader<'a> {
    /// The bit position of the next unread bit.
    pub open spec fn bit_pos(&self) -> nat {
        (8 * self.position - self.bits_left) as nat
    }

    /// The buffer holds exactly the bits between the bit position and the
    /// byte cursor.
    pub open spec fn wf(&self) -> bool {
        &&& self.position <= self.src@.len()
        &&& self.bits_left <= 64
        &&& self.bits_left as int <= 8 * self.position
        &&& self.buffer as nat == stream_bits(self.src@, self.bit_pos(), self.bits_left as nat)
    }

    /// A peek of `n` bits sees the stream exactly: either the buffer holds
    /// that many, or everything that is left of the input is in the buffer.
    pub open spec fn can_peek(&self, n: nat) -> bool {
        n <= self.bits_left || self.position == self.src@.len()
    }

    /// After a refill the buffer holds at least 56 bits, unless the input
    /// ran out.
    pub open spec fn is_refilled(&self) -> bool {
        self.bits_left >= 56 || self.position == self.src@.len()
    }

    /// A reader at the first bit of `src`.
    pub fn new(src: &'a [u8]) -> (r: BitStreamReader<'a>)
        ensures
            r.wf(),
            r.src@ == src@,
            r.bit_pos() == 0,
            r.position == 0,
            r.bits_left == 0,
    {
        proof {
            lemma2_to64();
            reveal(stream_bits);
        }
        BitStreamReader { src, position: 0, bits_left: 0, buffer: 0 }
    }

    /// Fills the buffer up to at least 56 bits, or with all that is left of
    /// the input. The bit position does not move.
    ///
    /// While eight bytes are left they are loaded as one little-endian
    /// word, of which as many whole bytes are kept as fit above the bits in
    /// the buffer; the tail of the input is loaded byte by byte.
    pub fn refill(&mut self)
        requires
            old(self).wf(),
        ensures
            final(self).wf(),
            final(self).src == old(self).src,
            final(self).bit_pos() == old(self).bit_pos(),
            final(self).is_refilled(),
            final(self).bits_left >= old(self).bits_left,
            final(self).position >= old(self).position,
            final(self).position <= old(self).position + 8,
            old(self).bits_left >= 56 ==> *final(self) == *old(self),
            final(self).position > old(self).position ==> final(self).bits_left <= 63,
            (old(self).bits_left < 56 && old(self).position + 8 <= old(self).src@.len()) ==> 56
                <= final(self).bits_left <= 63,
    {
        if self.bits_left >= 56 {
            return ;
        }
        if self.src.len() - self.position >= 8 {
            let word: u64 = load_le_u64(self.src, self.position);
            // the number of whole bytes that fit into the buffer
            let space: u8 = 63 - self.bits_left;
            proof {
                assert(space >> 3 == space / 8) by (bit_vector);
            }
            let count: u8 = space >> 3;
            let fresh: u8 = count * 8;
            proof {
                let bl = self.bits_left;
                let pos = self.bit_pos();
                lemma_stream_bits_split(
                    self.src@,
                    8 * (self.position as nat),
                    fresh as nat,
                    (64 - fresh) as nat,
                );
                lemma_stream_bits_split(self.src@, pos, bl as nat, fresh as nat);
                assert(fresh as nat + (64 - fresh) as nat == 64);
                assert(pos + bl == 8 * self.position);
            }
            let chunk: u64 = low_bits_u64(word, fresh as u32);
            self.buffer = append_bits_u64(self.buffer, chunk, self.bits_left as u32, fresh as u32);
            self.bits_left = self.bits_left + fresh;
            self.position = self.position + count as usize;
            return ;
        }
        while self.bits_left < 56 && self.position < self.src.len()
            invariant
                self.wf(),
                self.src == old(self).src,
                self.bit_pos() == old(self).bit_pos(),
                self.bits_left >= old(self).bits_left,
                self.position >= old(self).position,
                self.src@.len() - old(self).position < 8,
                old(self).bits_left < 56,
                self.bits_left <= 63,
                8 * (self.position - old(self).position) == self.bits_left - old(self).bits_left,
            decreases self.src@.len() - self.position,
        {
            let byte: u8 = self.src[self.position];
            proof {
                let pos = self.bit_pos();
                let bl = self.bits_left as nat;
                lemma_stream_bits_split(self.src@, pos, bl, 8);
                lemma_stream_byte(self.src@, self.position as nat);
                assert(pos + bl == 8 * self.position);
                lemma2_to64();
            }
            self.buffer = append_bits_u64(self.buffer, byte as u64, self.bits_left as u32, 8);
            self.bits_left = self.bits_left + 8;
            self.position = self.position + 1;
        }
    }

    /// Whether the buffer holds at least `n` bits.
    pub fn has(&self, n: u8) -> (b: bool)
        requires
            self.wf(),
        ensures
            b == (n <= self.bits_left),
            self.can_peek(n as nat) ==> (b <==> self.bit_pos() + n <= total_bits(self.src@)),
    {
        self.bits_left >= n
    }

    /// The next `n` bits without consuming them.
    pub fn peek_var_bits(&self, n: u8) -> (r: usize)
        requires
            self.wf(),
            n <= 16,
        ensures
            r as nat == (self.buffer as nat) % pow2(n as nat),
            r < pow2(n as nat),
            self.can_peek(n as nat) ==> r as nat == stream_bits(
                self.src@,
                self.bit_pos(),
                n as nat,
            ),
    {
        let r: u64 = low_bits_u64(self.buffer, n as u32);
        proof {
            lemma2_to64();
            lemma_pow2_monotone(n as nat, 16);
            self.lemma_peek(n as nat);
        }
        r as usize
    }

    /// The next `n` bits for a width fixed at the call site.
    pub fn peek_bits<const N: usize>(&self) -> (r: usize)
        requires
            self.wf(),
            N <= 16,
        ensures
            r as nat == (self.buffer as nat) % pow2(N as nat),
            r < pow2(N as nat),
            self.can_peek(N as nat) ==> r as nat == stream_bits(
                self.src@,
                self.bit_pos(),
                N as nat,
            ),
    {
        self.peek_var_bits(N as u8)
    }

    /// What the low `n` bits of the buffer are in terms of the stream.
    pub proof fn lemma_peek(&self, n: nat)
        requires
            self.wf(),
        ensures
            self.can_peek(n) ==> (self.buffer as nat) % pow2(n) == stream_bits(
                self.src@,
                self.bit_pos(),
                n,
            ),
    {
        let pos = self.bit_pos();
        let bl = self.bits_left as nat;
        if n <= bl {
            lemma_stream_bits_split(self.src@, pos, n, (bl - n) as nat);
        } else if self.position == self.src@.len() {
            lemma_stream_bits_split(self.src@, pos, bl, (n - bl) as nat);
            lemma_stream_bits_past_end(self.src@, pos + bl, (n - bl) as nat);
            lemma_pow2_monotone(bl, n);
            lemma_small_pow2(self.buffer as nat, n);
            assert(pow2(bl) * 0 == 0);
        }
    }

    /// Consumes `n` bits.
    pub fn drop_bits(&mut self, n: u8)
        requires
            old(self).wf(),
            n <= old(self).bits_left,
            n < 64,
        ensures
            final(self).wf(),
            final(self).src == old(self).src,
            final(self).position == old(self).position,
            final(self).bits_left == old(self).bits_left - n,
            final(self).bit_pos() == old(self).bit_pos() + n,
            final(self).buffer as nat == (old(self).buffer as nat) / pow2(n as nat),
    {
        proof {
            lemma_stream_bits_split(
                self.src@,
                self.bit_pos(),
                n as nat,
                (self.bits_left - n) as nat,
            );
        }
        self.buffer = shr_u64(self.buffer, n as u32);
        self.bits_left = self.bits_left - n;
    }

    /// Reads and consumes `n` bits.
    pub fn get_bits(&mut self, n: u8) -> (r: u64)
        requires
            old(self).wf(),
            n <= old(self).bits_left,
            n <= 32,
        ensures
            final(self).wf(),
            final(self).src == old(self).src,
            final(self).position == old(self).position,
            final(self).bits_left == old(self).bits_left - n,
            final(self).bit_pos() == old(self).bit_pos() + n,
            r as nat == stream_bits(old(self).src@, old(self).bit_pos(), n as nat),
            r < pow2(n as nat),
    {
        let r: u64 = low_bits_u64(self.buffer, n as u32);
        proof {
            self.lemma_peek(n as nat);
        }
        self.drop_bits(n);
        r
    }

    /// The number of bits in the buffer.
    pub fn get_bits_left(&self) -> (r: u8)
        ensures
            r == self.bits_left,
    {
        self.bits_left
    }

    /// The number of bits between the bit position and the next byte
    /// boundary of the stream.
    pub fn partial_bits(&self) -> (r: u8)
        requires
            self.wf(),
        ensures
            r == self.bits_left % 8,
            r <= 7,
            self.bit_pos() + r == round_up_to_byte(self.bit_pos()),
    {
        proof {
            let bl = self.bits_left;
            assert(bl & 7 == bl % 8) by (bit_vector);
        }
        self.bits_left & 7
    }

    /// Skips to the next byte boundary of the stream.
    pub fn align_to_byte(&mut self)
        requires
            old(self).wf(),
        ensures
            final(self).wf(),
            final(self).src == old(self).src,
            final(self).position == old(self).position,
            final(self).bits_left == old(self).bits_left - old(self).bits_left % 8,
            final(self).bit_pos() == round_up_to_byte(old(self).bit_pos()),
            final(self).bit_pos() % 8 == 0,
    {
        let partial: u8 = self.bits_left & 7;
        proof {
            let bl = self.bits_left;
            assert(bl & 7 == bl % 8) by (bit_vector);
        }
        self.drop_bits(partial);
    }

    /// The index of the next byte that no consumed bit belongs to.
    pub fn get_position(&self) -> (r: usize)
        requires
            self.wf(),
        ensures
            r as int == self.position - self.bits_left / 8,
            self.bits_left % 8 == 0 ==> 8 * r == self.bit_pos(),
    {
        let whole: u8 = self.bits_left >> 3;
        proof {
            let bl = self.bits_left;
            assert(bl >> 3 == bl / 8) by (bit_vector);
        }
        self.position - whole as usize
    }

    /// The number of input bytes not yet loaded into the buffer.
    pub fn remaining_bytes(&self) -> (r: usize)
        requires
            self.wf(),
        ensures
            r == self.src@.len() - self.position,
    {
        self.src.len() - self.position
    }

    /// Moves the reader to the byte boundary `byte_pos` and empties the buffer.
    pub fn reset(&mut self, byte_pos: usize)
        requires
            byte_pos <= old(self).src@.len(),
        ensures
            final(self).wf(),
            final(self).src == old(self).src,
            final(self).position == byte_pos,
            final(self).bits_left == 0,
            final(self).bit_pos() == 8 * byte_pos,
    {
        proof {
            lemma2_to64();
            reveal(stream_bits);
        }
        self.position = byte_pos;
        self.bits_left = 0;
        self.buffer = 0;
    }
}

/// The first multiple of eight that is not below `pos`.
pub open spec fn round_up_to_byte(pos: nat) -> nat {
    ((pos + 7) / 8 * 8) as nat
}

} // verus!
