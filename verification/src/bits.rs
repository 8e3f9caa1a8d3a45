//! Shifts and masks stated as arithmetic on powers of two.
//!
//! Everything above this module reasons about bit strings as natural
//! numbers: taking the low `n` bits is `% pow2(n)`, dropping them is
//! `/ pow2(n)`. The executable helpers here are the only places where the
//! machine's bit operators meet that arithmetic.
use vstd::prelude::*;
use vstd::arithmetic::power2::*;
use vstd::arithmetic::div_mod::*;
use vstd::arithmetic::mul::*;
use vstd::bits::*;

verus! {

/// `2^(a+b) = 2^a * 2^b`, and both factors are positive.
pub proof fn lemma_pow2_split(a: nat, b: nat)
    ensures
        pow2(a + b) == pow2(a) * pow2(b),
        pow2(a) > 0,
        pow2(b) > 0,
        pow2(a + b) > 0,
{
    lemma_pow2_adds(a, b);
    lemma_pow2_pos(a);
    lemma_pow2_pos(b);
    lemma_pow2_pos(a + b);
}

/// `2^(a+1) = 2 * 2^a`.
pub proof fn lemma_pow2_step(a: nat)
    ensures
        pow2(a + 1) == 2 * pow2(a),
        pow2(a) > 0,
{
    lemma_pow2_unfold(a + 1);
    lemma_pow2_pos(a);
}

/// Powers of two grow with the exponent.
pub proof fn lemma_pow2_monotone(a: nat, b: nat)
    requires
        a <= b,
    ensures
        pow2(a) <= pow2(b),
        pow2(a) > 0,
{
    lemma_pow2_pos(a);
    if a < b {
        lemma_pow2_strictly_increases(a, b);
    }
}

/// Dropping `a` bits and then `b` bits drops `a + b` bits.
pub proof fn lemma_div_pow2_twice(x: nat, a: nat, b: nat)
    ensures
        (x / pow2(a)) / pow2(b) == x / pow2(a + b),
{
    lemma_pow2_split(a, b);
    lemma_div_denominator(x as int, pow2(a) as int, pow2(b) as int);
}

/// The low `a + b` bits are the low `a` bits below the next `b` bits.
pub proof fn lemma_mod_pow2_split(x: nat, a: nat, b: nat)
    ensures
        x % pow2(a + b) == x % pow2(a) + pow2(a) * ((x / pow2(a)) % pow2(b)),
        (x % pow2(a + b)) % pow2(a) == x % pow2(a),
        (x % pow2(a + b)) / pow2(a) == (x / pow2(a)) % pow2(b),
{
    lemma_pow2_split(a, b);
    let pa = pow2(a) as int;
    let pb = pow2(b) as int;
    lemma_mod_breakdown(x as int, pa, pb);
    let lo = (x as int) % pa;
    let hi = ((x as int) / pa) % pb;
    lemma_mod_bound(x as int, pa);
    lemma_mod_bound((x as int) / pa, pb);
    let y = (x as int) % (pa * pb);
    assert(y == hi * pa + lo) by {
        lemma_mul_is_commutative(pa, hi);
    }
    lemma_fundamental_div_mod_converse(y, pa, hi, lo);
}

/// A number written as low part plus shifted high part splits back.
pub proof fn lemma_join_pow2(lo: nat, hi: nat, a: nat)
    requires
        lo < pow2(a),
    ensures
        (lo + pow2(a) * hi) / pow2(a) == hi,
        (lo + pow2(a) * hi) % pow2(a) == lo,
{
    lemma_pow2_pos(a);
    let pa = pow2(a) as int;
    assert(lo + pa * hi == hi * pa + lo) by {
        lemma_mul_is_commutative(pa, hi as int);
    }
    lemma_fundamental_div_mod_converse(lo + pa * hi, pa, hi as int, lo as int);
}

/// A value below `2^a` is its own low `a` bits and has nothing above them.
pub proof fn lemma_small_pow2(x: nat, a: nat)
    requires
        x < pow2(a),
    ensures
        x % pow2(a) == x,
        x / pow2(a) == 0,
{
    lemma_pow2_pos(a);
    lemma_small_mod(x, pow2(a));
    lemma_basic_div(x as int, pow2(a) as int);
}

/// The low `a` bits of the low `b` bits, for `a <= b`, are the low `a` bits.
pub proof fn lemma_mod_pow2_narrow(x: nat, a: nat, b: nat)
    requires
        a <= b,
    ensures
        (x % pow2(b)) % pow2(a) == x % pow2(a),
        x % pow2(b) < pow2(b),
{
    lemma_mod_pow2_split(x, a, (b - a) as nat);
    lemma_pow2_pos(b);
    lemma_mod_bound(x as int, pow2(b) as int);
}

/// `1 << n` as a 64-bit word.
pub fn pow2_u64(n: u32) -> (r: u64)
    requires
        n < 64,
    ensures
        r == pow2(n as nat),
{
    proof {
        lemma_u64_pow2_no_overflow(n as nat);
        lemma_u64_shl_is_mul(1u64, n as u64);
    }
    1u64 << n
}

/// `1 << n` as a 32-bit word.
pub fn pow2_u32(n: u32) -> (r: u32)
    requires
        n < 32,
    ensures
        r == pow2(n as nat),
{
    proof {
        lemma_u32_pow2_no_overflow(n as nat);
        lemma_u32_shl_is_mul(1u32, n);
    }
    1u32 << n
}

/// `1 << n` as a machine-sized index; `n` stays below 32 so that the result
/// fits on every supported target.
pub fn pow2_usize(n: u32) -> (r: usize)
    requires
        n < 32,
    ensures
        r == pow2(n as nat),
{
    let r: u32 = pow2_u32(n);
    r as usize
}

/// The low `n` bits of `x`.
pub fn low_bits_u64(x: u64, n: u32) -> (r: u64)
    requires
        n < 64,
    ensures
        r == (x as nat) % pow2(n as nat),
        r < pow2(n as nat),
{
    let m: u64 = pow2_u64(n);
    proof {
        lemma_pow2_pos(n as nat);
        lemma_u64_low_bits_mask_is_mod(x, n as nat);
        assert(low_bits_mask(n as nat) as u64 == (m - 1) as u64);
        lemma_mod_bound(x as int, pow2(n as nat) as int);
    }
    x & (m - 1)
}

/// `x` without its low `n` bits.
pub fn shr_u64(x: u64, n: u32) -> (r: u64)
    requires
        n < 64,
    ensures
        r == (x as nat) / pow2(n as nat),
{
    proof {
        lemma_u64_shr_is_div(x, n as u64);
    }
    x >> n
}

/// Places the `m` bits of `y` directly above the `n` valid low bits of `x`.
pub fn append_bits_u64(x: u64, y: u64, n: u32, m: u32) -> (r: u64)
    requires
        n + m <= 63,
        x < pow2(n as nat),
        y < pow2(m as nat),
    ensures
        r == x + pow2(n as nat) * (y as nat),
        r < pow2((n + m) as nat),
{
    let p: u64 = pow2_u64(n);
    proof {
        lemma_pow2_split(n as nat, m as nat);
        lemma_pow2_monotone((n + m) as nat, 63);
        lemma2_to64();
        lemma2_to64_rest();
        assert(pow2(n as nat) * (y as nat) <= pow2(n as nat) * (pow2(m as nat) - 1)) by {
            lemma_mul_inequality(y as int, pow2(m as nat) - 1, pow2(n as nat) as int);
            lemma_mul_is_commutative(y as int, pow2(n as nat) as int);
            lemma_mul_is_commutative(pow2(m as nat) - 1, pow2(n as nat) as int);
        }
        assert(pow2(n as nat) * (pow2(m as nat) - 1) == pow2((n + m) as nat) - pow2(n as nat))
            by (nonlinear_arith)
            requires
                pow2((n + m) as nat) == pow2(n as nat) * pow2(m as nat),
        ;
        assert(y * pow2(n as nat) <= u64::MAX) by {
            lemma_mul_is_commutative(y as int, pow2(n as nat) as int);
        }
        lemma_u64_shl_is_mul(y, n as u64);
        lemma_mul_is_commutative(y as int, pow2(n as nat) as int);
        let s: u64 = y << (n as u64);
        lemma_u64_pow2_no_overflow(n as nat);
        lemma_u64_shl_is_mul(1u64, n as u64);
        lemma_u64_pow2_no_overflow(m as nat);
        lemma_u64_shl_is_mul(1u64, m as u64);
        let limit: u64 = 1u64 << (m as u64);
        assert(x | s == x + s) by (bit_vector)
            requires
                n + m <= 63,
                x < p,
                p == 1u64 << (n as u64),
                s == y << (n as u64),
                y < limit,
                limit == 1u64 << (m as u64),
        ;
    }
    x | (y << n)
}

/// The low `n` bits of an index.
pub fn low_bits_usize(x: usize, n: u32) -> (r: usize)
    requires
        n < 32,
    ensures
        r == (x as nat) % pow2(n as nat),
        r < pow2(n as nat),
        r <= x,
{
    let r: u64 = low_bits_u64(x as u64, n);
    proof {
        lemma_pow2_pos(n as nat);
        lemma_mod_decreases(x as nat, pow2(n as nat));
    }
    r as usize
}

/// An index without its low `n` bits.
pub fn shr_usize(x: usize, n: u32) -> (r: usize)
    requires
        n < 32,
    ensures
        r == (x as nat) / pow2(n as nat),
        r <= x,
{
    let r: u64 = shr_u64(x as u64, n);
    proof {
        lemma_pow2_pos(n as nat);
        lemma_div_nonincreasing(x as int, pow2(n as nat) as int);
    }
    r as usize
}

} // verus!
