//! Bit fields in a byte sequence, least significant bit first.
use vstd::arithmetic::power2::{
    lemma2_to64, lemma_pow2_adds, lemma_pow2_pos, lemma_pow2_strictly_increases, lemma_pow2_unfold,
    pow2,
};
use vstd::prelude::*;

use crate::le;

verus! {

/// Bit `k` of `d`; bit 0 is the low bit of the first byte.
pub open spec fn bit(d: Seq<u8>, k: int) -> nat {
    (d[k / 8] as nat / pow2((k % 8) as nat)) % 2
}

/// The number that bits `at`, ..., `at + n - 1` of `d` form, low bit first.
pub open spec fn bits(d: Seq<u8>, at: int, n: nat) -> nat
    decreases n,
{
    if n == 0 {
        0
    } else {
        bit(d, at) + 2 * bits(d, at + 1, (n - 1) as nat)
    }
}

/// An `n`-bit number is below 2 to the power `n`.
pub proof fn lemma_bits_bound(d: Seq<u8>, at: int, n: nat)
    ensures
        bits(d, at, n) < pow2(n),
    decreases n,
{
    if n == 0 {
        lemma_pow2_pos(0);
    } else {
        lemma_bits_bound(d, at + 1, (n - 1) as nat);
        lemma_pow2_unfold(n);
    }
}

proof fn lemma_bits_join(d: Seq<u8>, at: int, a: nat, b: nat)
    ensures
        bits(d, at, a + b) == bits(d, at, a) + pow2(a) * bits(d, at + a, b),
    decreases a,
{
    if a == 0 {
        lemma2_to64();
        assert(1 * bits(d, at, b) == bits(d, at, b));
    } else {
        lemma_bits_join(d, at + 1, (a - 1) as nat, b);
        lemma_pow2_unfold(a);
        let p = pow2((a - 1) as nat) as int;
        let x = bits(d, at + a, b) as int;
        assert(2 * (p * x) == (2 * p) * x) by (nonlinear_arith);
    }
}

proof fn lemma_bits_in_byte(d: Seq<u8>, k: int, n: nat)
    requires
        0 <= k,
        k % 8 + n <= 8,
    ensures
        bits(d, k, n) == (d[k / 8] as nat / pow2((k % 8) as nat)) % pow2(n),
    decreases n,
{
    let s = (k % 8) as nat;
    let y = d[k / 8] as nat / pow2(s);
    lemma2_to64();
    lemma_pow2_pos(s);
    if n == 0 {
    } else if n == 1 {
        assert(bits(d, k + 1, 0) == 0);
    } else {
        lemma_bits_in_byte(d, k + 1, (n - 1) as nat);
        let m = (n - 1) as nat;
        lemma_pow2_unfold(n);
        lemma_pow2_pos(m);
        lemma_pow2_unfold(s + 1);
        vstd::arithmetic::div_mod::lemma_div_denominator(
            d[k / 8] as int,
            pow2(s) as int,
            2,
        );
        assert(pow2(s + 1) == pow2(s) * 2);
        assert(d[k / 8] as nat / pow2(s + 1) == y / 2);
        vstd::arithmetic::div_mod::lemma_mod_breakdown(y as int, 2, pow2(m) as int);
    }
}

/// 2 to the power `n`.
fn pow2_u64(n: u32) -> (p: u64)
    requires
        n < 64,
    ensures
        p == pow2(n as nat),
{
    proof {
        vstd::bits::lemma_u64_pow2_no_overflow(n as nat);
        vstd::bits::lemma_u64_shl_is_mul(1, n as u64);
    }
    1u64 << n
}

/// The `n`-bit number that starts at bit `shift` of byte `byte`.
pub fn read_bits(d: &[u8], byte: usize, shift: u32, n: u32) -> (v: u64)
    requires
        shift < 8,
        n <= 32,
        8 * byte + shift + n <= 8 * d@.len(),
    ensures
        v == bits(d@, 8 * byte + shift, n as nat),
        v < pow2(n as nat),
{
    let ghost at = 8 * byte + shift;
    let mut v: u64 = 0;
    let mut got: u32 = 0;
    let mut b: usize = byte;
    let mut s: u32 = shift;
    proof {
        lemma2_to64();
        lemma_bits_bound(d@, at, n as nat);
    }
    while got < n
        invariant
            n <= 32,
            got <= n,
            s < 8,
            at + got == 8 * b + s || got == n,
            at + n <= 8 * d@.len(),
            v == bits(d@, at, got as nat),
        decreases n - got,
    {
        let room: u32 = 8 - s;
        let take: u32 = if room <= n - got {
            room
        } else {
            n - got
        };
        proof {
            assert(b < d@.len());
            assert(b < d.len());
            lemma2_to64();
            lemma_bits_bound(d@, at, got as nat);
            if got < 32 {
                lemma_pow2_strictly_increases(got as nat, 32);
            }
            lemma_bits_in_byte(d@, at + got, take as nat);
            assert((at + got) / 8 == b && (at + got) % 8 == s);
            lemma_bits_join(d@, at, got as nat, take as nat);
            lemma_pow2_pos(s as nat);
            lemma_pow2_pos(take as nat);
        }
        let chunk: u64 = (d[b] as u64 / pow2_u64(s)) % pow2_u64(take);
        let weight: u64 = pow2_u64(got);
        assert(chunk == bits(d@, at + got, take as nat));
        assert(chunk < 256);
        assert(weight * chunk <= 0x1_0000_0000 * 256) by (nonlinear_arith)
            requires
                weight <= 0x1_0000_0000,
                chunk < 256,
        ;
        v = v + weight * chunk;
        got = got + take;
        b = b + 1;
        s = 0;
    }
    v
}

proof fn lemma_bit_of_number(d: Seq<u8>, k: int)
    requires
        0 <= k < 8 * d.len(),
    ensures
        bit(d, k) == (le::le_nat(d) / pow2(k as nat)) % 2,
    decreases d.len(),
{
    let rest = d.drop_first();
    let r = le::le_nat(rest) as int;
    let b = d[0] as int;
    lemma2_to64();
    lemma_pow2_pos(k as nat);
    if k < 8 {
        let p = pow2(k as nat) as int;
        let q = pow2((8 - k) as nat) as int;
        lemma_pow2_adds(k as nat, (8 - k) as nat);
        assert(p * q == 256);
        assert(b + 256 * r == b + p * (q * r)) by (nonlinear_arith)
            requires
                p * q == 256,
        ;
        vstd::arithmetic::div_mod::lemma_hoist_over_denominator(b, q * r, p as nat);
        let h = pow2((7 - k) as nat) as int;
        lemma_pow2_unfold((8 - k) as nat);
        assert(q * r == 2 * (h * r)) by (nonlinear_arith)
            requires
                q == 2 * h,
        ;
        assert((b + 256 * r) / p == b / p + 2 * (h * r));
        assert((b / p + 2 * (h * r)) % 2 == (b / p) % 2);
    } else {
        let j = (k - 8) as nat;
        lemma_bit_of_number(rest, k - 8);
        assert(rest[(k - 8) / 8] == d[k / 8]);
        assert((k - 8) % 8 == k % 8);
        let p = pow2(j) as int;
        lemma_pow2_pos(j);
        lemma_pow2_adds(8, j);
        assert((b + 256 * r) / 256 == r);
        vstd::arithmetic::div_mod::lemma_div_denominator(b + 256 * r, 256, p);
    }
}

/// A bit field is a part of the number that the bytes form, the first byte lowest:
/// the number without its `at` lowest bits, of which `n` are kept.
pub proof fn lemma_bits_of_number(d: Seq<u8>, at: int, n: nat)
    requires
        0 <= at,
        at + n <= 8 * d.len(),
    ensures
        bits(d, at, n) == (le::le_nat(d) / pow2(at as nat)) % pow2(n),
    decreases n,
{
    let x = le::le_nat(d) as int;
    lemma_pow2_pos(at as nat);
    lemma2_to64();
    if n > 0 {
        let m = (n - 1) as nat;
        lemma_bit_of_number(d, at);
        lemma_bits_of_number(d, at + 1, m);
        lemma_pow2_pos(m);
        lemma_pow2_unfold(n);
        lemma_pow2_unfold((at + 1) as nat);
        let p = pow2(at as nat) as int;
        let q = pow2(m) as int;
        let y = x / p;
        vstd::arithmetic::div_mod::lemma_div_denominator(x, p, 2);
        assert(p * 2 == pow2((at + 1) as nat));
        vstd::arithmetic::div_mod::lemma_mod_breakdown(y, 2, q);
    }
}

} // verus!
