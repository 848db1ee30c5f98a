//! Little-endian unsigned integers of one to eight bytes.
use vstd::prelude::*;

verus! {

/// The number whose little-endian bytes are `s`.
pub open spec fn le_nat(s: Seq<u8>) -> nat
    decreases s.len(),
{
    if s.len() == 0 {
        0
    } else {
        s[0] as nat + 256 * le_nat(s.drop_first())
    }
}

/// The `n` low bytes of `v`, least significant first.
pub open spec fn le_bytes(v: nat, n: nat) -> Seq<u8>
    decreases n,
{
    if n == 0 {
        seq![]
    } else {
        seq![(v % 256) as u8] + le_bytes(v / 256, (n - 1) as nat)
    }
}

/// 256 to the power `n`.
pub open spec fn pow256(n: nat) -> nat
    decreases n,
{
    if n == 0 {
        1
    } else {
        256 * pow256((n - 1) as nat)
    }
}

/// The 32-bit signed integer with the bit pattern of `u`.
pub open spec fn signed32(u: nat) -> int {
    if u < 0x8000_0000 {
        u as int
    } else {
        u - 0x1_0000_0000
    }
}

/// The 64-bit signed integer with the bit pattern of `u`.
pub open spec fn signed64(u: nat) -> int {
    if u < 0x8000_0000_0000_0000 {
        u as int
    } else {
        u - 0x1_0000_0000_0000_0000
    }
}

/// An `n`-byte number is below 256 to the power `n`.
pub proof fn lemma_le_bound(s: Seq<u8>)
    ensures
        le_nat(s) < pow256(s.len()),
    decreases s.len(),
{
    if s.len() > 0 {
        lemma_le_bound(s.drop_first());
    }
}

/// The first eight powers of 256.
pub proof fn lemma_pow256()
    ensures
        pow256(0) == 1,
        pow256(1) == 0x100,
        pow256(2) == 0x1_0000,
        pow256(3) == 0x100_0000,
        pow256(4) == 0x1_0000_0000,
        pow256(5) == 0x100_0000_0000,
        pow256(6) == 0x1_0000_0000_0000,
        pow256(7) == 0x100_0000_0000_0000,
        pow256(8) == 0x1_0000_0000_0000_0000,
{
    reveal_with_fuel(pow256, 9);
}

/// Splitting a number into bytes and joining them again gives the number.
pub proof fn lemma_le_round_trip(v: nat, n: nat)
    requires
        v < pow256(n),
    ensures
        le_bytes(v, n).len() == n,
        le_nat(le_bytes(v, n)) == v,
    decreases n,
{
    if n > 0 {
        lemma_le_round_trip(v / 256, (n - 1) as nat);
        assert(le_bytes(v, n).drop_first() =~= le_bytes(v / 256, (n - 1) as nat));
    }
}

/// Reads the `n`-byte number at `pos`.
pub fn read_le(data: &[u8], pos: usize, n: usize) -> (v: u64)
    requires
        n <= 8,
        pos + n <= data@.len(),
    ensures
        v == le_nat(data@.subrange(pos as int, pos + n)),
{
    let mut v: u64 = 0;
    let mut k: usize = n;
    proof {
        lemma_pow256();
    }
    while k > 0
        invariant
            k <= n <= 8,
            pos + n <= data@.len(),
            v == le_nat(data@.subrange(pos + k, pos + n)),
        decreases k,
    {
        proof {
            let rest = data@.subrange(pos + k, pos + n);
            let longer = data@.subrange(pos + k - 1, pos + n);
            assert(longer.drop_first() =~= rest);
            lemma_le_bound(rest);
            lemma_pow256();
            assert(pos + n <= data.len());
        }
        k = k - 1;
        v = v * 256 + data[pos + k] as u64;
    }
    v
}

/// Appends the `n` low bytes of `v`.
pub fn push_le(v: u64, n: usize, out: &mut Vec<u8>)
    ensures
        final(out)@ == old(out)@ + le_bytes(v as nat, n as nat),
{
    let ghost start = out@;
    let mut rest: u64 = v;
    let mut i: usize = 0;
    while i < n
        invariant
            i <= n,
            start + le_bytes(v as nat, n as nat) == out@ + le_bytes(rest as nat, (n - i) as nat),
        decreases n - i,
    {
        let ghost before = out@;
        let b: u8 = (rest % 256) as u8;
        out.push(b);
        assert(before + (seq![b] + le_bytes(rest as nat / 256, (n - i - 1) as nat)) =~= out@
            + le_bytes(rest as nat / 256, (n - i - 1) as nat));
        rest = rest / 256;
        i += 1;
    }
}

/// The signed integer with the bit pattern of `u`.
pub fn to_signed32(u: u32) -> (v: i32)
    ensures
        v == signed32(u as nat),
{
    if u < 0x8000_0000 {
        u as i32
    } else {
        -((0xffff_ffff - u) as i32) - 1
    }
}

/// The signed integer with the bit pattern of `u`.
pub fn to_signed64(u: u64) -> (v: i64)
    ensures
        v == signed64(u as nat),
{
    if u < 0x8000_0000_0000_0000 {
        u as i64
    } else {
        -((0xffff_ffff_ffff_ffff - u) as i64) - 1
    }
}

/// The first byte counts once, and each further byte 256 times as much as the
/// one before it.
pub proof fn lemma_le_places(b: u8, s: Seq<u8>)
    ensures
        le_nat(seq![]) == 0,
        le_nat(seq![b] + s) == b + 256 * le_nat(s),
{
    assert((seq![b] + s).drop_first() =~= s);
}

/// Joining bytes to a number and splitting it again gives the bytes.
pub proof fn lemma_le_unique(s: Seq<u8>)
    ensures
        le_bytes(le_nat(s), s.len()) == s,
    decreases s.len(),
{
    if s.len() > 0 {
        lemma_le_unique(s.drop_first());
        assert(le_nat(s) % 256 == s[0]);
        assert(le_nat(s) / 256 == le_nat(s.drop_first()));
        assert(seq![s[0]] + s.drop_first() =~= s);
    }
}

/// The signed integer with a bit pattern: the pattern itself, or less by 2 to the
/// number of bits where the highest of them is set.
pub proof fn lemma_signed(u: u32, v: u64)
    ensures
        signed32(u as nat) == u || signed32(u as nat) == u - 0x1_0000_0000,
        -0x8000_0000 <= signed32(u as nat) < 0x8000_0000,
        signed64(v as nat) == v || signed64(v as nat) == v - 0x1_0000_0000_0000_0000,
        -0x8000_0000_0000_0000 <= signed64(v as nat) < 0x8000_0000_0000_0000,
{
}

} // verus!
