//! Variable-length integers (base 128, least significant group first) and the
//! zigzag mapping of signed integers onto them.
use vstd::prelude::*;

verus! {

/// The longest encoding of a 64-bit integer, in bytes.
pub const MAX_LEN: usize = 10;

/// Why no integer could be read.
#[derive(Debug, Clone, Copy, PartialEq, Eq, Structural)]
pub enum VarintFault {
    /// The input ended before the last group.
    End,
    /// Ten bytes were read and all of them announce another one.
    TooLong,
}

/// How many leading bytes of `s` announce another byte (top bit set).
pub open spec fn continued(s: Seq<u8>) -> nat
    decreases s.len(),
{
    if s.len() > 0 && s[0] >= 128 {
        1 + continued(s.drop_first())
    } else {
        0
    }
}

/// The number whose base-128 digits, least significant first, are the low
/// seven bits of the bytes of `s`.
pub open spec fn value(s: Seq<u8>) -> nat
    decreases s.len(),
{
    if s.len() == 0 {
        0
    } else {
        (s[0] % 128) as nat + 128 * value(s.drop_first())
    }
}

/// The bytes that may belong to an integer at `pos`: at most ten.
pub open spec fn window(s: Seq<u8>, pos: int) -> Seq<u8> {
    if 0 <= pos < s.len() {
        s.subrange(
            pos,
            if pos + MAX_LEN <= s.len() {
                pos + MAX_LEN
            } else {
                s.len() as int
            },
        )
    } else {
        seq![]
    }
}

/// What reading an integer at `pos` gives, and the position after it.
///
/// Bits beyond the 64th are dropped.
pub open spec fn varint_at(s: Seq<u8>, pos: int) -> (Result<u64, VarintFault>, int) {
    let w = window(s, pos);
    let n = continued(w);
    if n < w.len() {
        (Ok((value(w.take(n as int + 1)) % 0x1_0000_0000_0000_0000) as u64), pos + n + 1)
    } else if w.len() == MAX_LEN {
        (Err(VarintFault::TooLong), pos + MAX_LEN)
    } else {
        (Err(VarintFault::End), pos + w.len())
    }
}

/// The shortest encoding of `v`.
pub open spec fn varint_bytes(v: nat) -> Seq<u8>
    decreases v,
{
    if v < 128 {
        seq![v as u8]
    } else {
        seq![(128 + v % 128) as u8] + varint_bytes(v / 128)
    }
}

/// Zigzag: 0, -1, 1, -2, ... are numbered 0, 1, 2, 3, ...
pub open spec fn zigzag_of(v: int) -> nat {
    if v >= 0 {
        (2 * v) as nat
    } else {
        (-2 * v - 1) as nat
    }
}

/// The integer with zigzag number `n`.
pub open spec fn unzigzag(n: nat) -> int {
    if n % 2 == 0 {
        n as int / 2
    } else {
        -(n as int / 2) - 1
    }
}

/// 128 to the power `n`.
pub open spec fn scale(n: nat) -> nat
    decreases n,
{
    if n == 0 {
        1
    } else {
        128 * scale((n - 1) as nat)
    }
}

proof fn lemma_value_bound(s: Seq<u8>)
    ensures
        value(s) < scale(s.len()),
    decreases s.len(),
{
    if s.len() > 0 {
        lemma_value_bound(s.drop_first());
    }
}

proof fn lemma_value_push(s: Seq<u8>, b: u8)
    ensures
        value(s.push(b)) == value(s) + (b % 128) * scale(s.len()),
    decreases s.len(),
{
    let t = s.push(b);
    if s.len() == 0 {
        assert(t.drop_first() =~= Seq::<u8>::empty());
        assert(value(t.drop_first()) == 0);
        assert((b % 128) * scale(0) == b % 128) by (nonlinear_arith)
            requires
                scale(0) == 1,
        ;
    } else {
        assert(t.drop_first() =~= s.drop_first().push(b));
        lemma_value_push(s.drop_first(), b);
        let x = (b % 128) as int;
        let k = scale((s.len() - 1) as nat) as int;
        assert(value(s.drop_first().push(b)) == value(s.drop_first()) + x * k);
        assert(x * scale(s.len()) == 128 * (x * k)) by (nonlinear_arith)
            requires
                scale(s.len()) == 128 * k,
        ;
        assert(t[0] == s[0]);
    }
}

proof fn lemma_continued(s: Seq<u8>, n: nat)
    requires
        n <= s.len(),
        forall|j: int| 0 <= j < n ==> s[j] >= 128,
        n < s.len() ==> s[n as int] < 128,
    ensures
        continued(s) == n,
    decreases n,
{
    if n > 0 {
        let t = s.drop_first();
        assert forall|j: int| 0 <= j < n - 1 implies t[j] >= 128 by {
            assert(t[j] == s[j + 1]);
        }
        lemma_continued(t, (n - 1) as nat);
    }
}

proof fn lemma_scales()
    ensures
        scale(8) == 0x100_0000_0000_0000,
        scale(9) == 0x8000_0000_0000_0000,
        forall|i: nat| i <= 8 ==> scale(i) <= 0x100_0000_0000_0000,
{
    reveal_with_fuel(scale, 10);
}

/// Reads an integer at `*pos` and moves `*pos` behind the bytes read.
pub fn read(data: &[u8], pos: &mut usize) -> (r: Result<u64, VarintFault>)
    ensures
        (r, *final(pos) as int) == varint_at(data@, *old(pos) as int),
{
    let start: usize = *pos;
    let ghost w = window(data@, start as int);
    let mut i: usize = 0;
    let mut sc: u64 = 1;
    let mut out: u64 = 0;
    if *pos >= data.len() {
        assert(continued(w) == 0);
        return Err(VarintFault::End);
    }
    loop
        invariant
            start == *old(pos),
            w == window(data@, start as int),
            start < data@.len(),
            i <= 9,
            *pos == start + i,
            i <= w.len(),
            forall|j: int| 0 <= j < i ==> w[j] >= 128,
            out == value(w.take(i as int)),
            sc == scale(i as nat),
        decreases 10 - i,
    {
        if *pos >= data.len() {
            proof {
                lemma_continued(w, i as nat);
            }
            return Err(VarintFault::End);
        }
        let b: u8 = data[*pos];
        let x: u64 = (b % 128) as u64;
        *pos += 1;
        proof {
            assert(b == w[i as int]);
            assert(w.take(i + 1) =~= w.take(i as int).push(b));
            lemma_value_push(w.take(i as int), b);
            lemma_value_bound(w.take(i as int));
            lemma_scales();
        }
        let ghost before = out;
        if i < 9 {
            assert(x * sc <= 127 * sc) by (nonlinear_arith)
                requires
                    x <= 127,
            ;
            out = out + x * sc;
            assert(value(w.take(i + 1)) == out);
            assert(out < 0x1_0000_0000_0000_0000);
        } else {
            out = out + (x % 2) * 0x8000_0000_0000_0000;
            assert(value(w.take(i + 1)) == before + x * 0x8000_0000_0000_0000);
            assert(value(w.take(i + 1)) % 0x1_0000_0000_0000_0000 == out);
        }
        if b < 128 {
            proof {
                lemma_continued(w, i as nat);
            }
            return Ok(out);
        }
        if i == 9 {
            proof {
                lemma_continued(w, 10);
            }
            return Err(VarintFault::TooLong);
        }
        sc = sc * 128;
        i += 1;
    }
}

/// Appends the shortest encoding of `v`.
pub fn varint_into(v: u64, out: &mut Vec<u8>)
    ensures
        final(out)@ == old(out)@ + varint_bytes(v as nat),
{
    let ghost start = out@;
    let mut rest: u64 = v;
    while rest >= 128
        invariant
            start + varint_bytes(v as nat) == out@ + varint_bytes(rest as nat),
        decreases rest,
    {
        let ghost before = out@;
        let b: u8 = 128 + (rest % 128) as u8;
        out.push(b);
        assert(before + (seq![b] + varint_bytes(rest as nat / 128)) =~= out@ + varint_bytes(
            rest as nat / 128,
        ));
        rest = rest / 128;
    }
    out.push(rest as u8);
}

/// Appends the encoding of the zigzag number of `v`.
pub fn zigzag_into(v: i64, out: &mut Vec<u8>)
    ensures
        final(out)@ == old(out)@ + varint_bytes(zigzag_of(v as int)),
{
    if v >= 0 {
        varint_into((v as u64) * 2, out);
    } else {
        varint_into((-(v + 1)) as u64 * 2 + 1, out);
    }
}

/// The integer whose zigzag number is `n`.
pub fn unzigzag_u64(n: u64) -> (v: i64)
    ensures
        v == unzigzag(n as nat),
{
    if n % 2 == 0 {
        (n / 2) as i64
    } else {
        -((n / 2) as i64) - 1
    }
}

proof fn lemma_bytes_len(v: nat, k: nat)
    requires
        k >= 1,
        v < scale(k),
    ensures
        1 <= varint_bytes(v).len() <= k,
    decreases k,
{
    if v >= 128 {
        if k == 1 {
            assert(scale(1) == 128) by {
                reveal_with_fuel(scale, 2);
            }
        }
        lemma_bytes_len(v / 128, (k - 1) as nat);
    }
}

proof fn lemma_bytes_value(v: nat)
    ensures
        varint_bytes(v).len() >= 1,
        value(varint_bytes(v)) == v,
        continued(varint_bytes(v)) == varint_bytes(v).len() - 1,
    decreases v,
{
    let s = varint_bytes(v);
    if v < 128 {
        assert(s.drop_first() =~= Seq::<u8>::empty());
        assert(value(s.drop_first()) == 0);
    } else {
        lemma_bytes_value(v / 128);
        assert(s.drop_first() =~= varint_bytes(v / 128));
        assert(s[0] % 128 == v % 128);
    }
}

proof fn lemma_continued_prefix(s: Seq<u8>, t: Seq<u8>)
    requires
        s.len() <= t.len(),
        s =~= t.take(s.len() as int),
        continued(s) < s.len(),
    ensures
        continued(t) == continued(s),
    decreases s.len(),
{
    assert(s[0] == t[0]);
    if s[0] >= 128 {
        assert(s.drop_first() =~= t.drop_first().take(s.len() - 1));
        lemma_continued_prefix(s.drop_first(), t.drop_first());
    }
}

/// A reader gives back the integer that a writer wrote, and stops right behind
/// it, whatever follows.
pub proof fn lemma_varint_round_trip(s: Seq<u8>, pos: int, v: u64)
    requires
        0 <= pos,
        pos + varint_bytes(v as nat).len() <= s.len(),
        s.subrange(pos, pos + varint_bytes(v as nat).len()) == varint_bytes(v as nat),
    ensures
        varint_at(s, pos) == (
            Ok::<u64, VarintFault>(v),
            pos + varint_bytes(v as nat).len(),
        ),
        varint_bytes(v as nat).len() <= MAX_LEN,
{
    let e = varint_bytes(v as nat);
    lemma_scales();
    assert(scale(10) == 128 * scale(9));
    lemma_bytes_len(v as nat, 10);
    lemma_bytes_value(v as nat);
    let w = window(s, pos);
    assert(w.take(e.len() as int) =~= e);
    lemma_continued_prefix(e, w);
}

/// Zigzag numbering is a bijection between the 64-bit signed and unsigned
/// integers.
pub proof fn lemma_zigzag_round_trip(v: i64, n: u64)
    ensures
        unzigzag(zigzag_of(v as int)) == v,
        zigzag_of(v as int) <= u64::MAX,
        zigzag_of(unzigzag(n as nat)) == n,
        i64::MIN <= unzigzag(n as nat) <= i64::MAX,
{
}

/// Reading never moves backwards nor past the end of the input, and a
/// successful read takes at least one byte.
pub proof fn lemma_varint_progress(s: Seq<u8>, pos: int)
    requires
        0 <= pos,
    ensures
        pos <= varint_at(s, pos).1,
        varint_at(s, pos).1 <= s.len() || varint_at(s, pos).1 == pos,
        varint_at(s, pos).0 is Ok ==> pos < varint_at(s, pos).1 <= s.len(),
{
}

proof fn lemma_continued_cut(w: Seq<u8>, n: int)
    requires
        0 <= n <= w.len(),
        continued(w.take(n)) < n,
    ensures
        continued(w) == continued(w.take(n)),
    decreases w.len(),
{
    assert(w.take(n)[0] == w[0]);
    if w[0] >= 128 {
        assert(w.take(n).drop_first() =~= w.drop_first().take(n - 1));
        lemma_continued_cut(w.drop_first(), n - 1);
    }
}

/// What is read from the first `n` bytes is read from all of them too.
pub proof fn lemma_varint_cut(s: Seq<u8>, n: int, pos: int)
    requires
        0 <= pos,
        0 <= n <= s.len(),
        varint_at(s.take(n), pos).0 is Ok,
    ensures
        varint_at(s, pos) == varint_at(s.take(n), pos),
{
    let short = window(s.take(n), pos);
    let long = window(s, pos);
    assert(short =~= long.take(short.len() as int));
    lemma_continued_cut(long, short.len() as int);
    let k = continued(short) as int + 1;
    assert(short.take(k) =~= long.take(k));
}

/// How an integer is made of its bytes: a byte below 128 is the last; a larger one
/// adds what it has above 128 to 128 times what the bytes behind it give, in 64-bit
/// arithmetic.
pub proof fn lemma_varint_groups(s: Seq<u8>, pos: int)
    requires
        0 <= pos < s.len(),
    ensures
        s[pos] < 128 ==> varint_at(s, pos) == (Ok::<u64, VarintFault>(s[pos] as u64), pos + 1),
        s[pos] >= 128 ==> match varint_at(s, pos + 1) {
            (Ok(v), p) => p - pos <= 10 ==> varint_at(s, pos).1 == p && varint_at(s, pos).0 == Ok::<
                u64,
                VarintFault,
            >(((s[pos] - 128 + 128 * v) % 0x1_0000_0000_0000_0000) as u64),
            (Err(_), _) => varint_at(s, pos).0 is Err,
        },
{
    let w = window(s, pos);
    let v = window(s, pos + 1);
    assert(w[0] == s[pos]);
    if s[pos] < 128 {
        assert(w.take(1) =~= seq![s[pos]]);
        assert(seq![s[pos]].drop_first() =~= seq![]);
        assert(value(seq![s[pos]]) == s[pos]) by {
            assert(value(seq![s[pos]].drop_first()) == 0);
        }
    } else {
        let rest = w.drop_first();
        let n = rest.len() as int;
        assert(rest =~= v.take(n));
        if continued(rest) < n {
            lemma_continued_cut(v, n);
            let k = continued(rest) as int + 1;
            assert(w.take(k + 1).drop_first() =~= v.take(k));
            let x = value(v.take(k)) as int;
            let m = 0x1_0000_0000_0000_0000int;
            assert((s[pos] - 128 + 128 * x) % m == (s[pos] - 128 + 128 * (x % m)) % m)
                by (nonlinear_arith)
                requires
                    m == 0x1_0000_0000_0000_0000int,
            {
                let q = x / m;
                assert(x == q * m + x % m);
                assert(128 * x == (128 * q) * m + 128 * (x % m));
                vstd::arithmetic::div_mod::lemma_mod_multiples_vanish(
                    128 * q,
                    s[pos] - 128 + 128 * (x % m),
                    m,
                );
            }
        } else {
            lemma_continued_bound(rest);
            if continued(v) < v.len() {
                lemma_continued_past(v, n);
            }
        }
    }
}

proof fn lemma_continued_bound(w: Seq<u8>)
    ensures
        continued(w) <= w.len(),
        forall|i: int| 0 <= i < continued(w) ==> #[trigger] w[i] >= 128,
        continued(w) < w.len() ==> w[continued(w) as int] < 128,
    decreases w.len(),
{
    if w.len() > 0 && w[0] >= 128 {
        let r = w.drop_first();
        lemma_continued_bound(r);
        assert forall|i: int| 0 <= i < continued(w) implies #[trigger] w[i] >= 128 by {
            if i > 0 {
                assert(r[i - 1] == w[i]);
            }
        }
    }
}

proof fn lemma_continued_past(w: Seq<u8>, n: int)
    requires
        0 <= n <= w.len(),
        continued(w.take(n)) >= n,
    ensures
        continued(w) >= n,
{
    lemma_continued_bound(w);
    lemma_continued_bound(w.take(n));
    if continued(w) < n {
        assert(w.take(n)[continued(w) as int] < 128);
    }
}

/// When no integer can be read: where the input ends before a byte below 128, with
/// fewer than ten bytes read, or where ten bytes are all larger. All bytes looked at
/// are passed.
pub proof fn lemma_varint_faults(s: Seq<u8>, pos: int)
    requires
        0 <= pos <= s.len(),
    ensures
        varint_at(s, pos).0 == Err::<u64, VarintFault>(VarintFault::End) <==> s.len() - pos < 10
            && forall|i: int| pos <= i < s.len() ==> #[trigger] s[i] >= 128,
        varint_at(s, pos).0 == Err::<u64, VarintFault>(VarintFault::TooLong) <==> s.len() - pos
            >= 10 && forall|i: int| pos <= i < pos + 10 ==> #[trigger] s[i] >= 128,
        varint_at(s, pos).0 == Err::<u64, VarintFault>(VarintFault::End) ==> varint_at(s, pos).1
            == s.len(),
        varint_at(s, pos).0 == Err::<u64, VarintFault>(VarintFault::TooLong) ==> varint_at(
            s,
            pos,
        ).1 == pos + 10,
{
    let w = window(s, pos);
    lemma_continued_bound(w);
    assert forall|i: int| pos <= i < pos + w.len() implies #[trigger] s[i] == w[i - pos] by {}
    if continued(w) < w.len() {
        assert(s[pos + continued(w)] < 128);
    } else {
        assert forall|i: int| pos <= i < pos + w.len() implies #[trigger] s[i] >= 128 by {
            assert(w[i - pos] >= 128);
        }
    }
}

/// Zigzag numbers: the even ones are those of 0, 1, 2, ..., the odd ones those of
/// -1, -2, -3, ...
pub proof fn lemma_zigzag_order(k: int)
    requires
        k >= 0,
    ensures
        zigzag_of(k) == 2 * k,
        zigzag_of(-k - 1) == 2 * k + 1,
        unzigzag((2 * k) as nat) == k,
        unzigzag((2 * k + 1) as nat) == -k - 1,
{
}

/// The bytes of an integer: seven bits in each, the lowest first, all but the last
/// marked by 128 more, and none without need.
pub proof fn lemma_varint_written(v: nat)
    ensures
        v < 128 ==> varint_bytes(v) == seq![v as u8],
        v >= 128 ==> varint_bytes(v).len() > 1 && varint_bytes(v)[0] == 128 + v % 128
            && varint_bytes(v).drop_first() == varint_bytes(v / 128),
{
    if v >= 128 {
        assert(varint_bytes(v).drop_first() =~= varint_bytes(v / 128));
        assert(varint_bytes(v / 128).len() > 0);
    }
}

} // verus!
