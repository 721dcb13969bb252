//! Little-endian numbers of a given width.

use vstd::prelude::*;

verus! {

/// 256 to the power `n`: how many values `n` bytes can hold.
pub open spec fn pow256(n: nat) -> int
    decreases n,
{
    if n == 0 {
        1
    } else {
        256 * pow256((n - 1) as nat)
    }
}

/// The `n` low bytes of `v`, least significant first. A negative `v` gives its two's complement.
pub open spec fn le_bytes(v: int, n: nat) -> Seq<u8>
    decreases n,
{
    if n == 0 {
        Seq::<u8>::empty()
    } else {
        seq![(v % 256) as u8] + le_bytes(v / 256, (n - 1) as nat)
    }
}

/// The number that the bytes of `s` stand for, least significant first.
pub open spec fn le_value(s: Seq<u8>) -> int
    decreases s.len(),
{
    if s.len() == 0 {
        0
    } else {
        s[0] as int + 256 * le_value(s.drop_first())
    }
}

/// The number of values that the widths used by the format can hold.
pub proof fn lemma_pow256()
    ensures
        pow256(1) == 0x100,
        pow256(2) == 0x1_0000,
        pow256(4) == 0x1_0000_0000,
        pow256(8) == 0x1_0000_0000_0000_0000,
{
    reveal_with_fuel(pow256, 9);
}

pub proof fn lemma_pow256_monotonic(a: nat, b: nat)
    requires
        a <= b,
    ensures
        1 <= pow256(a) <= pow256(b),
    decreases b,
{
    if b == 0 {
    } else if a == b {
        lemma_pow256_monotonic((a - 1) as nat, (b - 1) as nat);
    } else {
        lemma_pow256_monotonic(a, (b - 1) as nat);
    }
}

pub proof fn lemma_le_bytes_len(v: int, n: nat)
    ensures
        le_bytes(v, n).len() == n,
    decreases n,
{
    if n > 0 {
        lemma_le_bytes_len(v / 256, (n - 1) as nat);
    }
}

/// `n` bytes hold every number from 0 up to `pow256(n)`: written and read back it is the same.
pub proof fn lemma_le_roundtrip(v: int, n: nat)
    requires
        0 <= v < pow256(n),
    ensures
        le_value(le_bytes(v, n)) == v,
    decreases n,
{
    if n > 0 {
        let m = (n - 1) as nat;
        assert(0 <= v / 256 < pow256(m));
        lemma_le_roundtrip(v / 256, m);
        lemma_le_bytes_len(v / 256, m);
        assert(le_bytes(v, n).drop_first() =~= le_bytes(v / 256, m));
    }
}

/// The byte at `i` is the `i`th digit of the number in base 256, counted from the lowest.
pub proof fn bytes_are_digits(v: int, n: nat, i: nat)
    requires
        0 <= v,
        i < n,
    ensures
        le_bytes(v, n).len() == n,
        le_bytes(v, n)[i as int] == (v / pow256(i)) % 256,
    decreases i,
{
    lemma_le_bytes_len(v, n);
    lemma_le_bytes_len(v / 256, (n - 1) as nat);
    if i > 0 {
        let j = (i - 1) as nat;
        bytes_are_digits(v / 256, (n - 1) as nat, j);
        assert(le_bytes(v, n)[i as int] == le_bytes(v / 256, (n - 1) as nat)[j as int]);
        lemma_pow256_monotonic(0, j);
        vstd::arithmetic::div_mod::lemma_div_denominator(v, 256, pow256(j));
        assert((v / 256) / pow256(j) == v / pow256(i));
    }
}

/// Bytes are determined by the number that they stand for and by their count.
pub proof fn lemma_le_value_roundtrip(s: Seq<u8>)
    ensures
        0 <= le_value(s) < pow256(s.len()),
        le_bytes(le_value(s), s.len()) == s,
    decreases s.len(),
{
    if s.len() > 0 {
        let rest = s.drop_first();
        lemma_le_value_roundtrip(rest);
        let v = le_value(s);
        assert(v % 256 == s[0] as int);
        assert(v / 256 == le_value(rest));
        assert(le_bytes(v, s.len()) =~= s);
    } else {
        assert(le_bytes(le_value(s), s.len()) =~= s);
    }
}

/// Only the low bytes count: `v` and `v + k * pow256(n)` have the same `n` bytes.
pub proof fn lemma_le_bytes_wrap(v: int, k: int, n: nat)
    ensures
        le_bytes(v + k * pow256(n), n) == le_bytes(v, n),
    decreases n,
{
    if n > 0 {
        let m = (n - 1) as nat;
        let p = pow256(m);
        assert(k * pow256(n) == 256 * (k * p)) by (nonlinear_arith)
            requires
                pow256(n) == 256 * p,
        ;
        let w = v + k * pow256(n);
        assert(w == v + 256 * (k * p));
        assert(w % 256 == v % 256);
        assert(w / 256 == v / 256 + k * p);
        lemma_le_bytes_wrap(v / 256, k, m);
    }
}

/// Appends the `n` low bytes of `v`, least significant first.
pub(crate) fn push_le(out: &mut Vec<u8>, v: u64, n: usize)
    ensures
        final(out)@ == old(out)@ + le_bytes(v as int, n as nat),
{
    let mut rest: u64 = v;
    let mut i: usize = 0;
    assert(out@ + le_bytes(rest as int, n as nat) =~= old(out)@ + le_bytes(v as int, n as nat));
    while i < n
        invariant
            i <= n,
            out@ + le_bytes(rest as int, (n - i) as nat) == old(out)@ + le_bytes(
                v as int,
                n as nat,
            ),
        decreases n - i,
    {
        let ghost before = out@;
        out.push((rest % 256) as u8);
        proof {
            let tail = le_bytes(rest as int / 256, (n - i - 1) as nat);
            assert(before + (seq![(rest % 256) as u8] + tail) =~= out@ + tail);
        }
        rest = rest / 256;
        i = i + 1;
    }
    assert(out@ + le_bytes(rest as int, 0) =~= out@);
}

/// The number that the `n` bytes at `at` stand for, least significant first.
pub(crate) fn read_le(data: &[u8], at: usize, n: usize) -> (v: u64)
    requires
        n <= 8,
        at + n <= data@.len(),
    ensures
        v == le_value(data@.subrange(at as int, at + n)),
        v < pow256(n as nat),
{
    let len: usize = data.len();
    let mut v: u64 = 0;
    let mut i: usize = n;
    proof {
        lemma_pow256();
    }
    assert(data@.subrange(at + n, at + n).len() == 0);
    while i > 0
        invariant
            i <= n <= 8,
            at + n <= data@.len() == len,
            v == le_value(data@.subrange(at + i, at + n)),
            v < pow256((n - i) as nat),
            pow256(8) == 0x1_0000_0000_0000_0000,
        decreases i,
    {
        proof {
            let s = data@.subrange(at + i - 1, at + n);
            assert(s.drop_first() =~= data@.subrange(at + i, at + n));
            assert(le_value(s) == data@[at + i - 1] as int + 256 * v);
            lemma_pow256_monotonic((n - i + 1) as nat, 8);
        }
        v = v * 256 + data[at + i - 1] as u64;
        i = i - 1;
    }
    v
}

} // verus!
