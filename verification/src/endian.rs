//! Little-endian byte encodings of unsigned integers.

use vstd::prelude::*;

verus! {

/// The `k` low bytes of a number, least significant first.
pub open spec fn le_bytes(x: int, k: nat) -> Seq<u8>
    decreases k,
{
    if k == 0 {
        Seq::empty()
    } else {
        seq![(x % 256) as u8] + le_bytes(x / 256, (k - 1) as nat)
    }
}

/// The number whose bytes these are, least significant first.
pub open spec fn le_value(s: Seq<u8>) -> int
    decreases s.len(),
{
    if s.len() == 0 {
        0
    } else {
        s[0] + 256 * le_value(s.drop_first())
    }
}

/// 256 to the power of `k`.
pub open spec fn pow256(k: nat) -> int
    decreases k,
{
    if k == 0 {
        1
    } else {
        256 * pow256((k - 1) as nat)
    }
}

pub proof fn lemma_le_bytes_len(x: int, k: nat)
    ensures
        le_bytes(x, k).len() == k,
    decreases k,
{
    if k > 0 {
        lemma_le_bytes_len(x / 256, (k - 1) as nat);
    }
}

/// `k` bytes hold a number below 256 to the power of `k`.
pub proof fn lemma_le_value_bound(s: Seq<u8>)
    ensures
        0 <= le_value(s) < pow256(s.len()),
    decreases s.len(),
{
    if s.len() > 0 {
        lemma_le_value_bound(s.drop_first());
    }
}

/// Reading back the bytes of a number that fits gives the number.
pub proof fn lemma_le_round_trip(x: int, k: nat)
    requires
        0 <= x < pow256(k),
    ensures
        le_value(le_bytes(x, k)) == x,
    decreases k,
{
    if k > 0 {
        lemma_le_round_trip(x / 256, (k - 1) as nat);
        assert(le_bytes(x, k).drop_first() =~= le_bytes(x / 256, (k - 1) as nat));
    }
}

/// Writing the number that bytes hold gives the bytes back.
pub proof fn lemma_le_bytes_of_value(s: Seq<u8>)
    ensures
        le_bytes(le_value(s), s.len()) == s,
    decreases s.len(),
{
    if s.len() > 0 {
        lemma_le_bytes_of_value(s.drop_first());
        lemma_le_value_bound(s.drop_first());
        assert(s =~= seq![s[0]] + s.drop_first());
    } else {
        assert(s =~= Seq::empty());
    }
}

pub proof fn lemma_pow256()
    ensures
        pow256(1) == 0x100,
        pow256(2) == 0x1_0000,
        pow256(4) == 0x1_0000_0000,
        pow256(8) == 0x1_0000_0000_0000_0000,
        pow256(16) == 0x1_0000_0000_0000_0000_0000_0000_0000_0000,
{
    reveal_with_fuel(pow256, 17);
}

pub proof fn lemma_pow256_monotone(j: nat, k: nat)
    requires
        j <= k,
    ensures
        0 < pow256(j) <= pow256(k),
    decreases k,
{
    if j < k {
        lemma_pow256_monotone(j, (k - 1) as nat);
    } else if k > 0 {
        lemma_pow256_monotone((k - 1) as nat, (k - 1) as nat);
    }
}

/// Appends the `k` low bytes of a number, least significant first.
pub fn push_le(out: &mut Vec<u8>, x: u128, k: usize)
    ensures
        final(out)@ == old(out)@ + le_bytes(x as int, k as nat),
{
    let ghost before = out@;
    let mut rest: u128 = x;
    let mut i: usize = 0;
    assert(out@ + le_bytes(rest as int, k as nat) =~= before + le_bytes(x as int, k as nat));
    while i < k
        invariant
            i <= k,
            out@ + le_bytes(rest as int, (k - i) as nat) == before + le_bytes(x as int, k as nat),
        decreases k - i,
    {
        let ghost done = out@;
        let ghost high = le_bytes(rest as int / 256, (k - i - 1) as nat);
        out.push((rest % 256) as u8);
        assert(out@ + high =~= done + (seq![(rest as int % 256) as u8] + high));
        rest = rest / 256;
        i += 1;
    }
    assert(out@ =~= before + le_bytes(x as int, k as nat));
}

/// Reads the number held by the `k` bytes at `at`, least significant first.
pub fn read_le(s: &[u8], at: usize, k: usize) -> (r: u128)
    requires
        at + k <= s@.len(),
        k <= 16,
    ensures
        r == le_value(s@.subrange(at as int, at + k)),
        r < pow256(k as nat),
{
    let n: usize = s.len();
    let mut acc: u128 = 0;
    let mut i: usize = k;
    proof {
        assert(s@.subrange(at + k, at + k) =~= Seq::<u8>::empty());
    }
    while i > 0
        invariant
            i <= k <= 16,
            n == s@.len(),
            at + k <= n,
            acc == le_value(s@.subrange(at + i, at + k)),
        decreases i,
    {
        i -= 1;
        let ghost t = s@.subrange(at + i, at + k);
        proof {
            assert(t.drop_first() =~= s@.subrange(at + i + 1, at + k));
            lemma_le_value_bound(t);
            lemma_pow256_monotone(t.len(), 16);
            lemma_pow256();
        }
        acc = acc * 256 + s[at + i] as u128;
    }
    proof {
        lemma_le_value_bound(s@.subrange(at as int, at + k));
    }
    acc
}

/// Byte `i` of a number is its digit at place `i` in radix 256, the least significant
/// first.
pub proof fn lemma_le_digits(x: int, k: nat, i: nat)
    requires
        0 <= x,
        i < k,
    ensures
        le_bytes(x, k)[i as int] == (x / pow256(i)) % 256,
    decreases k,
{
    lemma_le_bytes_len(x, k);
    let rest = le_bytes(x / 256, (k - 1) as nat);
    lemma_le_bytes_len(x / 256, (k - 1) as nat);
    if i > 0 {
        let j = (i - 1) as nat;
        lemma_le_digits(x / 256, (k - 1) as nat, j);
        assert(le_bytes(x, k)[i as int] == rest[j as int]);
        lemma_pow256_monotone(0, j);
        vstd::arithmetic::div_mod::lemma_div_denominator(x, 256, pow256(j));
    } else {
        assert(le_bytes(x, k)[0] == (x % 256) as u8);
    }
}

} // verus!
