use vstd::prelude::*;
use vstd::arithmetic::power2::{pow2, lemma_pow2_unfold, lemma_pow2_pos};

verus! {

/// A bit sequence: every element is 0 or 1, most significant bit first.
pub open spec fn is_bits(s: Seq<u8>) -> bool {
    forall|i: int| 0 <= i < s.len() ==> s[i] <= 1
}

/// The `n` low-order bits of `v`, most significant bit first.
pub open spec fn bits_of_value(v: u64, n: nat) -> Seq<u8>
    decreases n,
{
    if n == 0 {
        Seq::empty()
    } else {
        bits_of_value(v / 2, (n - 1) as nat).push((v % 2) as u8)
    }
}

/// The value of a bit sequence read most-significant-bit first.
pub open spec fn value_of_bits(s: Seq<u8>) -> nat
    decreases s.len(),
{
    if s.len() == 0 {
        0
    } else {
        (2 * value_of_bits(s.drop_last()) + s.last()) as nat
    }
}

/// All the bits of a byte sequence, in order, each byte most significant bit first.
pub open spec fn bits_of_bytes(s: Seq<u8>) -> Seq<u8>
    decreases s.len(),
{
    if s.len() == 0 {
        Seq::empty()
    } else {
        bits_of_bytes(s.drop_last()) + bits_of_value(s.last() as u64, 8)
    }
}

/// A run of `n` zero bits, used for end-of-stream padding.
pub open spec fn zero_bits(n: nat) -> Seq<u8> {
    Seq::new(n, |i: int| 0u8)
}

/// `a` is an initial segment of `b` (equality included).
pub open spec fn is_prefix(a: Seq<u8>, b: Seq<u8>) -> bool {
    a.len() <= b.len() && b.take(a.len() as int) == a
}

pub proof fn lemma_bits_of_value_props(v: u64, n: nat)
    ensures
        bits_of_value(v, n).len() == n,
        is_bits(bits_of_value(v, n)),
    decreases n,
{
    if n > 0 {
        lemma_bits_of_value_props(v / 2, (n - 1) as nat);
    }
}

/// Appending one bit to the low end of a value appends that bit to its bit sequence.
pub proof fn lemma_bits_of_value_push(v: u64, n: nat, b: u8)
    requires
        b <= 1,
        v < pow2(n),
        n < 64,
    ensures
        bits_of_value((2 * v + b) as u64, n + 1) == bits_of_value(v, n).push(b),
{
    assert(pow2(n) >= 1) by {
        lemma_pow2_pos(n);
    }
    assert(pow2(n) <= pow2(63)) by {
        if n < 63 {
            vstd::arithmetic::power2::lemma_pow2_strictly_increases(n, 63);
        }
    }
    assert(pow2(63) == 0x8000_0000_0000_0000) by {
        vstd::arithmetic::power2::lemma2_to64_rest();
    }
    let w = (2 * v + b) as u64;
    assert(w / 2 == v && w % 2 == b);
    assert(bits_of_value(w, n + 1) == bits_of_value(v, n).push(b));
}

pub proof fn lemma_value_of_bits_of_value(v: u64, n: nat)
    requires
        v < pow2(n),
    ensures
        value_of_bits(bits_of_value(v, n)) == v,
    decreases n,
{
    if n == 0 {
        assert(pow2(0) == 1) by {
            vstd::arithmetic::power2::lemma2_to64();
        }
    } else {
        lemma_pow2_unfold(n);
        assert(v / 2 < pow2((n - 1) as nat));
        lemma_value_of_bits_of_value(v / 2, (n - 1) as nat);
        lemma_bits_of_value_props(v / 2, (n - 1) as nat);
        assert(bits_of_value(v, n).drop_last() == bits_of_value(v / 2, (n - 1) as nat));
        assert(bits_of_value(v, n).last() == v % 2);
    }
}

pub proof fn lemma_value_of_bits_bound(s: Seq<u8>)
    requires
        is_bits(s),
    ensures
        value_of_bits(s) < pow2(s.len()),
    decreases s.len(),
{
    if s.len() == 0 {
        assert(pow2(0) == 1) by {
            vstd::arithmetic::power2::lemma2_to64();
        }
    } else {
        assert(is_bits(s.drop_last()));
        lemma_value_of_bits_bound(s.drop_last());
        lemma_pow2_unfold(s.len());
        assert(s.last() <= 1);
    }
}

/// A bit sequence is recovered exactly from its value.
pub proof fn lemma_bits_of_value_of_bits(s: Seq<u8>)
    requires
        is_bits(s),
        s.len() < 64,
    ensures
        value_of_bits(s) < pow2(s.len()),
        bits_of_value(value_of_bits(s) as u64, s.len()) == s,
    decreases s.len(),
{
    lemma_value_of_bits_bound(s);
    if s.len() > 0 {
        let t = s.drop_last();
        assert(is_bits(t));
        lemma_bits_of_value_of_bits(t);
        assert(pow2(t.len()) <= pow2(63)) by {
            if t.len() < 63 {
                vstd::arithmetic::power2::lemma_pow2_strictly_increases(t.len(), 63);
            }
        }
        assert(pow2(63) < pow2(64)) by {
            vstd::arithmetic::power2::lemma_pow2_strictly_increases(63, 64);
        }
        assert(pow2(64) == 0x1_0000_0000_0000_0000) by {
            vstd::arithmetic::power2::lemma2_to64_rest();
        }
        let v = value_of_bits(t) as u64;
        assert(value_of_bits(s) == 2 * v + s.last());
        lemma_bits_of_value_push(v, t.len(), s.last());
        assert(t.push(s.last()) == s);
    }
}

pub proof fn lemma_bits_of_bytes_props(s: Seq<u8>)
    ensures
        bits_of_bytes(s).len() == 8 * s.len(),
        is_bits(bits_of_bytes(s)),
    decreases s.len(),
{
    if s.len() > 0 {
        lemma_bits_of_bytes_props(s.drop_last());
        lemma_bits_of_value_props(s.last() as u64, 8);
    }
}

/// The bits of byte `i` sit at bit positions `8 * i` to `8 * i + 8`.
pub proof fn lemma_bits_of_bytes_slice(s: Seq<u8>, i: int)
    requires
        0 <= i < s.len(),
    ensures
        bits_of_bytes(s).subrange(8 * i, 8 * i + 8) == bits_of_value(s[i] as u64, 8),
    decreases s.len(),
{
    lemma_bits_of_bytes_props(s);
    lemma_bits_of_bytes_props(s.drop_last());
    lemma_bits_of_value_props(s.last() as u64, 8);
    if i == s.len() - 1 {
        assert(bits_of_bytes(s).subrange(8 * i, 8 * i + 8) =~= bits_of_value(s.last() as u64, 8));
    } else {
        lemma_bits_of_bytes_slice(s.drop_last(), i);
        assert(bits_of_bytes(s).subrange(8 * i, 8 * i + 8) =~= bits_of_bytes(
            s.drop_last(),
        ).subrange(8 * i, 8 * i + 8));
    }
}

pub proof fn lemma_bits_of_bytes_push(s: Seq<u8>, b: u8)
    ensures
        bits_of_bytes(s.push(b)) == bits_of_bytes(s) + bits_of_value(b as u64, 8),
{
    assert(s.push(b).drop_last() == s);
    assert(s.push(b).last() == b);
}

} // verus!
