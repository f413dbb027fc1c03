use vstd::arithmetic::div_mod::{lemma_fundamental_div_mod, lemma_fundamental_div_mod_converse};
use vstd::prelude::*;

verus! {

/// `256` raised to the power `k`: the number of values a `k`-byte field can hold.
pub open spec fn pow256(k: nat) -> nat
    decreases k,
{
    if k == 0 {
        1
    } else {
        256 * pow256((k - 1) as nat)
    }
}

/// The value of a byte sequence read as an unsigned big-endian integer.
pub open spec fn be_val(s: Seq<u8>) -> nat
    decreases s.len(),
{
    if s.len() == 0 {
        0
    } else {
        be_val(s.drop_last()) * 256 + s.last() as nat
    }
}

/// The minimal big-endian representation of `n`: no leading zero byte,
/// and empty for zero.
pub open spec fn min_be_bytes(n: nat) -> Seq<u8>
    decreases n,
{
    if n == 0 {
        Seq::empty()
    } else {
        min_be_bytes(n / 256).push((n % 256) as u8)
    }
}

pub proof fn lemma_pow256_pos(k: nat)
    ensures
        pow256(k) >= 1,
    decreases k,
{
    if k > 0 {
        lemma_pow256_pos((k - 1) as nat);
    }
}

pub proof fn lemma_pow256_monotone(j: nat, k: nat)
    requires
        j <= k,
    ensures
        pow256(j) <= pow256(k),
    decreases k,
{
    if j < k {
        lemma_pow256_monotone(j, (k - 1) as nat);
        lemma_pow256_pos((k - 1) as nat);
        assert(pow256(k) == 256 * pow256((k - 1) as nat));
        assert(pow256((k - 1) as nat) <= 256 * pow256((k - 1) as nat)) by (nonlinear_arith)
            requires pow256((k - 1) as nat) >= 1;
    }
}

/// A `k`-byte field holds values below `pow256(k)`.
pub proof fn lemma_be_val_bound(s: Seq<u8>)
    ensures
        be_val(s) < pow256(s.len()),
    decreases s.len(),
{
    if s.len() > 0 {
        lemma_be_val_bound(s.drop_last());
        let p = pow256((s.len() - 1) as nat);
        assert(be_val(s.drop_last()) * 256 + s.last() < 256 * p) by (nonlinear_arith)
            requires be_val(s.drop_last()) < p, s.last() < 256;
    }
}

/// The minimal representation reads back as the number it was built from,
/// and carries no leading zero.
pub proof fn lemma_min_be_bytes_val(n: nat)
    ensures
        be_val(min_be_bytes(n)) == n,
        n > 0 ==> min_be_bytes(n).len() >= 1 && min_be_bytes(n)[0] != 0,
    decreases n,
{
    if n > 0 {
        lemma_min_be_bytes_val(n / 256);
        let s = min_be_bytes(n / 256);
        assert(min_be_bytes(n).drop_last() == s);
        lemma_fundamental_div_mod(n as int, 256);
        if n / 256 == 0 {
            assert(min_be_bytes(n)[0] == (n % 256) as u8);
        } else {
            assert(min_be_bytes(n)[0] == s[0]);
        }
    }
}

/// A nonzero leading byte makes the value at least `pow256(len - 1)`, hence nonzero.
pub proof fn lemma_be_val_lower_bound(s: Seq<u8>)
    requires
        s.len() > 0,
        s[0] != 0,
    ensures
        be_val(s) >= pow256((s.len() - 1) as nat),
    decreases s.len(),
{
    if s.len() == 1 {
        assert(be_val(s.drop_last()) == 0);
        assert(be_val(s) == 0 * 256 + s.last() as nat);
        assert(s.last() == s[0]);
        lemma_pow256_pos(0);
    } else {
        let s0 = s.drop_last();
        assert(s0[0] == s[0]);
        lemma_be_val_lower_bound(s0);
        let p = pow256((s0.len() - 1) as nat);
        assert(be_val(s0) * 256 + s.last() >= 256 * p) by (nonlinear_arith)
            requires be_val(s0) >= p, s.last() >= 0;
    }
}

/// A byte sequence with no leading zero is the minimal representation of its value.
pub proof fn lemma_be_val_canonical(s: Seq<u8>)
    requires
        s.len() > 0,
        s[0] != 0,
    ensures
        min_be_bytes(be_val(s)) == s,
    decreases s.len(),
{
    let s0 = s.drop_last();
    let b = s.last();
    let v = be_val(s);
    lemma_fundamental_div_mod_converse(v as int, 256, be_val(s0) as int, b as int);
    assert(v / 256 == be_val(s0) && v % 256 == b);
    if s.len() == 1 {
        assert(v == b && v != 0);
        assert(min_be_bytes(v) == min_be_bytes(0).push(b as u8));
        assert(min_be_bytes(v) =~= s);
    } else {
        assert(s0[0] == s[0]);
        lemma_be_val_canonical(s0);
        lemma_be_val_lower_bound(s0);
        lemma_pow256_pos((s0.len() - 1) as nat);
        assert(be_val(s0) > 0);
        assert(v > 0) by (nonlinear_arith)
            requires v == be_val(s0) * 256 + b, be_val(s0) > 0, b >= 0;
        assert(min_be_bytes(v) == s0.push(b));
        assert(s0.push(b) =~= s);
    }
}

/// Values below `pow256(k)` need at most `k` bytes.
pub proof fn lemma_min_be_bytes_len(n: nat, k: nat)
    requires
        n < pow256(k),
    ensures
        min_be_bytes(n).len() <= k,
    decreases k,
{
    if n > 0 {
        assert(k > 0);
        let p = pow256((k - 1) as nat);
        lemma_fundamental_div_mod(n as int, 256);
        assert(n / 256 < p) by (nonlinear_arith)
            requires n < 256 * p, n == 256 * (n / 256) + n % 256, 0 <= n % 256 < 256;
        lemma_min_be_bytes_len(n / 256, (k - 1) as nat);
    }
}

/// Zero bytes on the left do not change the value.
pub proof fn lemma_be_val_zero_prefix(s: Seq<u8>, k: int)
    requires
        0 <= k <= s.len(),
        forall|i: int| 0 <= i < k ==> s[i] == 0,
    ensures
        be_val(s) == be_val(s.skip(k)),
    decreases s.len(),
{
    if s.len() == k {
        assert(s.skip(k) =~= Seq::<u8>::empty());
        lemma_be_val_all_zero(s);
    } else {
        let s0 = s.drop_last();
        lemma_be_val_zero_prefix(s0, k);
        assert(s.skip(k).drop_last() =~= s0.skip(k));
        assert(s.skip(k).last() == s.last());
    }
}

pub proof fn lemma_be_val_all_zero(s: Seq<u8>)
    requires
        forall|i: int| 0 <= i < s.len() ==> s[i] == 0,
    ensures
        be_val(s) == 0,
    decreases s.len(),
{
    if s.len() > 0 {
        lemma_be_val_all_zero(s.drop_last());
    }
}

/// The big-endian bytes of `x` with leading zeros stripped.
pub fn to_be_bytes_trimmed(x: u128) -> (r: Vec<u8>)
    ensures
        r@ == min_be_bytes(x as nat),
{
    let mut v: Vec<u8> = Vec::new();
    let mut y: u128 = x;
    proof {
        assert(min_be_bytes(x as nat) =~= min_be_bytes(x as nat) + v@);
    }
    while y > 0
        invariant
            min_be_bytes(x as nat) == min_be_bytes(y as nat) + v@,
        decreases y,
    {
        let b: u8 = (y % 256) as u8;
        let ghost prev = v@;
        v.insert(0, b);
        proof {
            assert(v@ =~= seq![b] + prev);
            assert(min_be_bytes(y as nat) + prev =~= min_be_bytes((y / 256) as nat) + v@);
        }
        y = y / 256;
    }
    proof {
        assert(min_be_bytes(x as nat) =~= v@);
    }
    v
}

/// The number of bytes in the minimal big-endian representation of `x`.
pub fn byte_width(x: u128) -> (r: usize)
    ensures
        r as nat == min_be_bytes(x as nat).len(),
{
    let mut l: usize = 0;
    let mut y: u128 = x;
    proof {
        reveal_with_fuel(pow256, 17);
        assert(pow256(16) == 0x100000000000000000000000000000000);
        lemma_min_be_bytes_len(x as nat, 16);
    }
    while y > 0
        invariant
            min_be_bytes(x as nat).len() <= 16,
            min_be_bytes(x as nat).len() == min_be_bytes(y as nat).len() + l,
        decreases y,
    {
        l = l + 1;
        y = y / 256;
    }
    l
}

/// The value of up to sixteen big-endian bytes.
pub fn read_be_u128(bytes: &[u8]) -> (r: u128)
    requires
        bytes@.len() <= 16,
    ensures
        r as nat == be_val(bytes@),
{
    let mut acc: u128 = 0;
    let mut i: usize = 0;
    proof {
        assert(bytes@.take(0) =~= Seq::<u8>::empty());
    }
    while i < bytes.len()
        invariant
            0 <= i <= bytes@.len() <= 16,
            acc as nat == be_val(bytes@.take(i as int)),
        decreases bytes@.len() - i,
    {
        proof {
            lemma_be_val_bound(bytes@.take(i as int));
            lemma_pow256_monotone(i as nat, 15);
            reveal_with_fuel(pow256, 16);
            assert(pow256(15) == 0x1000000000000000000000000000000);
            assert(bytes@.take(i + 1).drop_last() =~= bytes@.take(i as int));
            assert(bytes@.take(i + 1).last() == bytes@[i as int]);
        }
        let b = bytes[i];
        acc = acc * 256 + (b as u128);
        i = i + 1;
    }
    proof {
        assert(bytes@.take(bytes@.len() as int) =~= bytes@);
    }
    acc
}

} // verus!
