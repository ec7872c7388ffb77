//! Bytes as bits, most significant bit first, and back.

use vstd::prelude::*;
use vstd::arithmetic::power2::{pow2, lemma2_to64};

verus! {

/// Bit `j` of `b`, counting from the most significant (`j == 0`) to the least (`j == 7`).
pub open spec fn byte_bit(b: u8, j: nat) -> bool {
    (b as nat / pow2((7 - j) as nat)) % 2 == 1
}

/// The bits of `d`, eight per byte, each byte's most significant bit first.
pub open spec fn unpack_bits(d: Seq<u8>) -> Seq<bool> {
    Seq::new(8 * d.len(), |k: int| byte_bit(d[k / 8], (k % 8) as nat))
}

/// The value of up to eight bits laid from the most significant position down.
pub open spec fn weighted(c: Seq<bool>) -> nat
    decreases c.len(),
{
    if c.len() == 0 {
        0
    } else {
        weighted(c.drop_last()) + if c.last() { pow2((7 - (c.len() - 1)) as nat) } else { 0 }
    }
}

/// The bytes made of `bs`, eight bits to a byte, most significant bit
/// first; a last group of fewer than eight bits fills the high end of a
/// last byte.
pub open spec fn pack_bits(bs: Seq<bool>) -> Seq<u8> {
    Seq::new(
        ((bs.len() + 7) / 8) as nat,
        |j: int| weighted(bs.subrange(8 * j, if 8 * j + 8 <= bs.len() { 8 * j + 8 } else { bs.len() as int })) as u8,
    )
}

proof fn lemma_weighted_bounds(c: Seq<bool>)
    requires
        c.len() <= 8,
    ensures
        weighted(c) % pow2((8 - c.len()) as nat) == 0,
        weighted(c) + pow2((8 - c.len()) as nat) <= 256,
    decreases c.len(),
{
    lemma2_to64();
    if c.len() > 0 {
        let r = (c.len() - 1) as nat;
        lemma_weighted_bounds(c.drop_last());
        let w = weighted(c.drop_last());
        let p = pow2((8 - r) as nat);
        let q = pow2((7 - r) as nat);
        assert(p == 2 * q) by {
            vstd::arithmetic::power2::lemma_pow2_unfold((8 - r) as nat);
            assert((8 - r) as nat - 1 == (7 - r) as nat);
        }
        let add = if c.last() { q } else { 0 };
        assert(weighted(c) == w + add);
        assert((w + add) % q == 0) by {
            assert(w % p == 0);
            let m = w / p;
            vstd::arithmetic::div_mod::lemma_fundamental_div_mod(w as int, p as int);
            assert(w == p * m);
            assert(w + add == q * (2 * m + if c.last() { 1int } else { 0 })) by (nonlinear_arith)
                requires w == p * m, p == 2 * q, add == if c.last() { q } else { 0 };
            vstd::arithmetic::div_mod::lemma_mod_multiples_basic(
                (2 * m + if c.last() { 1int } else { 0 }) as int, q as int);
            vstd::arithmetic::mul::lemma_mul_is_commutative(q as int, (2 * m + if c.last() { 1int } else { 0 }) as int);
        }
    }
}

/// Sets bit `k` (counted from the least significant) of a byte whose bit `k` is clear.
proof fn lemma_or_bit(b: u8, k: u8)
    requires
        k < 8,
        (b >> k) & 1 == 0,
    ensures
        b | (1u8 << k) == b + (1u8 << k),
{
    assert(b | (1u8 << k) == b + (1u8 << k)) by (bit_vector)
        requires k < 8, (b >> k) & 1 == 0;
}

/// The bytes made of `bools`, eight bits to a byte, most significant bit
/// first; a last group of fewer than eight bits fills the high end of a
/// last byte.
pub fn bools_to_bytes(bools: Vec<bool>) -> (r: Vec<u8>)
    ensures
        r@ == pack_bits(bools@),
{
    let mut result: Vec<u8> = Vec::new();
    let mut byte: u8 = 0;
    let n = bools.len();
    let mut i: usize = 0;
    while i < n
        invariant
            n == bools@.len(),
            i <= n,
            i < n ==> result@.len() == i / 8,
            i == n ==> result@.len() == (n + 7) / 8,
            forall|j: int| 0 <= j < result@.len() ==> #[trigger] result@[j] == pack_bits(bools@)[j],
            i < n ==> byte as nat == weighted(bools@.subrange(i - i % 8, i as int)),
        decreases n - i,
    {
        let r = i % 8;
        let ghost chunk = bools@.subrange(i - r, i as int);
        proof {
            lemma_weighted_bounds(chunk);
            lemma2_to64();
        }
        if bools[i] {
            let k = (7 - r) as u8;
            proof {
                let q = pow2((7 - r) as nat);
                let p = pow2((8 - r) as nat);
                vstd::bits::lemma_u8_shr_is_div(byte, k);
                vstd::arithmetic::power2::lemma_pow2_unfold((8 - r) as nat);
                assert((8 - r) as nat - 1 == (7 - r) as nat);
                assert(p == 2 * q);
                let m = byte as nat / p;
                vstd::arithmetic::div_mod::lemma_fundamental_div_mod(byte as int, p as int);
                assert(byte as nat == p * m);
                assert(byte as nat == q * (2 * m)) by (nonlinear_arith)
                    requires byte as nat == p * m, p == 2 * q;
                vstd::arithmetic::div_mod::lemma_div_multiples_vanish((2 * m) as int, q as int);
                assert((byte >> k) as nat == 2 * m);
                let sh = byte >> k;
                assert(sh & 1 == 0) by (bit_vector) requires sh % 2 == 0;
                lemma_or_bit(byte, k);
                vstd::bits::lemma_u8_pow2_no_overflow(k as nat);
                vstd::bits::lemma_u8_shl_is_mul(1, k);
            }
            byte = byte | (1u8 << k);
        }
        let ghost chunk1 = bools@.subrange(i - r, i + 1);
        proof {
            assert(chunk1.drop_last() =~= chunk);
            assert(chunk1.last() == bools@[i as int]);
        }
        if r == 7 || i == n - 1 {
            proof {
                let j = (i / 8) as int;
                assert(8 * j == i - r);
                if r == 7 {
                    assert(8 * j + 8 == i + 1);
                } else {
                    assert(i + 1 == n);
                    assert(8 * j + 8 > n);
                }
                assert(j < (n + 7) / 8);
                assert(pack_bits(bools@)[j] == weighted(chunk1) as u8);
            }
            result.push(byte);
            byte = 0;
            proof {
                if r != 7 {
                    assert(i + 1 == n);
                }
                assert(bools@.subrange((i + 1) - (i + 1) % 8, (i + 1) as int).len() == 0 || r != 7);
            }
        }
        i = i + 1;
        proof {
            if r == 7 {
                assert(bools@.subrange(i - i % 8, i as int) =~= Seq::<bool>::empty());
            } else if i < n {
                assert(i - i % 8 == (i - 1) - r);
            }
        }
    }
    assert(result@ =~= pack_bits(bools@));
    result
}

proof fn lemma_weighted_take(c: Seq<bool>, k: int)
    requires
        0 <= k < c.len(),
    ensures
        weighted(c.take(k + 1)) == weighted(c.take(k)) + if c[k] { pow2((7 - k) as nat) } else { 0 },
{
    assert(c.take(k + 1).drop_last() =~= c.take(k));
}

/// Rounding `x` down to a multiple of `p` adds the bit of weight `p` to
/// rounding it down to a multiple of `2 * p`.
proof fn lemma_round_step(x: nat, p: nat)
    requires
        p > 0,
    ensures
        (x / p) * p == (x / (p * 2)) * (p * 2) + ((x / p) % 2) * p,
{
    let q = x / p;
    vstd::arithmetic::div_mod::lemma_div_denominator(x as int, p as int, 2);
    assert(q / 2 == x / (p * 2));
    vstd::arithmetic::div_mod::lemma_fundamental_div_mod(q as int, 2);
    assert(q == 2 * (q / 2) + q % 2);
    assert(q * p == (q / 2) * (p * 2) + (q % 2) * p) by (nonlinear_arith)
        requires q == 2 * (q / 2) + q % 2;
}

/// The first `k` bits of a byte, weighted, give the byte rounded down to a
/// multiple of `2^(8 - k)`.
proof fn lemma_byte_prefix(b: u8, k: int)
    requires
        0 <= k <= 8,
    ensures
        weighted(Seq::new(8, |t: int| byte_bit(b, t as nat)).take(k))
            == (b as nat / pow2((8 - k) as nat)) * pow2((8 - k) as nat),
    decreases k,
{
    let c = Seq::new(8, |t: int| byte_bit(b, t as nat));
    let x = b as nat;
    lemma2_to64();
    if k == 0 {
        assert(c.take(0) =~= Seq::<bool>::empty());
        assert(weighted(c.take(0)) == 0);
        assert((8 - k) as nat == 8);
        assert(x / pow2(8) == 0);
        assert((x / pow2(8)) * pow2(8) == 0);
    } else {
        let j = k - 1;
        lemma_byte_prefix(b, j);
        lemma_weighted_take(c, j);
        let p = pow2((7 - j) as nat);
        vstd::arithmetic::power2::lemma_pow2_pos((7 - j) as nat);
        vstd::arithmetic::power2::lemma_pow2_unfold((8 - j) as nat);
        assert((8 - j) as nat - 1 == (7 - j) as nat);
        assert(pow2((8 - j) as nat) == p * 2);
        lemma_round_step(x, p);
        assert(c[j] == ((x / p) % 2 == 1));
        assert((8 - k) as nat == (7 - j) as nat);
        assert(c.take(k) == c.take(j + 1));
        assert(weighted(c.take(k)) == weighted(c.take(j)) + if c[j] { p } else { 0 });
        assert(weighted(c.take(k)) == (x / p) * p);
    }
}

/// A byte's eight bits, weighted, give the byte back.
proof fn lemma_byte_bits(b: u8)
    ensures
        weighted(Seq::new(8, |t: int| byte_bit(b, t as nat))) == b as nat,
{
    let c = Seq::new(8, |t: int| byte_bit(b, t as nat));
    lemma_byte_prefix(b, 8);
    assert(c.take(8) =~= c);
    vstd::arithmetic::power2::lemma2_to64();
}

/// Packing the bits of a byte sequence gives the bytes back.
pub proof fn lemma_pack_unpack(d: Seq<u8>)
    ensures
        pack_bits(unpack_bits(d)) == d,
{
    let bs = unpack_bits(d);
    assert forall|j: int| 0 <= j < d.len() implies #[trigger] pack_bits(bs)[j] == d[j] by {
        let c = bs.subrange(8 * j, 8 * j + 8);
        assert(c =~= Seq::new(8, |t: int| byte_bit(d[j], t as nat))) by {
            assert forall|t: int| 0 <= t < 8 implies c[t] == byte_bit(d[j], t as nat) by {
                assert((8 * j + t) / 8 == j);
                assert((8 * j + t) % 8 == t);
            }
        }
        lemma_byte_bits(d[j]);
    }
    assert(pack_bits(bs) =~= d);
}

} // verus!
