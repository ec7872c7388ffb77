//! gRPC framing over HTTP/2: the protobuf varint that carries a payload's
//! length, the five-byte gRPC message head, and the decisions of the
//! stream adapter that frames writes and unframes reads.

use vstd::prelude::*;
use bytes::BytesMut;
use vstd::arithmetic::power2::{pow2, lemma2_to64, lemma2_to64_rest, lemma_pow2_adds, lemma_pow2_strictly_increases};
use crate::buf::{bytes_of, reserved_of, buf_get_u8, buf_is_empty, buf_with_capacity, buf_put_u8, buf_put_u32, buf_extend, buf_len, buf_advance, buf_split_to};

verus! {

/// The longest varint encoding of a 64-bit number.
pub const MAX_VARINT_LEN64: usize = 10;

/// The varint (LEB128) encoding of `x`: seven bits per byte, least
/// significant group first, the high bit set on every byte but the last.
pub open spec fn uvarint(x: nat) -> Seq<u8>
    decreases x,
{
    if x < 128 {
        seq![x as u8]
    } else {
        seq![(x % 128 + 128) as u8] + uvarint(x / 128)
    }
}

proof fn lemma_uvarint_len(x: nat, k: nat)
    requires
        x < crate::grpc::pow128(k),
        k >= 1,
    ensures
        1 <= uvarint(x).len() <= k,
    decreases x,
{
    if x >= 128 {
        assert(k >= 2) by {
            if k < 2 {
                reveal_with_fuel(pow128, 2);
            }
        }
        assert(pow128(k) == 128 * pow128((k - 1) as nat));
        assert(x / 128 < pow128((k - 1) as nat)) by (nonlinear_arith)
            requires x < 128 * pow128((k - 1) as nat);
        lemma_uvarint_len(x / 128, (k - 1) as nat);
    }
}

/// `128` raised to `k`.
pub open spec fn pow128(k: nat) -> nat
    decreases k,
{
    if k == 0 { 1 } else { 128 * pow128((k - 1) as nat) }
}

proof fn lemma_usize_fits_ten_groups(x: usize)
    ensures
        (x as nat) < pow128(10),
{
    assert(pow128(0) == 1);
    assert(pow128(1) == 0x80);
    assert(pow128(2) == 0x4000);
    assert(pow128(3) == 0x200000);
    assert(pow128(4) == 0x10000000);
    assert(pow128(5) == 0x800000000);
    assert(pow128(6) == 0x40000000000);
    assert(pow128(7) == 0x2000000000000);
    assert(pow128(8) == 0x100000000000000);
    assert(pow128(9) == 0x8000000000000000);
    assert(pow128(10) == 0x400000000000000000);
}

/// The number of bytes of the varint encoding of `x`.
pub proof fn lemma_uvarint_at_most_ten(x: usize)
    ensures
        1 <= uvarint(x as nat).len() <= MAX_VARINT_LEN64,
{
    lemma_usize_fits_ten_groups(x);
    lemma_uvarint_len(x as nat, 10);
}

/// Writes the varint encoding of `x` at the start of `buf` and returns its
/// length; the rest of `buf` is left as it was.
fn put_uvarint(buf: &mut [u8], x: usize) -> (n: usize)
    requires
        old(buf)@.len() >= uvarint(x as nat).len(),
    ensures
        n == uvarint(x as nat).len(),
        final(buf)@.len() == old(buf)@.len(),
        final(buf)@.subrange(0, n as int) == uvarint(x as nat),
        final(buf)@.subrange(n as int, final(buf)@.len() as int)
            == old(buf)@.subrange(n as int, old(buf)@.len() as int),
{
    let ghost x0 = x;
    let ghost old_buf = buf@;
    let mut x = x;
    let mut i: usize = 0;
    while x >= 0x80
        invariant
            buf@.len() == old_buf.len(),
            uvarint(x0 as nat) == buf@.subrange(0, i as int) + uvarint(x as nat),
            forall|j: int| i <= j < buf@.len() ==> buf@[j] == old_buf[j],
            i + uvarint(x as nat).len() <= buf@.len(),
        decreases x,
    {
        let b = (#[verifier::truncate] (x as u8)) | 0x80;
        assert(b == (x % 128 + 128) as u8) by (bit_vector)
            requires b == (#[verifier::truncate] (x as u8)) | 0x80, x >= 0x80;
        assert((x >> 7) == x / 128) by (bit_vector);
        let ghost prev = buf@;
        buf[i] = b;
        x = x >> 7;
        i = i + 1;
        assert(buf@.subrange(0, i as int) == prev.subrange(0, (i - 1) as int).push(b));
    }
    let ghost prev = buf@;
    buf[i] = x as u8;
    assert(buf@.subrange(0, i + 1) == prev.subrange(0, i as int).push(x as u8));
    assert(buf@.subrange(i + 1, buf@.len() as int) =~= old_buf.subrange(i + 1, old_buf.len() as int));
    i + 1
}

/// The number of bytes on the wire for a write of `lp` payload bytes: the
/// five-byte gRPC head, the protobuf field tag, the varint length, and the
/// payload itself.
pub fn get_real_len(lp: usize) -> (n: usize)
    requires
        lp + 16 <= usize::MAX,
    ensures
        n == 5 + 1 + uvarint(lp as nat).len() + lp,
{
    let mut varint_buf: [u8; 10] = [0u8; 10];
    proof { lemma_uvarint_at_most_ten(lp); }
    let varuint_size = put_uvarint(&mut varint_buf, lp);
    let ph_len = varuint_size + 1;
    5 + ph_len + lp
}


/// The four bytes of `x`, most significant first.
pub open spec fn be32(x: nat) -> Seq<u8> {
    seq![
        ((x / 0x1000000) % 256) as u8,
        ((x / 0x10000) % 256) as u8,
        ((x / 0x100) % 256) as u8,
        (x % 256) as u8,
    ]
}

/// The head that precedes a payload of `lp` bytes: a zero compression
/// flag, the big-endian length of the protobuf message (truncated to 32
/// bits), then the protobuf field tag `0x0a` and the varint of `lp`.
pub open spec fn grpc_head(lp: nat) -> Seq<u8> {
    seq![0u8] + be32((1 + uvarint(lp).len() + lp) % 0x100000000) + seq![0x0au8] + uvarint(lp)
}

proof fn lemma_be32(x: u32)
    ensures
        seq![(x >> 24u32) as u8, (x >> 16u32) as u8, (x >> 8u32) as u8, x as u8] == be32(x as nat),
{
    assert((x >> 24u32) as u8 == ((x / 0x1000000) % 256) as u8) by (bit_vector);
    assert((x >> 16u32) as u8 == ((x / 0x10000) % 256) as u8) by (bit_vector);
    assert((x >> 8u32) as u8 == ((x / 0x100) % 256) as u8) by (bit_vector);
    assert(x as u8 == (x % 256) as u8) by (bit_vector);
}

/// The gRPC head for a payload of `lp` bytes. The capacity reserved is the
/// head's length, plus `lp` unless `only_head_cap`.
pub fn encode_head(lp: usize, only_head_cap: bool) -> (b: BytesMut)
    requires
        lp + 16 <= usize::MAX,
        lp + 16 <= isize::MAX,
    ensures
        bytes_of(b) == grpc_head(lp as nat),
        reserved_of(b) == 6 + uvarint(lp as nat).len() + (if only_head_cap { 0 } else { lp as nat }),
{
    let mut varint_buf: [u8; 10] = [0u8; 10];
    proof { lemma_uvarint_at_most_ten(lp); }
    let varuint_size = put_uvarint(&mut varint_buf, lp);
    let ph_len = varuint_size + 1;
    let grpc_payload_len: u32 = (#[verifier::truncate] ((ph_len + lp) as u32));
    let cap = 5 + ph_len + if only_head_cap { 0 } else { lp };
    let mut buf = buf_with_capacity(cap);
    buf_put_u8(&mut buf, 0);
    buf_put_u32(&mut buf, grpc_payload_len);
    buf_put_u8(&mut buf, 0x0a);
    let vs = slice_take(&varint_buf, varuint_size);
    buf_extend(&mut buf, vs);
    proof {
        lemma_be32(grpc_payload_len);
        assert(grpc_payload_len as nat == (1 + uvarint(lp as nat).len() + lp) % 0x100000000) by {
            let t = (ph_len + lp) as u64;
            assert((#[verifier::truncate] (t as u32)) as nat == t as nat % 0x100000000) by (bit_vector);
        }
        assert(bytes_of(buf) =~= grpc_head(lp as nat));
    }
    buf
}

/// The first `n` elements of a slice.
fn slice_take(s: &[u8], n: usize) -> (r: &[u8])
    requires
        n <= s@.len(),
    ensures
        r@ == s@.take(n as int),
{
    let (a, _b) = s.split_at(n);
    a
}

/// The framed form of `payload`: its gRPC head, followed by the payload
/// unless `only_head`.
pub fn encode(payload: &[u8], only_head: bool) -> (b: BytesMut)
    requires
        payload@.len() + 16 <= isize::MAX,
    ensures
        bytes_of(b) == grpc_head(payload@.len()) + if only_head { Seq::<u8>::empty() } else { payload@ },
{
    let mut buf = encode_head(payload.len(), only_head);
    if !only_head {
        proof { lemma_uvarint_at_most_ten(payload.len()); }
        buf_extend(&mut buf, payload);
    } else {
        assert(bytes_of(buf) =~= bytes_of(buf) + Seq::<u8>::empty());
    }
    buf
}

/// A framed payload is read back as the payload: after the five-byte gRPC
/// head and the protobuf tag, the varint gives the payload's length, and
/// that many bytes follow it, whatever comes after the frame.
pub proof fn lemma_frame_roundtrip(payload: Seq<u8>, rest: Seq<u8>)
    requires
        payload.len() <= usize::MAX,
    ensures
        ({
            let framed = grpc_head(payload.len()) + payload + rest;
            let after_tag = framed.skip(6);
            let r = uvarint_read(after_tag);
            &&& r.0 == payload.len()
            &&& r.1 is None
            &&& after_tag.skip(r.2 as int).take(payload.len() as int) == payload
        }),
{
    let lp = payload.len();
    let framed = grpc_head(lp) + payload + rest;
    let after_tag = framed.skip(6);
    assert(after_tag =~= uvarint(lp) + (payload + rest));
    lemma_uvarint_roundtrip(lp as usize, payload + rest);
    assert(after_tag.skip(uvarint(lp).len() as int) =~= payload + rest);
    assert((payload + rest).take(lp as int) =~= payload);
}

/// Why a varint could not be read.
#[derive(Debug, Clone, Copy, PartialEq, Eq)]
pub enum UVariantErr {
    /// The input ended before the varint's last byte.
    NoFB,
    /// The varint does not fit in 64 bits.
    OverFlow,
}

/// The number of leading bytes of `s` that have the high bit set.
pub open spec fn cont_run(s: Seq<u8>) -> nat
    decreases s.len(),
{
    if s.len() == 0 || s[0] < 0x80 {
        0
    } else {
        1 + cont_run(s.drop_first())
    }
}

/// The number made of the low seven bits of the first `n` bytes of `s`,
/// least significant group first.
pub open spec fn varint_value(s: Seq<u8>, n: nat) -> nat
    decreases n,
{
    if n == 0 || s.len() == 0 {
        0
    } else {
        (s[0] % 128) as nat + 128 * varint_value(s.drop_first(), (n - 1) as nat)
    }
}

/// What reading a varint from the front of `s` gives: the value, the
/// error if any, and how many bytes are taken off the front.
/// At most ten bytes are looked at; the tenth may only be 0 or 1.
pub open spec fn uvarint_read(s: Seq<u8>) -> (nat, Option<UVariantErr>, nat) {
    let m = if cont_run(s) < 10 { cont_run(s) } else { 10 };
    if m == 10 {
        (varint_value(s, 10) % 0x10000000000000000, Some(UVariantErr::OverFlow), 10)
    } else if m == s.len() {
        (varint_value(s, m), Some(UVariantErr::NoFB), m)
    } else if m == 9 && s[9] > 1 {
        (varint_value(s, 9), Some(UVariantErr::OverFlow), 10)
    } else {
        (varint_value(s, m + 1), None, m + 1)
    }
}

proof fn lemma_pow128_is_pow2(k: nat)
    ensures
        pow128(k) == pow2(7 * k),
    decreases k,
{
    lemma2_to64();
    if k > 0 {
        lemma_pow128_is_pow2((k - 1) as nat);
        lemma_pow2_adds(7 * ((k - 1) as nat), 7);
        assert(7 * ((k - 1) as nat) + 7 == 7 * k);
    }
}

/// Extending the read by one byte adds that byte's seven bits at the next position.
proof fn lemma_varint_value_step(s: Seq<u8>, i: nat)
    requires
        i < s.len(),
    ensures
        varint_value(s, i + 1) == varint_value(s, i) + (s[i as int] % 128) as nat * pow128(i),
        varint_value(s, i) < pow128(i),
    decreases i,
{
    let b = (s[i as int] % 128) as nat;
    if i == 0 {
        assert(varint_value(s.drop_first(), 0) == 0);
        assert(varint_value(s, 1) == (s[0] % 128) as nat);
        assert(pow128(0) == 1);
        assert(b * pow128(0) == b);
    } else {
        lemma_varint_value_step(s.drop_first(), (i - 1) as nat);
        let a = varint_value(s.drop_first(), (i - 1) as nat);
        let a1 = varint_value(s.drop_first(), i);
        let p = pow128((i - 1) as nat);
        let c = (s[0] % 128) as nat;
        assert(s.drop_first()[(i - 1) as int] == s[i as int]);
        assert(a1 == a + b * p);
        assert(pow128(i) == 128 * p);
        assert(varint_value(s, i + 1) == c + 128 * a1);
        assert(varint_value(s, i) == c + 128 * a);
        assert(c + 128 * (a + b * p) == (c + 128 * a) + b * (128 * p)) by (nonlinear_arith);
        assert(c + 128 * a < 128 * p) by (nonlinear_arith)
            requires a < p, c < 128;
    }
}

proof fn lemma_cont_run_prefix(s: Seq<u8>, i: nat)
    requires
        i <= s.len(),
        forall|j: int| 0 <= j < i ==> s[j] >= 0x80,
    ensures
        cont_run(s) >= i,
        i < s.len() && s[i as int] < 0x80 ==> cont_run(s) == i,
    decreases i,
{
    if i > 0 {
        lemma_cont_run_prefix(s.drop_first(), (i - 1) as nat);
    } else if s.len() > 0 && s[0] < 0x80 {
    }
}

/// Reads a varint from the front of `r`, taking the bytes it reads.
pub fn read_uvarint(r: &mut BytesMut) -> (res: (u64, Option<UVariantErr>))
    ensures
        res.0 as nat == uvarint_read(bytes_of(*old(r))).0,
        res.1 == uvarint_read(bytes_of(*old(r))).1,
        bytes_of(*final(r)) == bytes_of(*old(r)).skip(uvarint_read(bytes_of(*old(r))).2 as int),
{
    let ghost s0 = bytes_of(*old(r));
    let mut x: u64 = 0;
    let mut s: u64 = 0;
    let mut i: usize = 0;
    proof {
        lemma2_to64();
        assert(s0.skip(0) =~= s0);
    }
    while i < MAX_VARINT_LEN64
        invariant
            i <= MAX_VARINT_LEN64,
            s0 == bytes_of(*old(r)),
            s == 7 * i,
            bytes_of(*r) == s0.skip(i as int),
            i <= s0.len(),
            forall|j: int| 0 <= j < i ==> s0[j] >= 0x80,
            x as nat == varint_value(s0, i as nat) % 0x10000000000000000,
            i < 10 ==> x as nat == varint_value(s0, i as nat),
            i < 10 ==> varint_value(s0, i as nat) < pow128(i as nat),
        decreases MAX_VARINT_LEN64 - i,
    {
        if buf_is_empty(r) {
            proof {
                lemma_cont_run_prefix(s0, i as nat);
                assert(cont_run(s0) <= s0.len()) by { lemma_cont_run_le_len(s0); }
                assert(s0.skip(i as int).len() == 0);
                assert(i == s0.len());
                assert(cont_run(s0) == i);
                assert(s0.skip(i as int) =~= s0.skip(s0.len() as int));
                assert(x as nat == varint_value(s0, i as nat));
                let m = if cont_run(s0) < 10 { cont_run(s0) } else { 10 };
                assert(m == i);
                assert(m == s0.len());
                assert(uvarint_read(s0).0 == varint_value(s0, i as nat));
            }
            return (x, Some(UVariantErr::NoFB));
        }
        let b = buf_get_u8(r);
        proof {
            assert(b == s0[i as int]);
            assert(s0.skip(i as int).drop_first() =~= s0.skip(i + 1));
            lemma_varint_value_step(s0, i as nat);
            lemma_pow128_is_pow2(i as nat);
        }
        if b < 0x80 {
            proof {
                lemma_cont_run_prefix(s0, i as nat);
                assert(cont_run(s0) == i);
            }
            if i == MAX_VARINT_LEN64 - 1 && b > 1 {
                assert(uvarint_read(s0).2 == 10);
                assert(uvarint_read(s0).0 == varint_value(s0, 9));
                return (x, Some(UVariantErr::OverFlow));
            }
            let bb = b as u64;
            let r = x | bb << s;
            proof {
                lemma_or_is_add(x, bb, s);
                assert(pow128(9) == 0x8000000000000000) by { lemma_pow128_is_pow2(9); lemma2_to64_rest(); }
                if i < 9 {
                    lemma_u64_shl_small(bb, s, i as nat);
                    lemma_varint_value_bound(s0, (i + 1) as nat);
                    lemma_pow128_mono((i + 1) as nat, 9);
                } else {
                    assert(bb <= 1);
                    lemma_u64_shl_top(bb);
                    assert(x + bb * 0x8000000000000000 < 0x10000000000000000) by (nonlinear_arith)
                        requires x < 0x8000000000000000, bb <= 1;
                }
                assert(r as nat == varint_value(s0, (i + 1) as nat));
                assert(uvarint_read(s0).0 == varint_value(s0, (i + 1) as nat));
            }
            return (r, None);
        }
        let v = (b & 0x7f) as u64;
        let ghost old_x = x;
        proof {
            assert(v == b % 128) by (bit_vector) requires v == (b & 0x7f) as u64;
            lemma_or_is_add(x, v, s);
            lemma_varint_value_bound(s0, (i + 1) as nat);
            if i < 9 {
                lemma_u64_shl_small(v, s, i as nat);
                assert(pow128((i + 1) as nat) <= pow128(9)) by { lemma_pow128_mono((i + 1) as nat, 9); }
                assert(pow128(9) == 0x8000000000000000) by { lemma_pow128_is_pow2(9); lemma2_to64_rest(); }
            } else {
                lemma_u64_shl_wrap(x, v);
                assert(pow128(9) == 0x8000000000000000) by { lemma_pow128_is_pow2(9); lemma2_to64_rest(); }
                vstd::arithmetic::div_mod::lemma_add_mod_noop(
                    old_x as int, (v as nat * 0x8000000000000000) as int, 0x10000000000000000);
                vstd::arithmetic::div_mod::lemma_mod_twice(
                    (v as nat * 0x8000000000000000) as int, 0x10000000000000000);
            }
        }
        x = x | v << s;
        s = s + 7;
        i = i + 1;
    }
    proof {
        lemma_cont_run_prefix(s0, 10);
    }
    (x, Some(UVariantErr::OverFlow))
}

proof fn lemma_uvarint_shape(x: nat, rest: Seq<u8>)
    ensures
        cont_run(uvarint(x) + rest) == uvarint(x).len() - 1,
        varint_value(uvarint(x) + rest, uvarint(x).len()) == x,
        uvarint(x).len() >= 1,
        (uvarint(x) + rest)[uvarint(x).len() - 1] < 0x80,
    decreases x,
{
    let s = uvarint(x) + rest;
    if x < 128 {
        assert(s[0] == x as u8);
        assert(varint_value(s.drop_first(), 0) == 0);
    } else {
        lemma_uvarint_shape(x / 128, rest);
        assert(s.drop_first() =~= uvarint(x / 128) + rest);
        assert(s[0] == (x % 128 + 128) as u8);
        assert(s[0] % 128 == x % 128);
    }
}

/// Reading back what `put_uvarint` wrote gives the number written, with no
/// error, and takes exactly the bytes written, whatever follows them.
pub proof fn lemma_uvarint_roundtrip(x: usize, rest: Seq<u8>)
    ensures
        uvarint_read(uvarint(x as nat) + rest)
            == (x as nat, Option::<UVariantErr>::None, uvarint(x as nat).len()),
{
    let e = uvarint(x as nat);
    let s = e + rest;
    lemma_uvarint_shape(x as nat, rest);
    lemma_uvarint_at_most_ten(x);
    if e.len() == 10 {
        lemma_varint_value_step(s, 9);
        lemma_pow128_is_pow2(9);
        lemma2_to64_rest();
        assert(pow128(9) == 0x8000000000000000);
        let b = (s[9] % 128) as nat;
        assert(s[9] <= 1) by {
            assert(b * 0x8000000000000000 <= x) ;
            if b >= 2 {
                assert(b * 0x8000000000000000 >= 0x10000000000000000) by (nonlinear_arith)
                    requires b >= 2;
            }
        }
    }
}

proof fn lemma_varint_value_bound(s: Seq<u8>, n: nat)
    ensures
        varint_value(s, n) < pow128(n),
    decreases n,
{
    if n > 0 && s.len() > 0 {
        lemma_varint_value_bound(s.drop_first(), (n - 1) as nat);
        let a = varint_value(s.drop_first(), (n - 1) as nat);
        let p = pow128((n - 1) as nat);
        let c = (s[0] % 128) as nat;
        assert(c + 128 * a < 128 * p) by (nonlinear_arith)
            requires a < p, c < 128;
    } else if n > 0 {
        lemma_pow128_pos(n);
    }
}

proof fn lemma_pow128_pos(n: nat)
    ensures
        pow128(n) >= 1,
    decreases n,
{
    if n > 0 {
        lemma_pow128_pos((n - 1) as nat);
    }
}

proof fn lemma_pow128_mono(a: nat, b: nat)
    requires
        a <= b,
    ensures
        pow128(a) <= pow128(b),
    decreases b,
{
    if a < b {
        lemma_pow128_mono(a, (b - 1) as nat);
        lemma_pow128_pos((b - 1) as nat);
    }
}

proof fn lemma_cont_run_le_len(s: Seq<u8>)
    ensures
        cont_run(s) <= s.len(),
    decreases s.len(),
{
    if s.len() > 0 && s[0] >= 0x80 {
        lemma_cont_run_le_len(s.drop_first());
    }
}

/// Or-ing in bits above all the bits of `x` is adding them.
proof fn lemma_or_is_add(x: u64, v: u64, s: u64)
    requires
        s < 64,
        (x as nat) < pow2(s as nat),
    ensures
        (x | (v << s)) as nat == (x as nat + (v << s) as nat) % 0x10000000000000000,
{
    vstd::bits::lemma_u64_pow2_no_overflow(s as nat);
    vstd::bits::lemma_u64_shl_is_mul(1, s);
    let p = 1u64 << s;
    assert(x < p);
    assert((x | (v << s)) as nat == (x as nat + (v << s) as nat) % 0x10000000000000000) by (bit_vector)
        requires x < p, p == 1u64 << s, s < 64;
}

proof fn lemma_u64_shl_small(v: u64, s: u64, i: nat)
    requires
        v < 128,
        i < 9,
        s == 7 * i,
        pow128(i) == pow2(7 * i),
    ensures
        (v << s) as nat == v as nat * pow128(i),
{
    if s < 56 {
        lemma_pow2_strictly_increases(s as nat, 56);
    }
    lemma2_to64_rest();
    assert(v * pow2(s as nat) <= 127 * 0x100000000000000) by (nonlinear_arith)
        requires v < 128, pow2(s as nat) <= 0x100000000000000;
    vstd::bits::lemma_u64_shl_is_mul(v, s);
}

proof fn lemma_u64_shl_top(v: u64)
    requires
        v <= 1,
    ensures
        (v << 63u64) as nat == v as nat * 0x8000000000000000,
{
    assert((v << 63u64) as nat == v as nat * 0x8000000000000000) by (bit_vector)
        requires v <= 1;
}

proof fn lemma_u64_shl_wrap(x: u64, v: u64)
    requires
        v < 128,
    ensures
        (v << 63u64) as nat == (v as nat * 0x8000000000000000) % 0x10000000000000000,
{
    assert((v << 63u64) as nat == (v as nat * 0x8000000000000000) % 0x10000000000000000) by (bit_vector)
        requires v < 128;
}

/// The bytes skipped before a message's varint length: the five-byte gRPC
/// head and the protobuf field tag.
pub const READ_HEAD_LEN: usize = 6;

/// The initial capacity of a stream's receive buffer.
pub const BUFFER_CAP: usize = 0x1000;

/// What a read of a gRPC stream does next.
pub enum GrpcReadStep {
    /// Hand these bytes to the reader.
    Data(BytesMut),
    /// Nothing can be handed out yet: wait for the next data frame.
    NeedData,
    /// The length of the next message could not be read.
    Failed(UVariantErr),
}

/// The receiving side of a gRPC stream: the bytes received and not yet
/// handed out, and how many bytes of the current message are still due.
pub struct GrpcReadState {
    pub r_buffer: BytesMut,
    pub next_data_len: usize,
}

/// The smallest of three numbers.
pub open spec fn min3(a: nat, b: nat, c: nat) -> nat {
    if a <= b && a <= c { a } else if b <= c { b } else { c }
}

impl GrpcReadState {
    /// An empty state, expecting the head of a new message.
    pub fn new() -> (st: Self)
        ensures
            bytes_of(st.r_buffer) == Seq::<u8>::empty(),
            st.next_data_len == 0,
    {
        GrpcReadState { r_buffer: buf_with_capacity(BUFFER_CAP), next_data_len: 0 }
    }

    /// Appends a received data frame to the buffer.
    pub fn receive(&mut self, data: &[u8])
        requires
            bytes_of(old(self).r_buffer).len() + data@.len() <= isize::MAX,
        ensures
            bytes_of(final(self).r_buffer) == bytes_of(old(self).r_buffer) + data@,
            final(self).next_data_len == old(self).next_data_len,
    {
        buf_extend(&mut self.r_buffer, data);
    }

    /// When no byte of the current message is due, skips the head of the
    /// next one and reads its length.
    fn try_read_next_len(&mut self) -> (r: Result<(), UVariantErr>)
        requires
            old(self).next_data_len == 0 ==> bytes_of(old(self).r_buffer).len() >= READ_HEAD_LEN,
        ensures
            old(self).next_data_len != 0 ==> r is Ok && *final(self) == *old(self),
            old(self).next_data_len == 0 ==> {
                let rd = uvarint_read(bytes_of(old(self).r_buffer).skip(6));
                &&& bytes_of(final(self).r_buffer)
                    == bytes_of(old(self).r_buffer).skip(6).skip(rd.2 as int)
                &&& match rd.1 {
                    Some(e) => r == Err::<(), UVariantErr>(e) && final(self).next_data_len == 0,
                    None => r is Ok && final(self).next_data_len == rd.0 as usize,
                }
            },
    {
        if self.next_data_len == 0 {
            buf_advance(&mut self.r_buffer, READ_HEAD_LEN);
            let (len, oe) = read_uvarint(&mut self.r_buffer);
            if let Some(e) = oe {
                return Err(e);
            }
            self.next_data_len = #[verifier::truncate] (len as usize);
        }
        Ok(())
    }

    /// One step of a read with room for `remaining` bytes. When the buffer
    /// holds bytes and at least as many as are due, the head of a new
    /// message is taken first if none are due, then as many bytes as the
    /// room, the buffer and the message allow are handed out.
    /// A buffer that starts a new message with fewer bytes than its head is
    /// not accepted.
    pub fn poll_step(&mut self, remaining: usize) -> (step: GrpcReadStep)
        requires
            bytes_of(old(self).r_buffer).len() > 0 && old(self).next_data_len == 0
                ==> bytes_of(old(self).r_buffer).len() >= READ_HEAD_LEN,
        ensures
            ({
                let b0 = bytes_of(old(self).r_buffer);
                let n0 = old(self).next_data_len;
                if !(b0.len() > 0 && b0.len() >= n0) {
                    step is NeedData && *final(self) == *old(self)
                } else if n0 == 0 && uvarint_read(b0.skip(6)).1 is Some {
                    &&& step == GrpcReadStep::Failed(uvarint_read(b0.skip(6)).1.unwrap())
                    &&& bytes_of(final(self).r_buffer) == b0.skip(6).skip(uvarint_read(b0.skip(6)).2 as int)
                    &&& final(self).next_data_len == 0
                } else {
                    let rd = uvarint_read(b0.skip(6));
                    let b1 = if n0 == 0 { b0.skip(6).skip(rd.2 as int) } else { b0 };
                    let n1: nat = if n0 == 0 { (rd.0 as usize) as nat } else { n0 as nat };
                    let k = min3(remaining as nat, b1.len(), n1);
                    &&& step matches GrpcReadStep::Data(d) && bytes_of(d) == b1.take(k as int)
                    &&& bytes_of(final(self).r_buffer) == b1.skip(k as int)
                    &&& final(self).next_data_len == n1 - k
                }
            }),
    {
        let len = buf_len(&self.r_buffer);
        if len > 0 && len >= self.next_data_len {
            match self.try_read_next_len() {
                Err(e) => return GrpcReadStep::Failed(e),
                Ok(()) => {},
            }
            let blen = buf_len(&self.r_buffer);
            let mut r_len = remaining;
            if blen < r_len {
                r_len = blen;
            }
            if self.next_data_len < r_len {
                r_len = self.next_data_len;
            }
            let read_data = buf_split_to(&mut self.r_buffer, r_len);
            self.next_data_len = self.next_data_len - r_len;
            return GrpcReadStep::Data(read_data);
        }
        GrpcReadStep::NeedData
    }
}

/// The read side of a plain HTTP/2 stream: bytes of a data frame that did
/// not fit the reader wait in the buffer.
pub struct H2Reader {
    pub buffer: BytesMut,
}

/// The smaller of two numbers.
pub open spec fn min2(a: nat, b: nat) -> nat {
    if a <= b { a } else { b }
}

impl H2Reader {
    /// Nothing waits.
    pub fn new() -> (r: H2Reader)
        ensures
            bytes_of(r.buffer) == Seq::<u8>::empty(),
    {
        H2Reader { buffer: buf_with_capacity(BUFFER_CAP) }
    }

    /// Waiting bytes come first: as many as the reader has `room` for are
    /// handed out, the rest keeps waiting. Nothing is handed out when
    /// nothing waits.
    pub fn take_buffered(&mut self, room: usize) -> (r: Option<BytesMut>)
        ensures
            bytes_of(old(self).buffer).len() == 0 ==> r is None && bytes_of(final(self).buffer) == bytes_of(old(self).buffer),
            bytes_of(old(self).buffer).len() > 0 ==> {
                let k = min2(room as nat, bytes_of(old(self).buffer).len()) as int;
                &&& r matches Some(x) && bytes_of(x) == bytes_of(old(self).buffer).take(k)
                &&& bytes_of(final(self).buffer) == bytes_of(old(self).buffer).skip(k)
            },
    {
        let len = buf_len(&self.buffer);
        if len == 0 {
            return None;
        }
        let r_len = if room < len { room } else { len };
        Some(buf_split_to(&mut self.buffer, r_len))
    }

    /// A data frame arrived while nothing waits: as much of it as the
    /// reader has `room` for is handed out (and that many bytes are released
    /// to the peer's flow control); the rest waits.
    pub fn on_data(&mut self, data: &[u8], room: usize) -> (out: Vec<u8>)
        requires
            bytes_of(old(self).buffer).len() == 0,
            data@.len() <= isize::MAX,
        ensures
            out@ == data@.take(min2(room as nat, data@.len()) as int),
            bytes_of(final(self).buffer) == data@.skip(min2(room as nat, data@.len()) as int),
    {
        let n = data.len();
        let r_len = if room < n { room } else { n };
        let mut out: Vec<u8> = Vec::new();
        let mut rest: Vec<u8> = Vec::new();
        let mut i: usize = 0;
        while i < n
            invariant
                i <= n,
                n == data@.len(),
                r_len <= n,
                i <= r_len ==> out@ == data@.take(i as int) && rest@.len() == 0,
                i > r_len ==> out@ == data@.take(r_len as int) && rest@ == data@.subrange(r_len as int, i as int),
            decreases n - i,
        {
            if i < r_len {
                out.push(data[i]);
                assert(out@ =~= data@.take(i + 1));
            } else {
                rest.push(data[i]);
                assert(rest@ =~= data@.subrange(r_len as int, i + 1));
            }
            i = i + 1;
        }
        assert(rest@ =~= data@.skip(r_len as int));
        assert(out@ =~= data@.take(r_len as int));
        if r_len < n {
            buf_extend(&mut self.buffer, rest.as_slice());
            assert(bytes_of(self.buffer) =~= data@.skip(r_len as int));
        } else {
            assert(data@.skip(r_len as int) =~= Seq::<u8>::empty());
        }
        out
    }
}

/// What a write of `buf` sends when the stream grants `write_len` bytes of
/// capacity: the whole framed buffer if the grant covers it, else the
/// framed front of the buffer that is as many bytes shorter than `buf` as
/// the grant falls short; and the count of `buf`'s bytes that this accounts for.
/// A grant too small for even the frame's head is not accepted.
pub fn plan_write(buf: &[u8], write_len: usize) -> (out: (BytesMut, usize))
    requires
        buf@.len() + 16 <= isize::MAX,
        write_len + buf@.len() >= 6 + uvarint(buf@.len()).len() + buf@.len(),
    ensures
        ({
            let total = 6 + uvarint(buf@.len()).len() + buf@.len();
            if write_len >= total {
                bytes_of(out.0) == grpc_head(buf@.len()) + buf@ && out.1 == buf@.len()
            } else {
                let k = buf@.len() - (total - write_len);
                bytes_of(out.0) == grpc_head(k as nat) + buf@.take(k as int) && out.1 == k
            }
        }),
{
    let old_len = buf.len();
    let realbuf_len = get_real_len(old_len);
    if write_len >= realbuf_len {
        let b = encode(buf, false);
        let n = if old_len < write_len { old_len } else { write_len };
        (b, n)
    } else {
        let diff = realbuf_len - write_len;
        let old_buf_written = old_len - diff;
        let front = slice_take(buf, old_buf_written);
        let b = encode(front, false);
        (b, old_buf_written)
    }
}

/// An HTTP/2 client that opens one stream per connection, without
/// multiplexing.
#[derive(Debug, Clone, Copy, Default)]
pub struct SingleClient {}

impl SingleClient {
    /// The mapper's name.
    pub fn name(&self) -> (r: &str)
        ensures
            r@ == "h2_single_client"@,
    {
        "h2_single_client"
    }
}

/// The name of the content type header.
pub const CONTENT_TYPE: &'static str = "content-type";
/// The content type of gRPC requests.
pub const GRPC_CONTENT_TYPE: &'static str = "application/grpc";
/// The user agent that requests announce.
pub const USER_AGENT: &'static str = "rucimp";

/// Why a request is not a gRPC request.
#[derive(Debug, Clone, PartialEq, Eq)]
pub enum HttpMatchError {
    /// The content type is not gRPC's (empty when the header is missing).
    InvalidContentType { expected: String, found: String },
}

/// Checks the content type header of a request: it must be present and
/// exactly `application/grpc`.
pub fn match_grpc_request_header(content_type: Option<&str>) -> (r: Result<(), HttpMatchError>)
    ensures
        match content_type {
            Some(t) => if t@ == "application/grpc"@ {
                r is Ok
            } else {
                r matches Err(HttpMatchError::InvalidContentType { expected, found })
                    && expected@ == "application/grpc"@ && found@ == t@
            },
            None => r matches Err(HttpMatchError::InvalidContentType { expected, found })
                && expected@ == "application/grpc"@ && found@ == ""@,
        },
{
    let expected = GRPC_CONTENT_TYPE.to_owned();
    match content_type {
        None => Err(HttpMatchError::InvalidContentType { expected, found: "".to_owned() }),
        Some(t) => {
            let found = t.to_owned();
            if found == expected {
                Ok(())
            } else {
                Err(HttpMatchError::InvalidContentType { expected, found })
            }
        },
    }
}

/// The parts of an HTTP request that a stream is opened with, as the gRPC
/// and websocket mappers are configured.
pub struct CommonConfig {
    pub method: Option<String>,
    pub scheme: Option<String>,
    pub authority: String,
    pub path: String,
    pub host: String,
    pub headers: Option<Vec<(String, String)>>,
    pub use_early_data: Option<bool>,
}

/// Where a request goes: a bare path, or scheme, authority and path.
pub enum RequestTarget {
    Path(String),
    Parts(String, String, String),
}

/// The request a gRPC stream is opened with, over HTTP/2.
pub struct RequestPlan {
    pub method: String,
    pub target: RequestTarget,
    /// Headers in the order they are set.
    pub headers: Vec<(String, String)>,
}

/// The configured headers other than `Host`, in order, as text pairs.
pub open spec fn headers_but_host(configured: Option<Vec<(String, String)>>) -> Seq<(Seq<char>, Seq<char>)> {
    match configured {
        Some(h) => h@.filter(|h: (String, String)| h.0@ != "Host"@).map_values(|h: (String, String)| (h.0@, h.1@)),
        None => Seq::empty(),
    }
}

/// The headers as text pairs.
pub open spec fn header_pairs(headers: Seq<(String, String)>) -> Seq<(Seq<char>, Seq<char>)> {
    headers.map_values(|h: (String, String)| (h.0@, h.1@))
}

/// Appends the configured headers other than `Host`, in order.
pub fn append_headers_but_host(headers: &mut Vec<(String, String)>, configured: &Option<Vec<(String, String)>>)
    ensures
        header_pairs(final(headers)@) == header_pairs(old(headers)@) + headers_but_host(*configured),
{
    let ghost start = header_pairs(headers@);
    match configured {
        Some(hs) => {
            let ghost cs = hs@;
            proof {
                reveal(Seq::filter);
                assert(cs.take(0).filter(|h: (String, String)| h.0@ != "Host"@) =~= Seq::<(String, String)>::empty());
                assert(header_pairs(headers@) =~= start + Seq::<(String, String)>::empty().map_values(|h: (String, String)| (h.0@, h.1@)));
            }
            let host = "Host".to_owned();
            let mut i: usize = 0;
            while i < hs.len()
                invariant
                    cs == hs@,
                    i <= hs@.len(),
                    host@ == "Host"@,
                    header_pairs(headers@) == start
                        + cs.take(i as int).filter(|h: (String, String)| h.0@ != "Host"@).map_values(|h: (String, String)| (h.0@, h.1@)),
                decreases hs@.len() - i,
            {
                let ghost before = header_pairs(headers@);
                proof {
                    reveal(Seq::filter);
                    assert(cs.take(i + 1).drop_last() =~= cs.take(i as int));
                    assert(cs.take(i + 1).last() == cs[i as int]);
                }
                let (k, v) = &hs[i];
                if *k != host {
                    headers.push((k.clone(), v.clone()));
                    proof {
                        assert(cs.take(i + 1).filter(|h: (String, String)| h.0@ != "Host"@)
                            =~= cs.take(i as int).filter(|h: (String, String)| h.0@ != "Host"@).push(cs[i as int]));
                        assert(header_pairs(headers@) =~= before.push((k@, v@)));
                    }
                } else {
                    proof {
                        assert(cs.take(i + 1).filter(|h: (String, String)| h.0@ != "Host"@)
                            =~= cs.take(i as int).filter(|h: (String, String)| h.0@ != "Host"@));
                    }
                }
                i = i + 1;
            }
            assert(cs.take(hs@.len() as int) =~= cs);
        },
        None => {
            assert(header_pairs(headers@) =~= start + Seq::<(Seq<char>, Seq<char>)>::empty());
        },
    }
}

/// The headers of a plan: content type and user agent, then the
/// configured headers other than `Host`, in order.
pub open spec fn plan_headers(configured: Option<Vec<(String, String)>>) -> Seq<(Seq<char>, Seq<char>)> {
    seq![("content-type"@, "application/grpc"@), ("user-agent"@, "rucimp"@)] + headers_but_host(configured)
}

/// The request a gRPC client opens its stream with: the configured method
/// (POST by default); the path alone when no authority is set, else the
/// configured scheme (https by default), authority and path; the gRPC
/// content type, the user agent and the configured headers but `Host`.
pub fn build_grpc_request_from(c: &CommonConfig) -> (r: RequestPlan)
    ensures
        r.method@ == (match c.method { Some(m) => m@, None => "POST"@ }),
        c.authority@.len() == 0 ==> (r.target matches RequestTarget::Path(p) && p@ == c.path@),
        c.authority@.len() > 0 ==> (r.target matches RequestTarget::Parts(s, a, p)
            && s@ == (match c.scheme { Some(x) => x@, None => "https"@ }) && a@ == c.authority@ && p@ == c.path@),
        header_pairs(r.headers@) == plan_headers(c.headers),
{
    let method = match &c.method { Some(m) => m.clone(), None => "POST".to_owned() };
    let target = if c.authority.as_str().is_empty() {
        RequestTarget::Path(c.path.clone())
    } else {
        let scheme = match &c.scheme { Some(s) => s.clone(), None => "https".to_owned() };
        RequestTarget::Parts(scheme, c.authority.clone(), c.path.clone())
    };
    let mut headers: Vec<(String, String)> = Vec::new();
    headers.push((CONTENT_TYPE.to_owned(), GRPC_CONTENT_TYPE.to_owned()));
    headers.push((USER_AGENT_HEADER.to_owned(), USER_AGENT.to_owned()));
    assert(header_pairs(headers@) =~= seq![("content-type"@, "application/grpc"@), ("user-agent"@, "rucimp"@)]);
    append_headers_but_host(&mut headers, &c.headers);
    RequestPlan { method, target, headers }
}

/// The name of the user agent header.
pub const USER_AGENT_HEADER: &'static str = "user-agent";

} // verus!
