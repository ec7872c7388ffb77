//! The growable byte buffer of the `bytes` crate, as the rest of the
//! library sees it: a sequence of bytes.

use vstd::prelude::*;
use bytes::{Buf, BufMut, BytesMut};

verus! {

#[verifier::external_type_specification]
#[verifier::external_body]
pub struct ExBytesMut(BytesMut);

/// The bytes that a `BytesMut` holds, from its read position to its end.
pub uninterp spec fn bytes_of(b: BytesMut) -> Seq<u8>;

/// The room a `BytesMut` was made with (what `with_capacity` was asked
/// for), which writes at its end keep: its capacity never falls below it
/// while bytes are only appended.
pub uninterp spec fn reserved_of(b: BytesMut) -> nat;

/// `BytesMut::new`: an empty buffer, made with no room.
#[verifier::external_body]
pub(crate) fn buf_new() -> (b: BytesMut)
    ensures
        bytes_of(b) == Seq::<u8>::empty(),
        reserved_of(b) == 0,
{
    BytesMut::new()
}

/// `BytesMut::with_capacity`: an empty buffer with room for at least `cap`
/// bytes; the room is not part of the contents.
#[verifier::external_body]
pub(crate) fn buf_with_capacity(cap: usize) -> (b: BytesMut)
    ensures
        bytes_of(b) == Seq::<u8>::empty(),
        reserved_of(b) == cap,
{
    BytesMut::with_capacity(cap)
}

/// `BytesMut::from(&[u8])`: a buffer holding a copy of the slice.
#[verifier::external_body]
pub(crate) fn buf_from_slice(s: &[u8]) -> (b: BytesMut)
    ensures
        bytes_of(b) == s@,
{
    BytesMut::from(s)
}

/// `BytesMut::len`: the number of bytes held.
#[verifier::external_body]
pub(crate) fn buf_len(b: &BytesMut) -> (n: usize)
    ensures
        n == bytes_of(*b).len(),
{
    b.len()
}

/// `BytesMut::is_empty`: whether no byte is held.
#[verifier::external_body]
pub(crate) fn buf_is_empty(b: &BytesMut) -> (r: bool)
    ensures
        r == (bytes_of(*b).len() == 0),
{
    b.is_empty()
}

/// `Buf::get_u8` on a `BytesMut`: takes the first byte off the front.
/// It panics on an empty buffer, which `requires` rules out.
#[verifier::external_body]
pub(crate) fn buf_get_u8(b: &mut BytesMut) -> (x: u8)
    requires
        bytes_of(*old(b)).len() > 0,
    ensures
        x == bytes_of(*old(b))[0],
        bytes_of(*final(b)) == bytes_of(*old(b)).drop_first(),
{
    b.get_u8()
}

/// `BytesMut::extend_from_slice`: appends a copy of the slice.
/// It panics when the new length overflows, which `requires` rules out.
#[verifier::external_body]
pub(crate) fn buf_extend(b: &mut BytesMut, s: &[u8])
    requires
        bytes_of(*old(b)).len() + s@.len() <= isize::MAX,
    ensures
        reserved_of(*final(b)) == reserved_of(*old(b)),
        bytes_of(*final(b)) == bytes_of(*old(b)) + s@,
{
    b.extend_from_slice(s)
}

/// `BufMut::put_u8` on a `BytesMut`: appends one byte.
#[verifier::external_body]
pub(crate) fn buf_put_u8(b: &mut BytesMut, x: u8)
    requires
        bytes_of(*old(b)).len() + 1 <= isize::MAX,
    ensures
        reserved_of(*final(b)) == reserved_of(*old(b)),
        bytes_of(*final(b)) == bytes_of(*old(b)).push(x),
{
    b.put_u8(x)
}

/// `BufMut::put_u32` on a `BytesMut`: appends the four bytes of `x`, most significant first.
#[verifier::external_body]
pub(crate) fn buf_put_u32(b: &mut BytesMut, x: u32)
    requires
        bytes_of(*old(b)).len() + 4 <= isize::MAX,
    ensures
        reserved_of(*final(b)) == reserved_of(*old(b)),
        bytes_of(*final(b)) == bytes_of(*old(b)) + seq![
            (x >> 24u32) as u8, (x >> 16u32) as u8, (x >> 8u32) as u8, x as u8
        ],
{
    b.put_u32(x)
}

/// `BytesMut::split_to`: takes the first `at` bytes off into a new buffer.
/// It panics when `at` exceeds the length, which `requires` rules out.
#[verifier::external_body]
pub(crate) fn buf_split_to(b: &mut BytesMut, at: usize) -> (front: BytesMut)
    requires
        at <= bytes_of(*old(b)).len(),
    ensures
        bytes_of(front) == bytes_of(*old(b)).take(at as int),
        bytes_of(*final(b)) == bytes_of(*old(b)).skip(at as int),
{
    b.split_to(at)
}

/// `Buf::advance` on a `BytesMut`: drops the first `n` bytes.
/// It panics when `n` exceeds the length, which `requires` rules out.
#[verifier::external_body]
pub(crate) fn buf_advance(b: &mut BytesMut, n: usize)
    requires
        n <= bytes_of(*old(b)).len(),
    ensures
        bytes_of(*final(b)) == bytes_of(*old(b)).skip(n as int),
{
    b.advance(n)
}

/// A copy of the bytes held, as a vector (`<[u8]>::to_vec` on the buffer's contents).
#[verifier::external_body]
pub(crate) fn buf_to_vec(b: &BytesMut) -> (v: Vec<u8>)
    ensures
        v@ == bytes_of(*b),
{
    b.to_vec()
}

} // verus!
