//! Byte buffers and big-endian integers: what the frames of the protocol are
//! made of.
//!
//! Frames live in the `bytes` crate's `Bytes` and `BytesMut`. The items marked
//! as trusted below are believed, not proved; each names the function of
//! `bytes` that it calls.

use bytes::{Buf, BufMut, Bytes, BytesMut};
use std::ops::Deref;
use vstd::prelude::*;

verus! {

/// The `Bytes` of the `bytes` crate: an immutable, reference-counted buffer.
#[verifier::external_type_specification]
#[verifier::external_body]
pub struct ExBytes(bytes::Bytes);

/// The `BytesMut` of the `bytes` crate: a growable buffer that is read from
/// its front.
#[verifier::external_type_specification]
#[verifier::external_body]
pub struct ExBytesMut(bytes::BytesMut);

/// The bytes that a `Bytes` holds.
pub uninterp spec fn bytes_of(b: bytes::Bytes) -> Seq<u8>;

/// The bytes that a `BytesMut` holds and that were not read from it yet.
pub uninterp spec fn buffer_of(b: bytes::BytesMut) -> Seq<u8>;

/// The `width` low bytes of `n`, the most significant first.
pub open spec fn be_bytes(n: nat, width: nat) -> Seq<u8>
    decreases width,
{
    if width == 0 {
        Seq::empty()
    } else {
        be_bytes(n / 256, (width - 1) as nat).push((n % 256) as u8)
    }
}

/// The number that `s` writes down, the most significant byte first.
pub open spec fn be_value(s: Seq<u8>) -> nat
    decreases s.len(),
{
    if s.len() == 0 {
        0
    } else {
        be_value(s.drop_last()) * 256 + s.last() as nat
    }
}

/// How many numbers `width` bytes can write down.
pub open spec fn be_range(width: nat) -> nat
    decreases width,
{
    if width == 0 {
        1
    } else {
        be_range((width - 1) as nat) * 256
    }
}

/// Trusted: `BytesMut::with_capacity` gives an empty buffer. The capacity is
/// an allocation, which Rust limits to `isize::MAX` bytes.
pub assume_specification[ bytes::BytesMut::with_capacity ](capacity: usize) -> (b: bytes::BytesMut)
    requires
        capacity <= isize::MAX,
    ensures
        buffer_of(b) == Seq::<u8>::empty(),
;

/// Trusted: `BytesMut::len` counts the bytes in the buffer.
pub assume_specification[ bytes::BytesMut::len ](b: &bytes::BytesMut) -> (n: usize)
    ensures
        n == buffer_of(*b).len(),
;

/// Trusted: `BytesMut::freeze` keeps the bytes of the buffer.
pub assume_specification[ bytes::BytesMut::freeze ](b: bytes::BytesMut) -> (r: bytes::Bytes)
    ensures
        bytes_of(r) == buffer_of(b),
;

/// Trusted: `Bytes::copy_from_slice` holds a copy of `data`.
pub assume_specification[ bytes::Bytes::copy_from_slice ](data: &[u8]) -> (r: bytes::Bytes)
    ensures
        bytes_of(r) == data@,
;

/// Trusted: a clone of a `Bytes` holds the same bytes.
pub assume_specification[ <bytes::Bytes as Clone>::clone ](b: &bytes::Bytes) -> (r: bytes::Bytes)
    ensures
        bytes_of(r) == bytes_of(*b),
;

/// Trusted: `BufMut::put_u8` on a `BytesMut` appends one byte.
#[verifier::external_body]
pub(crate) fn put_u8(b: &mut BytesMut, n: u8)
    requires
        buffer_of(*old(b)).len() + 1 <= isize::MAX,
    ensures
        buffer_of(*final(b)) == buffer_of(*old(b)).push(n),
{
    b.put_u8(n)
}

/// Trusted: `BufMut::put_u16` on a `BytesMut` appends two bytes, big-endian.
#[verifier::external_body]
pub(crate) fn put_u16(b: &mut BytesMut, n: u16)
    requires
        buffer_of(*old(b)).len() + 2 <= isize::MAX,
    ensures
        buffer_of(*final(b)) == buffer_of(*old(b)) + be_bytes(n as nat, 2),
{
    b.put_u16(n)
}

/// Trusted: `BufMut::put_u64` on a `BytesMut` appends eight bytes, big-endian.
#[verifier::external_body]
pub(crate) fn put_u64(b: &mut BytesMut, n: u64)
    requires
        buffer_of(*old(b)).len() + 8 <= isize::MAX,
    ensures
        buffer_of(*final(b)) == buffer_of(*old(b)) + be_bytes(n as nat, 8),
{
    b.put_u64(n)
}

/// Trusted: `BufMut::put_slice` on a `BytesMut` appends the bytes of `data`.
#[verifier::external_body]
pub(crate) fn put_slice(b: &mut BytesMut, data: &[u8])
    requires
        buffer_of(*old(b)).len() + data@.len() <= isize::MAX,
    ensures
        buffer_of(*final(b)) == buffer_of(*old(b)) + data@,
{
    b.put_slice(data)
}

/// Trusted: `Buf::get_u8` on a `BytesMut` reads the first byte and moves past
/// it. It panics on an empty buffer.
#[verifier::external_body]
pub(crate) fn get_u8(b: &mut BytesMut) -> (n: u8)
    requires
        buffer_of(*old(b)).len() >= 1,
    ensures
        n == buffer_of(*old(b))[0],
        buffer_of(*final(b)) == buffer_of(*old(b)).skip(1),
{
    b.get_u8()
}

/// Trusted: `Buf::get_u16` on a `BytesMut` reads two bytes, big-endian, and
/// moves past them. It panics where there are fewer.
#[verifier::external_body]
pub(crate) fn get_u16(b: &mut BytesMut) -> (n: u16)
    requires
        buffer_of(*old(b)).len() >= 2,
    ensures
        n as nat == be_value(buffer_of(*old(b)).take(2)),
        buffer_of(*final(b)) == buffer_of(*old(b)).skip(2),
{
    b.get_u16()
}

/// Trusted: `Buf::get_u64` on a `BytesMut` reads eight bytes, big-endian, and
/// moves past them. It panics where there are fewer.
#[verifier::external_body]
pub(crate) fn get_u64(b: &mut BytesMut) -> (n: u64)
    requires
        buffer_of(*old(b)).len() >= 8,
    ensures
        n as nat == be_value(buffer_of(*old(b)).take(8)),
        buffer_of(*final(b)) == buffer_of(*old(b)).skip(8),
{
    b.get_u64()
}

/// Trusted: `BytesMut::deref`, the unread bytes as a slice.
#[verifier::external_body]
pub(crate) fn buffer_slice(b: &BytesMut) -> (s: &[u8])
    ensures
        s@ == buffer_of(*b),
{
    b.deref()
}

/// Trusted: `Bytes::deref`, the bytes as a slice.
#[verifier::external_body]
pub(crate) fn bytes_slice(b: &Bytes) -> (s: &[u8])
    ensures
        s@ == bytes_of(*b),
{
    b.deref()
}

/// Writing a number down takes as many bytes as asked for.
pub proof fn lemma_be_bytes_len(n: nat, width: nat)
    ensures
        be_bytes(n, width).len() == width,
    decreases width,
{
    if width > 0 {
        lemma_be_bytes_len(n / 256, (width - 1) as nat);
    }
}

/// A number that fits in `width` bytes reads back as it was written.
pub proof fn lemma_be_round_trip(n: nat, width: nat)
    requires
        n < be_range(width),
    ensures
        be_value(be_bytes(n, width)) == n,
    decreases width,
{
    if width > 0 {
        let high = be_bytes(n / 256, (width - 1) as nat);
        assert(n / 256 < be_range((width - 1) as nat));
        lemma_be_round_trip(n / 256, (width - 1) as nat);
        assert(be_bytes(n, width).drop_last() =~= high);
    }
}

/// `width` bytes never write down more than their range.
pub proof fn lemma_be_value_bound(s: Seq<u8>)
    ensures
        be_value(s) < be_range(s.len()),
    decreases s.len(),
{
    if s.len() > 0 {
        lemma_be_value_bound(s.drop_last());
    }
}

/// Bytes are the big-endian form of the number they write down.
pub proof fn lemma_be_bytes_of_value(s: Seq<u8>)
    ensures
        be_bytes(be_value(s), s.len()) == s,
    decreases s.len(),
{
    if s.len() > 0 {
        lemma_be_bytes_of_value(s.drop_last());
        assert(be_value(s) / 256 == be_value(s.drop_last()));
        assert(s.drop_last().push(s.last()) =~= s);
    } else {
        assert(s =~= Seq::<u8>::empty());
    }
}

/// One byte writes its own value down.
pub proof fn lemma_be_value_of_byte(b: u8)
    ensures
        be_value(seq![b]) == b,
{
    reveal_with_fuel(be_value, 2);
    assert(seq![b].drop_last() =~= Seq::<u8>::empty());
}

/// What stands in front counts for more: the first bytes count as many times as
/// the bytes behind them can count up to.
pub proof fn lemma_be_value_of_joined(a: Seq<u8>, b: Seq<u8>)
    ensures
        be_value(a + b) == be_value(a) * be_range(b.len()) + be_value(b),
    decreases b.len(),
{
    if b.len() == 0 {
        assert(a + b =~= a);
        assert(be_range(b.len()) == 1);
        let x = be_value(a);
        assert(x * 1 == x);
    } else {
        let front = b.drop_last();
        lemma_be_value_of_joined(a, front);
        assert((a + b).drop_last() =~= a + front);
        assert((a + b).last() == b.last());
        assert(be_range(b.len()) == be_range(front.len()) * 256);
        let x = be_value(a);
        let r = be_range(front.len());
        assert(x * (r * 256) == (x * r) * 256) by (nonlinear_arith);
    }
}

/// Each byte more lets 256 times as many numbers be written down.
pub proof fn lemma_be_range_of_joined(m: nat, n: nat)
    ensures
        be_range(0) == 1,
        be_range(1) == 256,
        be_range(m + n) == be_range(m) * be_range(n),
    decreases n,
{
    reveal_with_fuel(be_range, 2);
    if n > 0 {
        lemma_be_range_of_joined(m, (n - 1) as nat);
        let x = be_range(m);
        let r = be_range((n - 1) as nat);
        assert(x * (r * 256) == (x * r) * 256) by (nonlinear_arith);
    }
}

} // verus!
