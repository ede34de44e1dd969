//! Bit-buffer codec primitives.
//!
//! The on-wire representation is a sequence of bits, most-significant-bit
//! first within each octet.  The growable write buffer is a
//! `BitVec<u8, Msb0>` from the `bitvec` crate; its contents are modelled as
//! a `Seq<bool>` and every append is specified against that model.

use vstd::prelude::*;
use bitvec::order::Msb0;
use bitvec::vec::BitVec;
use bitvec::view::BitView;

verus! {

/// The eight bits of an octet, most significant first.
pub open spec fn byte_bits(b: u8) -> Seq<bool> {
    seq![
        (b >> 7) & 1 == 1,
        (b >> 6) & 1 == 1,
        (b >> 5) & 1 == 1,
        (b >> 4) & 1 == 1,
        (b >> 3) & 1 == 1,
        (b >> 2) & 1 == 1,
        (b >> 1) & 1 == 1,
        (b >> 0) & 1 == 1,
    ]
}

/// The bits of a whole octet sequence, in order, each octet MSB-first.
pub open spec fn bytes_bits(s: Seq<u8>) -> Seq<bool>
    decreases s.len(),
{
    if s.len() == 0 {
        Seq::empty()
    } else {
        byte_bits(s[0]) + bytes_bits(s.drop_first())
    }
}

/// The two octets of a 16-bit value in big-endian order.
pub open spec fn u16_be(v: u16) -> Seq<u8> {
    seq![(v >> 8) as u8, (v & 0xff) as u8]
}

/// The four octets of a 32-bit value in big-endian order.
pub open spec fn u32_be(v: u32) -> Seq<u8> {
    seq![
        (v >> 24) as u8,
        ((v >> 16) & 0xff) as u8,
        ((v >> 8) & 0xff) as u8,
        (v & 0xff) as u8,
    ]
}

/// The 16-bit value spelled by two big-endian octets.
pub open spec fn be16(hi: u8, lo: u8) -> u16 {
    ((hi as u16) << 8) | (lo as u16)
}

/// The 32-bit value spelled by four big-endian octets.
pub open spec fn be32(b0: u8, b1: u8, b2: u8, b3: u8) -> u32 {
    ((b0 as u32) << 24) | ((b1 as u32) << 16) | ((b2 as u32) << 8) | (b3 as u32)
}

pub proof fn lemma_u16_be_inverse(v: u16)
    ensures
        be16(u16_be(v)[0], u16_be(v)[1]) == v,
{
    assert(((((v >> 8) as u8) as u16) << 8) | (((v & 0xff) as u8) as u16) == v) by (bit_vector);
}

pub proof fn lemma_u32_be_inverse(v: u32)
    ensures
        be32(u32_be(v)[0], u32_be(v)[1], u32_be(v)[2], u32_be(v)[3]) == v,
{
    assert(((((v >> 24) as u8) as u32) << 24) | (((((v >> 16) & 0xff) as u8) as u32) << 16) | ((((
    (v >> 8) & 0xff) as u8) as u32) << 8) | (((v & 0xff) as u8) as u32) == v) by (bit_vector);
}

pub proof fn lemma_bytes_bits_singleton(x: u8)
    ensures
        bytes_bits(seq![x]) == byte_bits(x),
{
    let s = seq![x];
    assert(s.drop_first() =~= Seq::<u8>::empty());
    assert(bytes_bits(Seq::<u8>::empty()) =~= Seq::<bool>::empty());
    assert(bytes_bits(s) =~= byte_bits(x) + Seq::<bool>::empty());
    assert(byte_bits(x) + Seq::<bool>::empty() =~= byte_bits(x));
}

pub proof fn lemma_bytes_bits_len(s: Seq<u8>)
    ensures
        bytes_bits(s).len() == 8 * s.len(),
    decreases s.len(),
{
    if s.len() > 0 {
        lemma_bytes_bits_len(s.drop_first());
    }
}

pub proof fn lemma_bytes_bits_concat(a: Seq<u8>, b: Seq<u8>)
    ensures
        bytes_bits(a + b) == bytes_bits(a) + bytes_bits(b),
    decreases a.len(),
{
    if a.len() == 0 {
        assert(a + b =~= b);
        assert(bytes_bits(a) + bytes_bits(b) =~= bytes_bits(b));
    } else {
        lemma_bytes_bits_concat(a.drop_first(), b);
        assert((a + b).drop_first() =~= a.drop_first() + b);
        assert(bytes_bits(a + b) =~= bytes_bits(a) + bytes_bits(b));
    }
}

pub proof fn lemma_bytes_bits_push(s: Seq<u8>, x: u8)
    ensures
        bytes_bits(s.push(x)) == bytes_bits(s) + byte_bits(x),
{
    assert(s.push(x) =~= s + seq![x]);
    lemma_bytes_bits_concat(s, seq![x]);
    lemma_bytes_bits_singleton(x);
}

pub proof fn lemma_byte_bits_injective(a: u8, b: u8)
    requires
        byte_bits(a) == byte_bits(b),
    ensures
        a == b,
{
    assert(((a >> 7) & 1 == 1) == ((b >> 7) & 1 == 1)) by {
        assert(byte_bits(a)[0] == byte_bits(b)[0]);
    }
    assert(((a >> 6) & 1 == 1) == ((b >> 6) & 1 == 1)) by {
        assert(byte_bits(a)[1] == byte_bits(b)[1]);
    }
    assert(((a >> 5) & 1 == 1) == ((b >> 5) & 1 == 1)) by {
        assert(byte_bits(a)[2] == byte_bits(b)[2]);
    }
    assert(((a >> 4) & 1 == 1) == ((b >> 4) & 1 == 1)) by {
        assert(byte_bits(a)[3] == byte_bits(b)[3]);
    }
    assert(((a >> 3) & 1 == 1) == ((b >> 3) & 1 == 1)) by {
        assert(byte_bits(a)[4] == byte_bits(b)[4]);
    }
    assert(((a >> 2) & 1 == 1) == ((b >> 2) & 1 == 1)) by {
        assert(byte_bits(a)[5] == byte_bits(b)[5]);
    }
    assert(((a >> 1) & 1 == 1) == ((b >> 1) & 1 == 1)) by {
        assert(byte_bits(a)[6] == byte_bits(b)[6]);
    }
    assert(((a >> 0) & 1 == 1) == ((b >> 0) & 1 == 1)) by {
        assert(byte_bits(a)[7] == byte_bits(b)[7]);
    }
    assert(a == b) by (bit_vector)
        requires
            ((a >> 7) & 1 == 1) == ((b >> 7) & 1 == 1),
            ((a >> 6) & 1 == 1) == ((b >> 6) & 1 == 1),
            ((a >> 5) & 1 == 1) == ((b >> 5) & 1 == 1),
            ((a >> 4) & 1 == 1) == ((b >> 4) & 1 == 1),
            ((a >> 3) & 1 == 1) == ((b >> 3) & 1 == 1),
            ((a >> 2) & 1 == 1) == ((b >> 2) & 1 == 1),
            ((a >> 1) & 1 == 1) == ((b >> 1) & 1 == 1),
            ((a >> 0) & 1 == 1) == ((b >> 0) & 1 == 1),
    ;
}

/// Two octet sequences with the same bit image are the same sequence.
pub proof fn lemma_bytes_bits_injective(a: Seq<u8>, b: Seq<u8>)
    requires
        bytes_bits(a) == bytes_bits(b),
    ensures
        a == b,
    decreases a.len(),
{
    lemma_bytes_bits_len(a);
    lemma_bytes_bits_len(b);
    if a.len() == 0 {
        assert(a =~= b);
    } else {
        lemma_bytes_bits_len(a.drop_first());
        lemma_bytes_bits_len(b.drop_first());
        assert(byte_bits(a[0]) =~= bytes_bits(a).subrange(0, 8));
        assert(byte_bits(b[0]) =~= bytes_bits(b).subrange(0, 8));
        lemma_byte_bits_injective(a[0], b[0]);
        assert(bytes_bits(a.drop_first()) =~= bytes_bits(a).subrange(8, bytes_bits(a).len() as int));
        assert(bytes_bits(b.drop_first()) =~= bytes_bits(b).subrange(8, bytes_bits(b).len() as int));
        lemma_bytes_bits_injective(a.drop_first(), b.drop_first());
        assert(forall|i: int| 1 <= i < a.len() ==> #[trigger] a[i] == a.drop_first()[i - 1]);
        assert(forall|i: int| 1 <= i < b.len() ==> #[trigger] b[i] == b.drop_first()[i - 1]);
        assert(a =~= b);
    }
}

/// A growable bit buffer, backed by a `BitVec<u8, Msb0>` of the `bitvec`
/// crate.  Verus sees the buffer only through `bv_bits` and the trusted
/// methods below.
#[verifier::external_body]
pub struct BitBuf {
    inner: BitVec<u8, Msb0>,
}

/// The bits held by the buffer, in order of appending.
pub uninterp spec fn bv_bits(bv: BitBuf) -> Seq<bool>;

impl BitBuf {
    /// Relies on bitvec's `BitVec::new`: a freshly created vector holds no
    /// bits.
    #[verifier::external_body]
    pub fn new() -> (r: BitBuf)
        ensures
            bv_bits(r) == Seq::<bool>::empty(),
    {
        BitBuf { inner: BitVec::new() }
    }

    /// Relies on bitvec's `BitVec::len`: the number of bits held.
    #[verifier::external_body]
    pub fn len(&self) -> (r: usize)
        ensures
            r == bv_bits(*self).len(),
    {
        self.inner.len()
    }

    /// Relies on bitvec's `BitVec::extend_from_bitslice` applied to
    /// `u8::view_bits::<Msb0>`: appends the eight bits of `b`, most
    /// significant bit first.
    #[verifier::external_body]
    pub(crate) fn push_byte(&mut self, b: u8)
        ensures
            bv_bits(*final(self)) == bv_bits(*old(self)) + byte_bits(b),
    {
        self.inner.extend_from_bitslice(b.view_bits::<Msb0>());
    }

    /// Relies on bitvec's `BitVec::as_raw_slice`: an owned bit-vector starts
    /// at bit zero of its storage, so when the bit length is a whole number
    /// of octets the raw octets spell exactly the held bits, MSB first.
    #[verifier::external_body]
    pub fn to_bytes(&self) -> (r: Vec<u8>)
        requires
            bv_bits(*self).len() % 8 == 0,
        ensures
            bytes_bits(r@) == bv_bits(*self),
    {
        self.inner.as_raw_slice().to_vec()
    }
}

/// Append one octet to the bit buffer.
pub fn append_u8(bv: &mut BitBuf, b: u8)
    ensures
        bv_bits(*final(bv)) == bv_bits(*old(bv)) + byte_bits(b),
{
    bv.push_byte(b);
}

/// Append a 16-bit integer, big-endian.
pub fn append_u16(bv: &mut BitBuf, v: u16)
    ensures
        bv_bits(*final(bv)) == bv_bits(*old(bv)) + bytes_bits(u16_be(v)),
{
    let ghost pre = bv_bits(*bv);
    bv.push_byte((v >> 8) as u8);
    bv.push_byte((v & 0xff) as u8);
    proof {
        assert(bytes_bits(u16_be(v)) =~= byte_bits((v >> 8) as u8) + byte_bits((v & 0xff) as u8)) by {
            assert(u16_be(v) =~= seq![(v >> 8) as u8] + seq![(v & 0xff) as u8]);
            lemma_bytes_bits_concat(seq![(v >> 8) as u8], seq![(v & 0xff) as u8]);
            lemma_bytes_bits_singleton((v >> 8) as u8);
            lemma_bytes_bits_singleton((v & 0xff) as u8);
        }
        assert(bv_bits(*bv) =~= pre + bytes_bits(u16_be(v)));
    }
}

/// Append a 32-bit integer, big-endian.
pub fn append_u32(bv: &mut BitBuf, v: u32)
    ensures
        bv_bits(*final(bv)) == bv_bits(*old(bv)) + bytes_bits(u32_be(v)),
{
    let ghost pre = bv_bits(*bv);
    append_u16(bv, (v >> 16) as u16);
    append_u16(bv, (v & 0xffff) as u16);
    proof {
        assert(u16_be((v >> 16) as u16) + u16_be((v & 0xffff) as u16) =~= u32_be(v)) by {
            assert((((v >> 16) as u16) >> 8) as u8 == (v >> 24) as u8) by (bit_vector);
            assert((((v >> 16) as u16) & 0xff) as u8 == ((v >> 16) & 0xff) as u8) by (bit_vector);
            assert((((v & 0xffff) as u16) >> 8) as u8 == ((v >> 8) & 0xff) as u8) by (bit_vector);
            assert((((v & 0xffff) as u16) & 0xff) as u8 == (v & 0xff) as u8) by (bit_vector);
        }
        lemma_bytes_bits_concat(u16_be((v >> 16) as u16), u16_be((v & 0xffff) as u16));
        assert(bv_bits(*bv) =~= pre + bytes_bits(u32_be(v)));
    }
}

/// Append a whole octet slice, each octet MSB-first.
pub fn append_bytes(bv: &mut BitBuf, s: &[u8])
    ensures
        bv_bits(*final(bv)) == bv_bits(*old(bv)) + bytes_bits(s@),
{
    let ghost pre = bv_bits(*bv);
    let mut i: usize = 0;
    while i < s.len()
        invariant
            i <= s.len(),
            bv_bits(*bv) == pre + bytes_bits(s@.take(i as int)),
        decreases s.len() - i,
    {
        bv.push_byte(s[i]);
        proof {
            assert(s@.take(i + 1 as int) =~= s@.take(i as int).push(s@[i as int]));
            lemma_bytes_bits_push(s@.take(i as int), s@[i as int]);
            assert(bv_bits(*bv) =~= pre + bytes_bits(s@.take(i + 1 as int)));
        }
        i = i + 1;
    }
    proof {
        assert(s@.take(s@.len() as int) =~= s@);
    }
}

} // verus!
