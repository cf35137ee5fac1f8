//! Little-endian integers.

use vstd::arithmetic::power::{lemma_pow0, lemma_pow_adds, pow};
use vstd::prelude::*;
use crate::modular::lemma_pow_next;

verus! {

/// The integer whose base-256 digits, least significant first, are `b`.
pub open spec fn le_value(b: Seq<u8>) -> int
    decreases b.len(),
{
    if b.len() == 0 {
        0
    } else {
        b[0] + 256 * le_value(b.drop_first())
    }
}

/// The lowest `len` base-256 digits of `n`, least significant first.
pub open spec fn le_bytes(n: int, len: nat) -> Seq<u8>
    decreases len,
{
    if len == 0 {
        Seq::empty()
    } else {
        seq![(n % 256) as u8] + le_bytes(n / 256, (len - 1) as nat)
    }
}

pub proof fn lemma_le_bytes_len(n: int, len: nat)
    ensures
        le_bytes(n, len).len() == len,
    decreases len,
{
    if len > 0 {
        lemma_le_bytes_len(n / 256, (len - 1) as nat);
    }
}

pub proof fn lemma_le_value_range(b: Seq<u8>)
    ensures
        0 <= le_value(b) < pow(256, b.len()),
    decreases b.len(),
{
    lemma_pow0(256);
    if b.len() > 0 {
        lemma_le_value_range(b.drop_first());
        lemma_pow_next(256, b.len() - 1);
    }
}

/// Reading the digits of a number gives the number back.
pub proof fn lemma_le_value_of_bytes(n: int, len: nat)
    requires
        0 <= n < pow(256, len),
    ensures
        le_value(le_bytes(n, len)) == n,
    decreases len,
{
    lemma_pow0(256);
    if len > 0 {
        lemma_pow_next(256, len - 1);
        lemma_le_value_of_bytes(n / 256, (len - 1) as nat);
        assert(le_bytes(n, len).drop_first() =~= le_bytes(n / 256, (len - 1) as nat));
    }
}

/// Writing the number that some digits stand for gives the digits back.
pub proof fn lemma_le_bytes_of_value(b: Seq<u8>)
    ensures
        le_bytes(le_value(b), b.len()) == b,
    decreases b.len(),
{
    if b.len() > 0 {
        let r = b.drop_first();
        lemma_le_bytes_of_value(r);
        lemma_le_value_range(r);
        let v = le_value(b);
        assert(v % 256 == b[0] as int && v / 256 == le_value(r));
        assert(seq![b[0]] + r =~= b);
    } else {
        assert(le_bytes(le_value(b), 0) =~= b);
    }
}

/// `byteorder::LittleEndian::write_u64` stores the eight base-256 digits of
/// the number, least significant first.
#[verifier::external_body]
pub(crate) fn write_u64(x: u64) -> (r: [u8; 8])
    ensures
        r@ == le_bytes(x as int, 8),
{
    let mut buf = [0u8; 8];
    <byteorder::LittleEndian as byteorder::ByteOrder>::write_u64(&mut buf, x);
    buf
}

/// `byteorder::LittleEndian::write_u32` stores the four base-256 digits of
/// the number, least significant first.
#[verifier::external_body]
pub(crate) fn write_u32(x: u32) -> (r: [u8; 4])
    ensures
        r@ == le_bytes(x as int, 4),
{
    let mut buf = [0u8; 4];
    <byteorder::LittleEndian as byteorder::ByteOrder>::write_u32(&mut buf, x);
    buf
}

/// The number that the `len` bytes of `data` from `pos` on stand for.
pub(crate) fn read_le(data: &[u8], pos: usize, len: usize) -> (r: u64)
    requires
        pos + len <= data@.len(),
        len <= 8,
    ensures
        r == le_value(data@.subrange(pos as int, pos + len)),
{
    let n: usize = data.len();
    let mut acc: u64 = 0;
    let mut i: usize = len;
    proof {
        assert(data@.subrange(pos + i, pos + len) =~= Seq::<u8>::empty());
    }
    while i > 0
        invariant
            i <= len <= 8,
            pos + len <= n == data@.len(),
            acc == le_value(data@.subrange(pos + i, pos + len)),
        decreases i,
    {
        let ghost rest = data@.subrange(pos + i, pos + len);
        i -= 1;
        proof {
            lemma_le_value_range(rest);
            lemma_pow_small();
            let whole = data@.subrange(pos + i, pos + len);
            assert(whole.drop_first() =~= rest);
        }
        acc = data[pos + i] as u64 + 256 * acc;
    }
    acc
}

/// The powers of 256 that fit into a machine word.
pub proof fn lemma_pow_small()
    ensures
        pow(256, 0) == 1,
        pow(256, 1) == 0x100,
        pow(256, 2) == 0x1_0000,
        pow(256, 3) == 0x100_0000,
        pow(256, 4) == 0x1_0000_0000,
        pow(256, 5) == 0x100_0000_0000,
        pow(256, 6) == 0x1_0000_0000_0000,
        pow(256, 7) == 0x100_0000_0000_0000,
        pow(256, 8) == 0x1_0000_0000_0000_0000,
{
    lemma_pow0(256);
    lemma_pow_next(256, 0);
    lemma_pow_next(256, 1);
    lemma_pow_next(256, 2);
    lemma_pow_next(256, 3);
    lemma_pow_next(256, 4);
    lemma_pow_next(256, 5);
    lemma_pow_next(256, 6);
    lemma_pow_next(256, 7);
}

/// The number of strings of 32 bytes.
pub proof fn lemma_pow_32()
    ensures
        pow(256, 32) == 0x1_0000_0000_0000_0000_0000_0000_0000_0000_0000_0000_0000_0000_0000_0000_0000_0000int,
{
    lemma_pow_small();
    lemma_pow_adds(256, 8, 8);
    lemma_pow_adds(256, 16, 16);
    let (a, b) = (pow(256, 8), pow(256, 16));
    assert(a * a == 0x1_0000_0000_0000_0000_0000_0000_0000_0000int) by (nonlinear_arith)
        requires
            a == 0x1_0000_0000_0000_0000int,
    ;
    assert(b * b
        == 0x1_0000_0000_0000_0000_0000_0000_0000_0000_0000_0000_0000_0000_0000_0000_0000_0000int)
        by (nonlinear_arith)
        requires
            b == 0x1_0000_0000_0000_0000_0000_0000_0000_0000int,
    ;
}

/// A byte is itself, and further bytes count as much more as there are bytes
/// before them.
pub proof fn law_le_value(a: Seq<u8>, b: Seq<u8>, x: u8)
    ensures
        le_value(Seq::empty()) == 0,
        le_value(seq![x]) == x,
        le_value(a + b) == le_value(a) + pow(256, a.len()) * le_value(b),
    decreases a.len(),
{
    let one: Seq<u8> = seq![x];
    assert(one.drop_first() =~= Seq::<u8>::empty());
    assert(le_value(one) == one[0] + 256 * le_value(one.drop_first()));
    if a.len() == 0 {
        lemma_pow0(256);
        assert(a + b =~= b);
        let v = le_value(b);
        assert(1 * v == v);
    } else {
        let r = a.drop_first();
        law_le_value(r, b, x);
        assert((a + b).drop_first() =~= r + b);
        lemma_pow_next(256, r.len() as int);
        let (p, v, u) = (pow(256, r.len()), le_value(b), le_value(r));
        assert(256 * (u + p * v) == 256 * u + (256 * p) * v) by (nonlinear_arith);
    }
}

} // verus!
