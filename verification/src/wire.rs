//! Byte strings that are put together from parts.

use vstd::prelude::*;
use crate::bytes::{le_bytes, lemma_pow_small};
use crate::folding::lemma_block_index;

verus! {

/// The parts, one after the other.
pub open spec fn joined(parts: Seq<Seq<u8>>) -> Seq<u8>
    decreases parts.len(),
{
    if parts.len() == 0 {
        Seq::empty()
    } else {
        joined(parts.drop_last()) + parts.last()
    }
}

/// The entries of all rows, one row after the other.
pub open spec fn row_entries<T>(rows: Seq<Seq<T>>) -> Seq<T>
    decreases rows.len(),
{
    if rows.len() == 0 {
        Seq::empty()
    } else {
        row_entries(rows.drop_last()) + rows.last()
    }
}

pub proof fn lemma_joined_push(parts: Seq<Seq<u8>>, part: Seq<u8>)
    ensures
        joined(parts.push(part)) == joined(parts) + part,
{
    assert(parts.push(part).drop_last() =~= parts);
}

pub proof fn lemma_joined_add(a: Seq<Seq<u8>>, b: Seq<Seq<u8>>)
    ensures
        joined(a + b) == joined(a) + joined(b),
    decreases b.len(),
{
    if b.len() == 0 {
        assert(a + b =~= a);
        assert(joined(a) + joined(b) =~= joined(a));
    } else {
        lemma_joined_add(a, b.drop_last());
        assert((a + b).drop_last() =~= a + b.drop_last());
        assert(joined(a) + joined(b.drop_last()) + b.last() =~= joined(a) + (joined(b.drop_last())
            + b.last()));
    }
}

pub proof fn lemma_row_entries_push<T>(rows: Seq<Seq<T>>, row: Seq<T>)
    ensures
        row_entries(rows.push(row)) == row_entries(rows) + row,
{
    assert(rows.push(row).drop_last() =~= rows);
}

/// The parts of a string of parts of one length.
pub proof fn lemma_joined_words(parts: Seq<Seq<u8>>, w: int)
    requires
        w >= 0,
        forall|i: int| 0 <= i < parts.len() ==> (#[trigger] parts[i]).len() == w,
    ensures
        joined(parts).len() == w * parts.len(),
        forall|i: int|
            0 <= i < parts.len() ==> joined(parts).subrange(w * i, w * i + w) == #[trigger] parts[i],
    decreases parts.len(),
{
    if parts.len() > 0 {
        let n = parts.len() - 1;
        let r = parts.drop_last();
        lemma_joined_words(r, w);
        assert(w * (n + 1) == w * n + w) by (nonlinear_arith);
        assert forall|i: int| 0 <= i < parts.len() implies joined(parts).subrange(w * i, w * i + w)
            == #[trigger] parts[i] by {
            if i < n {
                assert(w * i + w <= w * n) by (nonlinear_arith)
                    requires
                        i < n,
                        w >= 0,
                ;
                assert(0 <= w * i) by (nonlinear_arith)
                    requires
                        0 <= i,
                        w >= 0,
                ;
                assert(r[i] == parts[i]);
                assert(joined(parts).subrange(w * i, w * i + w) =~= joined(r).subrange(w * i, w * i + w));
            } else {
                assert(joined(parts).subrange(w * n, w * n + w) =~= parts.last());
            }
        }
    } else {
        assert(w * 0 == 0) by (nonlinear_arith);
    }
}

/// The number of entries in rows of one length.
pub proof fn lemma_row_entries_len<T>(rows: Seq<Seq<T>>, w: int)
    requires
        forall|r: int| 0 <= r < rows.len() ==> (#[trigger] rows[r]).len() == w,
    ensures
        row_entries(rows).len() == rows.len() * w,
    decreases rows.len(),
{
    if rows.len() > 0 {
        let n = rows.len() - 1;
        lemma_row_entries_len(rows.drop_last(), w);
        assert((n + 1) * w == n * w + w) by (nonlinear_arith);
    }
}

/// An entry in rows of one length.
pub proof fn lemma_row_entry<T>(rows: Seq<Seq<T>>, w: int, r: int, x: int)
    requires
        forall|r: int| 0 <= r < rows.len() ==> (#[trigger] rows[r]).len() == w,
        0 <= r < rows.len(),
        0 <= x < w,
    ensures
        0 <= r * w + x < row_entries(rows).len(),
        row_entries(rows)[r * w + x] == rows[r][x],
    decreases rows.len(),
{
    let n = rows.len() - 1;
    let p = rows.drop_last();
    lemma_row_entries_len(rows, w);
    lemma_row_entries_len(p, w);
    lemma_block_index(r, x, rows.len() as int, w);
    if r < n {
        lemma_row_entry(p, w, r, x);
    }
}

/// A number of eight bytes, written with 32.
pub proof fn lemma_wide_number(n: int)
    requires
        0 <= n < 0x1_0000_0000_0000_0000,
    ensures
        le_bytes(n, 32) == le_bytes(n, 8) + Seq::new(24, |i: int| 0u8),
{
    lemma_pow_small();
    lemma_pad_number(n, 8, 24);
}

/// Digits beyond the number are zero.
proof fn lemma_pad_number(n: int, len: nat, more: nat)
    requires
        0 <= n < vstd::arithmetic::power::pow(256, len),
    ensures
        le_bytes(n, len + more) == le_bytes(n, len) + Seq::new(more, |i: int| 0u8),
    decreases len + more,
{
    vstd::arithmetic::power::lemma_pow0(256);
    if len > 0 {
        crate::modular::lemma_pow_next(256, len - 1);
        lemma_pad_number(n / 256, (len - 1) as nat, more);
        let z = Seq::new(more, |i: int| 0u8);
        let d = seq![(n % 256) as u8];
        assert(d + (le_bytes(n / 256, (len - 1) as nat) + z) =~= d + le_bytes(n / 256, (len - 1) as nat)
            + z);
        assert((len + more - 1) as nat == (len - 1) as nat + more);
    } else if more > 0 {
        assert(n == 0);
        lemma_pad_number(0, 0, (more - 1) as nat);
        assert(le_bytes(0, more) =~= Seq::new(more, |i: int| 0u8)) by {
            let z = Seq::new((more - 1) as nat, |i: int| 0u8);
            assert(le_bytes(0, 0) =~= Seq::<u8>::empty());
            assert(le_bytes(0, (more - 1) as nat) =~= z);
        }
    } else {
        assert(le_bytes(n, 0) =~= Seq::<u8>::empty());
    }
}

/// Appends a part.
pub(crate) fn put(buf: &mut Vec<u8>, part: &[u8], Ghost(parts): Ghost<Seq<Seq<u8>>>)
    requires
        old(buf)@ == joined(parts),
    ensures
        final(buf)@ == joined(parts.push(part@)),
{
    buf.extend_from_slice(part);
    proof {
        lemma_joined_push(parts, part@);
        assert(buf@ =~= joined(parts) + part@);
    }
}

} // verus!
