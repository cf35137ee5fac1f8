//! The folding arguments as bytes: everything is preceded by its length.

use vstd::prelude::*;
use vstd::slice::slice_subrange;
use crate::bytes::{
    le_bytes, le_value, lemma_le_bytes_len, lemma_le_value_of_bytes, lemma_le_value_range, lemma_pow_small,
    read_le, write_u32, write_u64,
};
use crate::ecp::prove_ecp;
use crate::errors::ProofError;
use crate::folding::lemma_block_index;
use crate::group::{Field, Group, values};
use crate::ipa::prove_ipa;
use crate::p256::curve::Projective;
use crate::p256::field::{Fr, is_scalar, lemma_order};
use crate::wire::{
    joined, lemma_joined_push, lemma_row_entries_len, lemma_row_entries_push, lemma_row_entry, row_entries,
};

verus! {

// ---------------------------------------------------------------------------
// Items with their lengths
// ---------------------------------------------------------------------------

/// An item after its length, which takes `width` bytes.
pub open spec fn prefixed(item: Seq<u8>, width: nat) -> Seq<u8> {
    le_bytes(item.len() as int, width) + item
}

/// Items after their lengths.
pub open spec fn prefixed_all(items: Seq<Seq<u8>>, width: nat) -> Seq<Seq<u8>> {
    Seq::new(items.len(), |i: int| prefixed(items[i], width))
}

/// The item at a position, and the position after it.
pub open spec fn item_at(b: Seq<u8>, pos: int, width: nat) -> Option<(Seq<u8>, int)> {
    let start = pos + width;
    let len = le_value(b.subrange(pos, start));
    if start <= b.len() && start + len <= b.len() {
        Some((b.subrange(start, start + len), start + len))
    } else {
        None
    }
}

/// The `n` items from a position on, and the position after them.
pub open spec fn items_at(b: Seq<u8>, pos: int, n: nat, width: nat) -> Option<(Seq<Seq<u8>>, int)>
    decreases n,
{
    if n == 0 {
        Some((Seq::empty(), pos))
    } else {
        match items_at(b, pos, (n - 1) as nat, width) {
            Some((items, p)) => match item_at(b, p, width) {
                Some((item, next)) => Some((items.push(item), next)),
                None => None,
            },
            None => None,
        }
    }
}

/// Fewer items are the first of more.
pub proof fn lemma_items_prefix(b: Seq<u8>, pos: int, n: nat, m: nat, width: nat)
    requires
        n <= m,
        items_at(b, pos, m, width) is Some,
    ensures
        items_at(b, pos, n, width) is Some,
        (items_at(b, pos, n, width)->0).0 == (items_at(b, pos, m, width)->0).0.take(n as int),
        (items_at(b, pos, m, width)->0).0.len() == m,
    decreases m,
{
    let s = (items_at(b, pos, m, width)->0).0;
    lemma_items_len(b, pos, m, width);
    if n < m {
        lemma_items_prefix(b, pos, n, (m - 1) as nat, width);
        let t = (items_at(b, pos, (m - 1) as nat, width)->0).0;
        lemma_items_len(b, pos, (m - 1) as nat, width);
        assert(s.take(n as int) =~= t.take(n as int));
    } else {
        assert(s.take(n as int) =~= s);
    }
}

proof fn lemma_items_len(b: Seq<u8>, pos: int, n: nat, width: nat)
    requires
        items_at(b, pos, n, width) is Some,
    ensures
        (items_at(b, pos, n, width)->0).0.len() == n,
    decreases n,
{
    if n > 0 {
        lemma_items_len(b, pos, (n - 1) as nat, width);
    }
}

/// Items that were written can be read.
pub proof fn lemma_items_read(before: Seq<u8>, items: Seq<Seq<u8>>, after: Seq<u8>, width: nat)
    requires
        width == 4 || width == 8,
        forall|i: int|
            0 <= i < items.len() ==> (#[trigger] items[i]).len() < vstd::arithmetic::power::pow(256, width),
    ensures
        ({
            let mid = joined(prefixed_all(items, width));
            items_at(before + mid + after, before.len() as int, items.len(), width) == Some(
                (items, (before.len() + mid.len()) as int),
            )
        }),
    decreases items.len(),
{
    let mid = joined(prefixed_all(items, width));
    let b = before + mid + after;
    let pos = before.len() as int;
    if items.len() == 0 {
        assert(prefixed_all(items, width) =~= Seq::<Seq<u8>>::empty());
        assert(items =~= Seq::<Seq<u8>>::empty());
    } else {
        let r = items.drop_last();
        let x = items.last();
        assert(prefixed_all(items, width).drop_last() =~= prefixed_all(r, width));
        let rm = joined(prefixed_all(r, width));
        let rest = prefixed(x, width) + after;
        assert(mid =~= rm + prefixed(x, width));
        assert(b =~= before + rm + rest);
        lemma_items_read(before, r, rest, width);
        let p = pos + rm.len();
        lemma_le_bytes_len(x.len() as int, width);
        assert(b.subrange(p, p + width) =~= le_bytes(x.len() as int, width));
        lemma_le_value_of_bytes(x.len() as int, width);
        assert(b.subrange(p + width, p + width + x.len()) =~= x);
        assert(r.push(x) =~= items);
    }
}

/// Reads an item.
pub(crate) fn get_item(slice: &[u8], pos: usize, width: usize) -> (r: Option<(Vec<u8>, usize)>)
    requires
        pos <= slice@.len(),
        width == 4 || width == 8,
    ensures
        r is Some <==> item_at(slice@, pos as int, width as nat) is Some,
        r matches Some(t) ==> Some((t.0@, t.1 as int)) == item_at(slice@, pos as int, width as nat) && t.1
            <= slice@.len(),
{
    let n: usize = slice.len();
    if n - pos < width {
        return None;
    }
    let len: u64 = read_le(slice, pos, width);
    let start: usize = pos + width;
    if len > (n - start) as u64 {
        return None;
    }
    let end: usize = start + len as usize;
    let mut out: Vec<u8> = Vec::new();
    out.extend_from_slice(slice_subrange(slice, start, end));
    assert(out@ =~= slice@.subrange(start as int, end as int));
    Some((out, end))
}

// ---------------------------------------------------------------------------
// Writing
// ---------------------------------------------------------------------------

/// The encodings of some scalars.
pub open spec fn scalar_items(s: Seq<Fr>) -> Seq<Seq<u8>> {
    Seq::new(s.len(), |i: int| le_bytes(s[i].value(), 32))
}

/// The bytes of a row of points.
pub open spec fn row_items(row: Seq<Vec<u8>>) -> Seq<Seq<u8>> {
    Seq::new(row.len(), |x: int| row[x]@)
}

/// The bytes of the rows of points, one row after the other.
pub open spec fn point_items(rows: Seq<Vec<Vec<u8>>>) -> Seq<Seq<u8>> {
    row_entries(Seq::new(rows.len(), |r: int| row_items(rows[r]@)))
}

/// The bytes of a row of pairs, the two points of a pair one after the other.
pub open spec fn pair_row_items(row: Seq<[Vec<u8>; 2]>) -> Seq<Seq<u8>> {
    Seq::new(2 * row.len(), |y: int| row[y / 2]@[y % 2]@)
}

/// The bytes of the rows of pairs, one row after the other.
pub open spec fn pair_items(rows: Seq<Vec<[Vec<u8>; 2]>>) -> Seq<Seq<u8>> {
    row_entries(Seq::new(rows.len(), |r: int| pair_row_items(rows[r]@)))
}

/// Three numbers of eight bytes.
pub open spec fn header_bytes(k: int, d: int, m: int) -> Seq<u8> {
    le_bytes(k, 8) + le_bytes(d, 8) + le_bytes(m, 8)
}

/// The items of an inner product argument.
pub open spec fn ipa_items(p: prove_ipa<Projective>) -> Seq<Seq<u8>> {
    point_items(p.U_vecs@) + scalar_items(p.a_final@) + scalar_items(p.b_final@)
}

/// The items of an argument for two sets of bases.
pub open spec fn ecp_items(p: prove_ecp<Projective>) -> Seq<Seq<u8>> {
    pair_items(p.A_vecs@) + scalar_items(p.z@)
}

/// An inner product argument as bytes.
pub open spec fn ipa_bytes(p: prove_ipa<Projective>) -> Seq<u8> {
    header_bytes(p.k as int, p.U_vecs@.len() as int, p.a_final@.len() as int) + joined(
        prefixed_all(ipa_items(p), 4),
    )
}

/// An argument for two sets of bases as bytes.
pub open spec fn ecp_bytes(p: prove_ecp<Projective>) -> Seq<u8> {
    header_bytes(p.k as int, p.A_vecs@.len() as int, p.z@.len() as int) + joined(
        prefixed_all(ecp_items(p), 4),
    )
}

/// All encodings are short enough for their length to be written.
pub open spec fn all_short(items: Seq<Seq<u8>>) -> bool {
    forall|i: int| 0 <= i < items.len() ==> (#[trigger] items[i]).len() <= u32::MAX
}

/// Appends the three numbers.
fn put_header(k: usize, d: usize, m: usize) -> (r: Vec<u8>)
    ensures
        r@ == header_bytes(k as int, d as int, m as int),
{
    let mut buf: Vec<u8> = Vec::new();
    let (bk, bd, bm) = (write_u64(k as u64), write_u64(d as u64), write_u64(m as u64));
    buf.extend_from_slice(bk.as_slice());
    buf.extend_from_slice(bd.as_slice());
    buf.extend_from_slice(bm.as_slice());
    assert(buf@ =~= header_bytes(k as int, d as int, m as int));
    buf
}

/// Appends an item after its length.
fn put_item(buf: &mut Vec<u8>, item: &[u8], Ghost(head): Ghost<Seq<u8>>, Ghost(items): Ghost<Seq<Seq<u8>>>)
    requires
        item@.len() <= u32::MAX,
        old(buf)@ == head + joined(prefixed_all(items, 4)),
    ensures
        final(buf)@ == head + joined(prefixed_all(items.push(item@), 4)),
{
    let len = write_u32(item.len() as u32);
    buf.extend_from_slice(len.as_slice());
    buf.extend_from_slice(item);
    proof {
        let all = prefixed_all(items, 4);
        lemma_joined_push(all, prefixed(item@, 4));
        assert(prefixed_all(items.push(item@), 4) =~= all.push(prefixed(item@, 4)));
        assert(buf@ =~= head + (joined(all) + prefixed(item@, 4)));
    }
}

/// Appends scalars.
fn put_scalars(buf: &mut Vec<u8>, s: &Vec<Fr>, Ghost(head): Ghost<Seq<u8>>, Ghost(items): Ghost<Seq<Seq<u8>>>)
    requires
        old(buf)@ == head + joined(prefixed_all(items, 4)),
    ensures
        final(buf)@ == head + joined(prefixed_all(items + scalar_items(s@), 4)),
{
    let mut i: usize = 0;
    assert(items + scalar_items(s@).take(0) =~= items);
    while i < s.len()
        invariant
            i <= s@.len(),
            buf@ == head + joined(prefixed_all(items + scalar_items(s@).take(i as int), 4)),
        decreases s@.len() - i,
    {
        let bytes = s[i].to_bytes();
        let ghost cur = items + scalar_items(s@).take(i as int);
        put_item(buf, bytes.as_slice(), Ghost(head), Ghost(cur));
        assert(cur.push(bytes@) =~= items + scalar_items(s@).take(i + 1));
        i += 1;
    }
    assert(scalar_items(s@).take(i as int) =~= scalar_items(s@));
}

/// Appends rows of points.
fn put_points(buf: &mut Vec<u8>, rows: &Vec<Vec<Vec<u8>>>, Ghost(head): Ghost<Seq<u8>>)
    requires
        old(buf)@ == head,
        forall|r: int, x: int|
            0 <= r < rows@.len() && 0 <= x < rows@[r]@.len() ==> (#[trigger] rows@[r]@[x])@.len() <= u32::MAX,
    ensures
        final(buf)@ == head + joined(prefixed_all(point_items(rows@), 4)),
{
    let ghost all = Seq::new(rows@.len(), |r: int| row_items(rows@[r]@));
    let mut r: usize = 0;
    proof {
        assert(prefixed_all(row_entries(all.take(0)), 4) =~= Seq::<Seq<u8>>::empty());
        assert(head + joined(Seq::<Seq<u8>>::empty()) =~= head);
    }
    while r < rows.len()
        invariant
            r <= rows@.len(),
            forall|r: int, x: int|
                0 <= r < rows@.len() && 0 <= x < rows@[r]@.len() ==> (#[trigger] rows@[r]@[x])@.len() <= u32::MAX,
            all == Seq::new(rows@.len(), |r: int| row_items(rows@[r]@)),
            buf@ == head + joined(prefixed_all(row_entries(all.take(r as int)), 4)),
        decreases rows@.len() - r,
    {
        let ghost before = row_entries(all.take(r as int));
        let ghost row = row_items(rows@[r as int]@);
        let mut x: usize = 0;
        assert(before + row.take(0) =~= before);
        while x < rows[r].len()
            invariant
                r < rows@.len(),
                forall|r: int, x: int|
                    0 <= r < rows@.len() && 0 <= x < rows@[r]@.len() ==> (#[trigger] rows@[r]@[x])@.len()
                        <= u32::MAX,
                row == row_items(rows@[r as int]@),
                x <= rows@[r as int]@.len(),
                buf@ == head + joined(prefixed_all(before + row.take(x as int), 4)),
            decreases rows@[r as int]@.len() - x,
        {
            assert(rows@[r as int]@[x as int]@.len() <= u32::MAX);
            put_item(buf, rows[r][x].as_slice(), Ghost(head), Ghost(before + row.take(x as int)));
            assert((before + row.take(x as int)).push(row[x as int]) =~= before + row.take(x + 1));
            x += 1;
        }
        proof {
            assert(row.take(x as int) =~= row);
            assert(all.take(r + 1) =~= all.take(r as int).push(row));
            lemma_row_entries_push(all.take(r as int), row);
        }
        r += 1;
    }
    assert(all.take(r as int) =~= all);
}

/// Appends rows of pairs.
fn put_pairs(buf: &mut Vec<u8>, rows: &Vec<Vec<[Vec<u8>; 2]>>, Ghost(head): Ghost<Seq<u8>>)
    requires
        old(buf)@ == head,
        forall|r: int, x: int|
            0 <= r < rows@.len() && 0 <= x < rows@[r]@.len() ==> (#[trigger] rows@[r]@[x])@[0]@.len() <= u32::MAX
                && rows@[r]@[x]@[1]@.len() <= u32::MAX,
    ensures
        final(buf)@ == head + joined(prefixed_all(pair_items(rows@), 4)),
{
    let ghost all = Seq::new(rows@.len(), |r: int| pair_row_items(rows@[r]@));
    let mut r: usize = 0;
    proof {
        assert(prefixed_all(row_entries(all.take(0)), 4) =~= Seq::<Seq<u8>>::empty());
        assert(head + joined(Seq::<Seq<u8>>::empty()) =~= head);
    }
    while r < rows.len()
        invariant
            r <= rows@.len(),
            forall|r: int, x: int|
                0 <= r < rows@.len() && 0 <= x < rows@[r]@.len() ==> (#[trigger] rows@[r]@[x])@[0]@.len()
                    <= u32::MAX && rows@[r]@[x]@[1]@.len() <= u32::MAX,
            all == Seq::new(rows@.len(), |r: int| pair_row_items(rows@[r]@)),
            buf@ == head + joined(prefixed_all(row_entries(all.take(r as int)), 4)),
        decreases rows@.len() - r,
    {
        let ghost before = row_entries(all.take(r as int));
        let ghost row = pair_row_items(rows@[r as int]@);
        let mut x: usize = 0;
        assert(before + row.take(0) =~= before);
        while x < rows[r].len()
            invariant
                r < rows@.len(),
                forall|r: int, x: int|
                    0 <= r < rows@.len() && 0 <= x < rows@[r]@.len() ==> (#[trigger] rows@[r]@[x])@[0]@.len()
                        <= u32::MAX && rows@[r]@[x]@[1]@.len() <= u32::MAX,
                row == pair_row_items(rows@[r as int]@),
                x <= rows@[r as int]@.len(),
                buf@ == head + joined(prefixed_all(before + row.take(2 * x as int), 4)),
            decreases rows@[r as int]@.len() - x,
        {
            assert(rows@[r as int]@[x as int]@[0]@.len() <= u32::MAX);
            let pair = &rows[r][x];
            put_item(buf, pair[0].as_slice(), Ghost(head), Ghost(before + row.take(2 * x as int)));
            assert((before + row.take(2 * x as int)).push(row[2 * x as int]) =~= before + row.take(2 * x + 1));
            put_item(buf, pair[1].as_slice(), Ghost(head), Ghost(before + row.take(2 * x + 1)));
            assert((before + row.take(2 * x + 1)).push(row[2 * x + 1]) =~= before + row.take(2 * x + 2));
            x += 1;
        }
        proof {
            assert(row.take(2 * x as int) =~= row);
            assert(all.take(r + 1) =~= all.take(r as int).push(row));
            lemma_row_entries_push(all.take(r as int), row);
        }
        r += 1;
    }
    assert(all.take(r as int) =~= all);
}

// ---------------------------------------------------------------------------
// Reading
// ---------------------------------------------------------------------------

/// The number in eight bytes.
pub open spec fn number(b: Seq<u8>, i: int) -> int {
    le_value(b.subrange(8 * i, 8 * i + 8))
}

/// There are three numbers, and a row of the width that the first of them
/// determines can be counted.
pub open spec fn header_parses(b: Seq<u8>) -> bool {
    &&& b.len() >= 24
    &&& 1 <= number(b, 0)
    &&& 2 * number(b, 0) <= usize::MAX
    &&& number(b, 1) <= usize::MAX
    &&& number(b, 2) <= usize::MAX
}

/// The number of cross terms in a round of folding by `k`.
pub open spec fn terms_per_round(k: int) -> int {
    2 * k - 2
}

/// The items after the three numbers.
pub open spec fn body_items(b: Seq<u8>, n: int) -> Seq<Seq<u8>> {
    (items_at(b, 24, n as nat, 4)->0).0
}

/// There are `n` items after the three numbers.
pub open spec fn has_items(b: Seq<u8>, n: int) -> bool {
    items_at(b, 24, n as nat, 4) is Some
}

/// The items from number `from` on are scalars.
pub open spec fn are_scalar_items(items: Seq<Seq<u8>>, from: int) -> bool {
    forall|i: int| from <= i < items.len() ==> #[trigger] is_scalar(items[i])
}

/// The scalars that the items from number `from` on stand for.
pub open spec fn are_scalars(s: Seq<Fr>, items: Seq<Seq<u8>>, from: int) -> bool {
    forall|i: int| 0 <= i < s.len() ==> (#[trigger] s[i]).value() == le_value(items[from + i].take(32))
}

/// The rows of `w` points that the items are.
pub open spec fn are_points(rows: Seq<Vec<Vec<u8>>>, items: Seq<Seq<u8>>, w: int) -> bool {
    &&& forall|r: int| 0 <= r < rows.len() ==> (#[trigger] rows[r])@.len() == w
    &&& forall|r: int, x: int|
        0 <= r < rows.len() && 0 <= x < w ==> (#[trigger] rows[r]@[x])@ == items[r * w + x]
}

/// The rows of `w` pairs that the items are.
pub open spec fn are_pairs(rows: Seq<Vec<[Vec<u8>; 2]>>, items: Seq<Seq<u8>>, w: int) -> bool {
    &&& forall|r: int| 0 <= r < rows.len() ==> (#[trigger] rows[r])@.len() == w
    &&& forall|r: int, x: int|
        0 <= r < rows.len() && 0 <= x < w ==> (#[trigger] rows[r]@[x])@[0]@ == items[2 * (r * w + x)]
            && rows[r]@[x]@[1]@ == items[2 * (r * w + x) + 1]
}

/// Reads the three numbers.
fn get_header(slice: &[u8]) -> (r: Option<(usize, usize, usize)>)
    ensures
        r is Some <==> header_parses(slice@),
        r matches Some(h) ==> h.0 == number(slice@, 0) && h.1 == number(slice@, 1) && h.2 == number(
            slice@,
            2,
        ),
{
    if slice.len() < 24 {
        return None;
    }
    let k: u64 = read_le(slice, 0, 8);
    let d: u64 = read_le(slice, 8, 8);
    let m: u64 = read_le(slice, 16, 8);
    let max: u64 = usize::MAX as u64;
    if k < 1 || k > max / 2 || d > max || m > max {
        return None;
    }
    Some((k as usize, d as usize, m as usize))
}

/// One more item, read at the position after the others.
proof fn lemma_next_item(b: Seq<u8>, n: int, items: Seq<Seq<u8>>, pos: int)
    requires
        n >= 0,
        items_at(b, 24, n as nat, 4) == Some((items, pos)),
    ensures
        item_at(b, pos, 4) is Some <==> has_items(b, n + 1),
        item_at(b, pos, 4) is Some ==> items_at(b, 24, (n + 1) as nat, 4) == Some(
            (items.push((item_at(b, pos, 4)->0).0), (item_at(b, pos, 4)->0).1),
        ),
{
}

/// Where items are missing, more are missing.
proof fn lemma_missing(b: Seq<u8>, n: int, m: int)
    requires
        0 <= n <= m,
        !has_items(b, n),
    ensures
        !has_items(b, m),
{
    if has_items(b, m) {
        lemma_items_prefix(b, 24, n as nat, m as nat, 4);
    }
}

/// Reads rows of points.
fn get_points(slice: &[u8], d: usize, w: usize) -> (r: Option<(Vec<Vec<Vec<u8>>>, usize)>)
    requires
        slice@.len() >= 24,
    ensures
        r is Some <==> has_items(slice@, d * w),
        r matches Some(t) ==> {
            &&& t.0@.len() == d
            &&& are_points(t.0@, body_items(slice@, d * w), w as int)
            &&& items_at(slice@, 24, (d * w) as nat, 4) == Some((body_items(slice@, d * w), t.1 as int))
            &&& t.1 <= slice@.len()
        },
{
    let ghost b = slice@;
    let ghost mut items = Seq::<Seq<u8>>::empty();
    let mut out: Vec<Vec<Vec<u8>>> = Vec::new();
    let mut pos: usize = 24;
    let mut r: usize = 0;
    assert(0 * w == 0);
    while r < d
        invariant
            r <= d,
            b == slice@,
            pos <= b.len(),
            items_at(b, 24, (r * w) as nat, 4) == Some((items, pos as int)),
            out@.len() == r,
            items.len() == r * w,
            are_points(out@, items, w as int),
        decreases d - r,
    {
        let ghost items0 = items;
        let mut row: Vec<Vec<u8>> = Vec::new();
        let mut x: usize = 0;
        proof {
            assert(0 <= r * w) by (nonlinear_arith);
        }
        while x < w
            invariant
                r < d,
                x <= w,
                b == slice@,
                pos <= b.len(),
                r * w >= 0,
                items_at(b, 24, (r * w + x) as nat, 4) == Some((items, pos as int)),
                items.len() == r * w + x,
                items0.len() == r * w,
                items.take(r * w) == items0,
                row@.len() == x,
                forall|t: int| 0 <= t < x ==> (#[trigger] row@[t])@ == items[r * w + t],
            decreases w - x,
        {
            proof {
                lemma_next_item(b, r * w + x, items, pos as int);
            }
            match get_item(slice, pos, 4) {
                Some((item, next)) => {
                    proof {
                        let before = items;
                        items = items.push(item@);
                        assert(items.take(r * w) =~= before.take(r * w));
                    }
                    row.push(item);
                    pos = next;
                },
                None => {
                    proof {
                        lemma_block_index(r as int, x as int, d as int, w as int);
                        lemma_missing(b, r * w + x + 1, d * w);
                    }
                    return None;
                },
            }
            x += 1;
        }
        let ghost before = out@;
        out.push(row);
        proof {
            assert((r + 1) * w == r * w + w) by (nonlinear_arith);
            assert forall|s: int, x: int| 0 <= s < r + 1 && 0 <= x < w implies (#[trigger] out@[s]@[x])@ == items[s
                * w + x] by {
                if s < r {
                    lemma_block_index(s, x, r as int, w as int);
                    assert(out@[s] == before[s]);
                    assert(items0[s * w + x] == items[s * w + x]);
                }
            }
        }
        r += 1;
    }
    Some((out, pos))
}

/// Reads rows of pairs.
fn get_pairs(slice: &[u8], d: usize, w: usize) -> (r: Option<(Vec<Vec<[Vec<u8>; 2]>>, usize)>)
    requires
        slice@.len() >= 24,
    ensures
        r is Some <==> has_items(slice@, 2 * (d * w)),
        r matches Some(t) ==> {
            &&& t.0@.len() == d
            &&& are_pairs(t.0@, body_items(slice@, 2 * (d * w)), w as int)
            &&& items_at(slice@, 24, (2 * (d * w)) as nat, 4) == Some(
                (body_items(slice@, 2 * (d * w)), t.1 as int),
            )
            &&& t.1 <= slice@.len()
        },
{
    let ghost b = slice@;
    let ghost mut items = Seq::<Seq<u8>>::empty();
    let mut out: Vec<Vec<[Vec<u8>; 2]>> = Vec::new();
    let mut pos: usize = 24;
    let mut r: usize = 0;
    assert(0 * w == 0);
    while r < d
        invariant
            r <= d,
            b == slice@,
            pos <= b.len(),
            items_at(b, 24, (2 * (r * w)) as nat, 4) == Some((items, pos as int)),
            out@.len() == r,
            items.len() == 2 * (r * w),
            are_pairs(out@, items, w as int),
        decreases d - r,
    {
        let ghost items0 = items;
        let mut row: Vec<[Vec<u8>; 2]> = Vec::new();
        let mut x: usize = 0;
        proof {
            assert(0 <= r * w) by (nonlinear_arith);
        }
        while x < w
            invariant
                r < d,
                x <= w,
                b == slice@,
                pos <= b.len(),
                r * w >= 0,
                items_at(b, 24, (2 * (r * w + x)) as nat, 4) == Some((items, pos as int)),
                items.len() == 2 * (r * w + x),
                items0.len() == 2 * (r * w),
                items.take(2 * (r * w)) == items0,
                row@.len() == x,
                forall|t: int|
                    0 <= t < x ==> (#[trigger] row@[t])@[0]@ == items[2 * (r * w + t)] && row@[t]@[1]@ == items[2
                        * (r * w + t) + 1],
            decreases w - x,
        {
            let ghost n = 2 * (r * w + x);
            let ghost before = items;
            proof {
                lemma_next_item(b, n, items, pos as int);
                lemma_block_index(r as int, x as int, d as int, w as int);
            }
            let (p0, next) = match get_item(slice, pos, 4) {
                Some(t) => t,
                None => {
                    proof {
                        lemma_missing(b, n + 1, 2 * (d * w));
                    }
                    return None;
                },
            };
            pos = next;
            proof {
                items = items.push(p0@);
                lemma_next_item(b, n + 1, items, pos as int);
            }
            let (p1, next) = match get_item(slice, pos, 4) {
                Some(t) => t,
                None => {
                    proof {
                        lemma_missing(b, n + 2, 2 * (d * w));
                    }
                    return None;
                },
            };
            pos = next;
            proof {
                items = items.push(p1@);
                assert(items.take(2 * (r * w)) =~= before.take(2 * (r * w)));
            }
            row.push([p0, p1]);
            x += 1;
        }
        let ghost before = out@;
        out.push(row);
        proof {
            assert((r + 1) * w == r * w + w) by (nonlinear_arith);
            assert forall|s: int, x: int| 0 <= s < r + 1 && 0 <= x < w implies (#[trigger] out@[s]@[x])@[0]@
                == items[2 * (s * w + x)] && out@[s]@[x]@[1]@ == items[2 * (s * w + x) + 1] by {
                if s < r {
                    lemma_block_index(s, x, r as int, w as int);
                    assert(out@[s] == before[s]);
                    assert(items0[2 * (s * w + x)] == items[2 * (s * w + x)]);
                    assert(items0[2 * (s * w + x) + 1] == items[2 * (s * w + x) + 1]);
                }
            }
        }
        r += 1;
    }
    Some((out, pos))
}

/// Reads scalars after `n` items.
fn get_scalars(slice: &[u8], pos: usize, m: usize, Ghost(n): Ghost<int>) -> (r: Option<(Vec<Fr>, usize)>)
    requires
        n >= 0,
        pos <= slice@.len(),
        items_at(slice@, 24, n as nat, 4) == Some((body_items(slice@, n), pos as int)),
    ensures
        r is Some <==> has_items(slice@, n + m) && are_scalar_items(body_items(slice@, n + m), n),
        r matches Some(t) ==> {
            &&& t.0@.len() == m
            &&& are_scalars(t.0@, body_items(slice@, n + m), n)
            &&& items_at(slice@, 24, (n + m) as nat, 4) == Some((body_items(slice@, n + m), t.1 as int))
            &&& t.1 <= slice@.len()
        },
{
    let ghost b = slice@;
    let ghost mut items = body_items(b, n);
    let mut out: Vec<Fr> = Vec::new();
    let mut pos: usize = pos;
    let mut i: usize = 0;
    proof {
        lemma_items_len(b, 24, n as nat, 4);
    }
    while i < m
        invariant
            i <= m,
            n >= 0,
            b == slice@,
            pos <= b.len(),
            items_at(b, 24, (n + i) as nat, 4) == Some((items, pos as int)),
            items.len() == n + i,
            are_scalar_items(items, n),
            out@.len() == i,
            are_scalars(out@, items, n),
        decreases m - i,
    {
        proof {
            lemma_next_item(b, n + i, items, pos as int);
        }
        let (item, next) = match get_item(slice, pos, 4) {
            Some(t) => t,
            None => {
                proof {
                    lemma_missing(b, n + i + 1, n + m);
                }
                return None;
            },
        };
        let ghost before = items;
        proof {
            items = items.push(item@);
        }
        match Fr::deserialize_compressed(item.as_slice()) {
            Some(s) => {
                out.push(s);
            },
            None => {
                proof {
                    if has_items(b, n + m) {
                        lemma_items_prefix(b, 24, (n + i + 1) as nat, (n + m) as nat, 4);
                        assert(body_items(b, n + m)[n + i] == items[n + i]);
                        assert(!is_scalar(body_items(b, n + m)[n + i]));
                    }
                }
                return None;
            },
        }
        pos = next;
        proof {
            assert forall|t: int| n <= t < items.len() implies #[trigger] is_scalar(items[t]) by {
                if t < n + i {
                    assert(is_scalar(before[t]));
                }
            }
        }
        i += 1;
    }
    Some((out, pos))
}

// ---------------------------------------------------------------------------
// The inner product argument
// ---------------------------------------------------------------------------

/// The number of items of the inner product argument that some bytes are.
pub open spec fn ipa_count(b: Seq<u8>) -> int {
    number(b, 1) * terms_per_round(number(b, 0)) + 2 * number(b, 2)
}

/// Some bytes are an inner product argument.
pub open spec fn ipa_parses(b: Seq<u8>) -> bool {
    let n = number(b, 1) * terms_per_round(number(b, 0));
    &&& header_parses(b)
    &&& has_items(b, ipa_count(b))
    &&& are_scalar_items(body_items(b, ipa_count(b)), n)
}

/// The inner product argument that some bytes are. Bytes that follow it do not
/// count.
pub open spec fn ipa_is(p: prove_ipa<Projective>, b: Seq<u8>) -> bool {
    let w = terms_per_round(number(b, 0));
    let n = number(b, 1) * w;
    let items = body_items(b, ipa_count(b));
    &&& p.k == number(b, 0)
    &&& p.U_vecs@.len() == number(b, 1)
    &&& p.a_final@.len() == number(b, 2)
    &&& p.b_final@.len() == number(b, 2)
    &&& are_points(p.U_vecs@, items, w)
    &&& are_scalars(p.a_final@, items, n)
    &&& are_scalars(p.b_final@, items, n + number(b, 2))
}

/// Every round has the number of cross terms that `k` determines, the two
/// final vectors have one length, and the length of every encoding can be
/// written.
pub open spec fn ipa_regular(p: prove_ipa<Projective>) -> bool {
    &&& 1 <= p.k
    &&& 2 * p.k <= usize::MAX
    &&& p.a_final@.len() == p.b_final@.len()
    &&& forall|r: int| 0 <= r < p.U_vecs@.len() ==> (#[trigger] p.U_vecs@[r])@.len() == terms_per_round(p.k as int)
    &&& ipa_short(p)
}

/// The length of every encoding can be written.
pub open spec fn ipa_short(p: prove_ipa<Projective>) -> bool {
    forall|r: int, x: int|
        0 <= r < p.U_vecs@.len() && 0 <= x < p.U_vecs@[r]@.len() ==> (#[trigger] p.U_vecs@[r]@[x])@.len()
            <= u32::MAX
}

/// Two inner product arguments hold the same.
pub open spec fn same_ipa(p: prove_ipa<Projective>, q: prove_ipa<Projective>) -> bool {
    &&& p.k == q.k
    &&& p.points() == q.points()
    &&& values(p.a_final@) == values(q.a_final@)
    &&& values(p.b_final@) == values(q.b_final@)
}

/// Items are no longer than the length before them can say.
proof fn lemma_items_short(b: Seq<u8>, n: nat)
    requires
        items_at(b, 24, n, 4) is Some,
        b.len() >= 24,
    ensures
        all_short((items_at(b, 24, n, 4)->0).0),
        24 <= (items_at(b, 24, n, 4)->0).1 <= b.len(),
    decreases n,
{
    if n > 0 {
        lemma_items_short(b, (n - 1) as nat);
        let p = (items_at(b, 24, (n - 1) as nat, 4)->0).1;
        let len = b.subrange(p, p + 4);
        lemma_le_value_range(len);
        lemma_pow_small();
    }
}

impl prove_ipa<Projective> {
    /// Serializes the argument into a byte array: the folding factor, the
    /// number of rounds, the length of the final vectors, the cross terms and
    /// the final vectors.
    pub fn to_bytes(&self) -> (r: Vec<u8>)
        requires
            ipa_short(*self),
        ensures
            r@ == ipa_bytes(*self),
    {
        let mut buf = put_header(self.k, self.U_vecs.len(), self.a_final.len());
        let ghost head = buf@;
        put_points(&mut buf, &self.U_vecs, Ghost(head));
        let ghost i0 = point_items(self.U_vecs@);
        put_scalars(&mut buf, &self.a_final, Ghost(head), Ghost(i0));
        put_scalars(&mut buf, &self.b_final, Ghost(head), Ghost(i0 + scalar_items(self.a_final@)));
        buf
    }

    /// Deserializes the argument from a byte slice.
    pub fn from_bytes(slice: &[u8]) -> (r: Result<prove_ipa<Projective>, ProofError>)
        ensures
            r is Ok <==> ipa_parses(slice@),
            r matches Err(e) ==> e == ProofError::FormatError,
            r matches Ok(p) ==> ipa_is(p, slice@) && ipa_regular(p),
    {
        let (k, d, m) = match get_header(slice) {
            Some(h) => h,
            None => {
                return Err(ProofError::FormatError);
            },
        };
        let w: usize = 2 * k - 2;
        let ghost b = slice@;
        let ghost n = d * w;
        proof {
            assert(0 <= d * w) by (nonlinear_arith);
            if ipa_parses(b) {
                lemma_ipa_prefix(b);
            }
        }
        let (U_vecs, pos) = match get_points(slice, d, w) {
            Some(t) => t,
            None => {
                return Err(ProofError::FormatError);
            },
        };
        let (a_final, pos) = match get_scalars(slice, pos, m, Ghost(n)) {
            Some(t) => t,
            None => {
                return Err(ProofError::FormatError);
            },
        };
        let (b_final, _pos) = match get_scalars(slice, pos, m, Ghost(n + m)) {
            Some(t) => t,
            None => {
                return Err(ProofError::FormatError);
            },
        };
        let p: prove_ipa<Projective> = prove_ipa { k, U_vecs, a_final, b_final };
        proof {
            let all = body_items(b, n + m + m);
            lemma_items_prefix(b, 24, n as nat, (n + m + m) as nat, 4);
            lemma_items_prefix(b, 24, (n + m) as nat, (n + m + m) as nat, 4);
            lemma_items_short(b, (n + m + m) as nat);
            assert forall|i: int| n <= i < all.len() implies #[trigger] is_scalar(all[i]) by {
                if i < n + m {
                    assert(is_scalar(body_items(b, n + m)[i]));
                }
            }
            assert forall|r: int, x: int| 0 <= r < d && 0 <= x < w implies (#[trigger] p.U_vecs@[r]@[x])@ == all[r
                * w + x] by {
                lemma_block_index(r, x, d as int, w as int);
                assert(p.U_vecs@[r]@[x]@ == body_items(b, n)[r * w + x]);
            }
            assert forall|r: int, x: int| 0 <= r < p.U_vecs@.len() && 0 <= x < p.U_vecs@[r]@.len() implies (
            #[trigger] p.U_vecs@[r]@[x])@.len() <= u32::MAX by {
                assert(p.U_vecs@[r]@.len() == w);
                lemma_block_index(r, x, d as int, w as int);
                assert(p.U_vecs@[r]@[x]@ == all[r * w + x]);
            }
        }
        Ok(p)
    }
}

/// The first items of an argument that can be read.
proof fn lemma_ipa_prefix(b: Seq<u8>)
    requires
        ipa_parses(b),
    ensures
        ({
            let m = number(b, 2);
            let n = number(b, 1) * terms_per_round(number(b, 0));
            &&& has_items(b, n)
            &&& has_items(b, n + m)
            &&& are_scalar_items(body_items(b, n + m), n)
            &&& has_items(b, n + m + m)
            &&& are_scalar_items(body_items(b, n + m + m), n + m)
        }),
{
    let m = number(b, 2);
    let (d, w) = (number(b, 1), terms_per_round(number(b, 0)));
    let n = d * w;
    lemma_le_value_range(b.subrange(8, 16));
    lemma_le_value_range(b.subrange(16, 24));
    assert(0 <= d * w) by (nonlinear_arith)
        requires
            d >= 0,
            w >= 0,
    ;
    lemma_items_prefix(b, 24, n as nat, (n + m + m) as nat, 4);
    lemma_items_prefix(b, 24, (n + m) as nat, (n + m + m) as nat, 4);
    assert forall|i: int| n <= i < body_items(b, n + m).len() implies #[trigger] is_scalar(
        body_items(b, n + m)[i],
    ) by {
        assert(is_scalar(body_items(b, n + m + m)[i]));
    }
}

/// The encoding of a scalar is read as the scalar.
pub proof fn lemma_scalar_item(s: Fr)
    ensures
        le_bytes(s.value(), 32).len() == 32,
        is_scalar(le_bytes(s.value(), 32)),
        le_value(le_bytes(s.value(), 32).take(32)) == s.value(),
{
    s.value_range();
    lemma_order();
    lemma_le_bytes_len(s.value(), 32);
    lemma_le_value_of_bytes(s.value(), 32);
    let e = le_bytes(s.value(), 32);
    assert(e.take(32) =~= e);
}

/// The three numbers can be read.
pub proof fn lemma_header_read(k: int, d: int, m: int, rest: Seq<u8>)
    requires
        0 <= k <= u64::MAX,
        0 <= d <= u64::MAX,
        0 <= m <= u64::MAX,
    ensures
        ({
            let b = header_bytes(k, d, m) + rest;
            &&& b.len() >= 24
            &&& header_bytes(k, d, m).len() == 24
            &&& number(b, 0) == k
            &&& number(b, 1) == d
            &&& number(b, 2) == m
        }),
{
    let b = header_bytes(k, d, m) + rest;
    lemma_le_bytes_len(k, 8);
    lemma_le_bytes_len(d, 8);
    lemma_le_bytes_len(m, 8);
    lemma_pow_small();
    lemma_le_value_of_bytes(k, 8);
    lemma_le_value_of_bytes(d, 8);
    lemma_le_value_of_bytes(m, 8);
    assert(b.subrange(0, 8) =~= le_bytes(k, 8));
    assert(b.subrange(8, 16) =~= le_bytes(d, 8));
    assert(b.subrange(16, 24) =~= le_bytes(m, 8));
}

/// Entries of rows of short items are short.
proof fn lemma_entries_short(rows: Seq<Seq<Seq<u8>>>)
    requires
        forall|r: int, x: int|
            0 <= r < rows.len() && 0 <= x < rows[r].len() ==> (#[trigger] rows[r][x]).len() <= u32::MAX,
    ensures
        all_short(row_entries(rows)),
    decreases rows.len(),
{
    if rows.len() > 0 {
        let p = rows.drop_last();
        assert forall|r: int, x: int| 0 <= r < p.len() && 0 <= x < p[r].len() implies (#[trigger] p[r][x]).len()
            <= u32::MAX by {
            assert(rows[r][x].len() <= u32::MAX);
        }
        lemma_entries_short(p);
        assert forall|i: int| 0 <= i < row_entries(rows).len() implies (#[trigger] row_entries(rows)[i]).len()
            <= u32::MAX by {
            let n = row_entries(p).len() as int;
            if i < n {
                assert(row_entries(p)[i].len() <= u32::MAX);
            } else {
                assert(rows[rows.len() - 1][i - n].len() <= u32::MAX);
            }
        }
    }
}

/// What is read of an item list that was written after the three numbers.
proof fn lemma_body_read(k: int, d: int, m: int, items: Seq<Seq<u8>>)
    requires
        0 <= k <= u64::MAX,
        0 <= d <= u64::MAX,
        0 <= m <= u64::MAX,
        all_short(items),
    ensures
        ({
            let b = header_bytes(k, d, m) + joined(prefixed_all(items, 4));
            &&& b.len() >= 24
            &&& number(b, 0) == k
            &&& number(b, 1) == d
            &&& number(b, 2) == m
            &&& has_items(b, items.len() as int)
            &&& body_items(b, items.len() as int) == items
            &&& (items_at(b, 24, items.len(), 4)->0).1 == b.len()
        }),
{
    let head = header_bytes(k, d, m);
    let mid = joined(prefixed_all(items, 4));
    lemma_header_read(k, d, m, mid);
    lemma_pow_small();
    lemma_items_read(head, items, Seq::empty(), 4);
    assert(head + mid + Seq::<u8>::empty() =~= head + mid);
}

/// Items that are there in a part of some bytes are the same in all of them,
/// and end within the part.
proof fn lemma_items_of_prefix(b: Seq<u8>, j: int, n: nat)
    requires
        24 <= j <= b.len(),
        items_at(b.take(j), 24, n, 4) is Some,
    ensures
        items_at(b, 24, n, 4) == items_at(b.take(j), 24, n, 4),
        24 <= (items_at(b, 24, n, 4)->0).1 <= j,
    decreases n,
{
    let c = b.take(j);
    if n > 0 {
        lemma_items_of_prefix(b, j, (n - 1) as nat);
        let pos = (items_at(c, 24, (n - 1) as nat, 4)->0).1;
        assert(item_at(c, pos, 4) is Some);
        assert(c.subrange(pos, pos + 4) =~= b.subrange(pos, pos + 4));
        let len = le_value(b.subrange(pos, pos + 4));
        lemma_le_value_range(b.subrange(pos, pos + 4));
        assert(c.subrange(pos + 4, pos + 4 + len) =~= b.subrange(pos + 4, pos + 4 + len));
    }
}

/// The numbers at the start are those of all bytes that start so.
proof fn lemma_header_of_prefix(b: Seq<u8>, j: int)
    requires
        24 <= j <= b.len(),
    ensures
        number(b.take(j), 0) == number(b, 0),
        number(b.take(j), 1) == number(b, 1),
        number(b.take(j), 2) == number(b, 2),
{
    assert(b.take(j).subrange(0, 8) =~= b.subrange(0, 8));
    assert(b.take(j).subrange(8, 16) =~= b.subrange(8, 16));
    assert(b.take(j).subrange(16, 24) =~= b.subrange(16, 24));
}

/// Whoever reads only a part of what was written for an inner product argument
/// from its start gets an error.
pub proof fn law_ipa_prefix(p: prove_ipa<Projective>, j: int)
    requires
        ipa_regular(p),
        0 <= j < ipa_bytes(p).len(),
    ensures
        !ipa_parses(ipa_bytes(p).take(j)),
{
    let b = ipa_bytes(p);
    law_ipa_round_trip(p, p);
    if j >= 24 && ipa_parses(b.take(j)) {
        lemma_header_of_prefix(b, j);
        lemma_items_of_prefix(b, j, ipa_count(b) as nat);
    }
}

/// Whoever reads what was written for an inner product argument gets the
/// argument back.
pub proof fn law_ipa_round_trip(p: prove_ipa<Projective>, q: prove_ipa<Projective>)
    requires
        ipa_regular(p),
    ensures
        ipa_parses(ipa_bytes(p)),
        ipa_is(p, ipa_bytes(p)),
        ipa_is(q, ipa_bytes(p)) ==> same_ipa(q, p),
        (items_at(ipa_bytes(p), 24, ipa_count(ipa_bytes(p)) as nat, 4)->0).1 == ipa_bytes(p).len(),
{
    let items = ipa_items(p);
    let b = ipa_bytes(p);
    let (k, d, m) = (p.k as int, p.U_vecs@.len() as int, p.a_final@.len() as int);
    let w = terms_per_round(k);
    let rows = Seq::new(p.U_vecs@.len(), |r: int| row_items(p.U_vecs@[r]@));
    assert(p.U_vecs.len() == d && p.a_final.len() == m);
    lemma_row_entries_len(rows, w);
    assert forall|r: int, x: int| 0 <= r < rows.len() && 0 <= x < rows[r].len() implies (
    #[trigger] rows[r][x]).len() <= u32::MAX by {
        assert(p.U_vecs@[r]@[x]@.len() <= u32::MAX);
    }
    lemma_entries_short(rows);
    assert(0 <= d * w) by (nonlinear_arith)
        requires
            d >= 0,
            w >= 0,
    ;
    let n = d * w;
    assert forall|i: int| 0 <= i < m implies items[n + i] == le_bytes((#[trigger] p.a_final@[i]).value(), 32) by {}
    assert forall|i: int| 0 <= i < m implies items[n + m + i] == le_bytes(
        (#[trigger] p.b_final@[i]).value(),
        32,
    ) by {}
    assert(all_short(items)) by {
        assert forall|i: int| 0 <= i < items.len() implies (#[trigger] items[i]).len() <= u32::MAX by {
            if i < n {
                assert(items[i] == row_entries(rows)[i]);
            } else if i < n + m {
                lemma_scalar_item(p.a_final@[i - n]);
            } else {
                lemma_scalar_item(p.b_final@[i - n - m]);
            }
        }
    }
    lemma_body_read(k, d, m, items);
    assert(items.len() == ipa_count(b));
    assert forall|i: int| n <= i < items.len() implies #[trigger] is_scalar(items[i]) by {
        if i < n + m {
            lemma_scalar_item(p.a_final@[i - n]);
        } else {
            lemma_scalar_item(p.b_final@[i - n - m]);
        }
    }
    assert forall|r: int, x: int| 0 <= r < d && 0 <= x < w implies (#[trigger] p.U_vecs@[r]@[x])@ == items[r * w
        + x] by {
        lemma_row_entry(rows, w, r, x);
        assert(rows[r][x] == p.U_vecs@[r]@[x]@);
    }
    assert forall|i: int| 0 <= i < m implies (#[trigger] p.a_final@[i]).value() == le_value(
        items[n + i].take(32),
    ) by {
        lemma_scalar_item(p.a_final@[i]);
    }
    assert forall|i: int| 0 <= i < m implies (#[trigger] p.b_final@[i]).value() == le_value(
        items[n + m + i].take(32),
    ) by {
        lemma_scalar_item(p.b_final@[i]);
    }
    if ipa_is(q, b) {
        assert(q.points() =~= p.points()) by {
            assert forall|r: int| 0 <= r < d implies q.points()[r] == p.points()[r] by {
                assert(q.U_vecs@[r]@.len() == w && p.U_vecs@[r]@.len() == w);
                assert forall|x: int| 0 <= x < w implies q.points()[r][x] == p.points()[r][x] by {
                    assert(q.U_vecs@[r]@[x]@ == items[r * w + x]);
                    assert(p.U_vecs@[r]@[x]@ == items[r * w + x]);
                }
                assert(q.points()[r] =~= p.points()[r]);
            }
        }
        assert(values(q.a_final@) =~= values(p.a_final@)) by {
            assert forall|i: int| 0 <= i < m implies q.a_final@[i].value() == p.a_final@[i].value() by {}
        }
        assert(values(q.b_final@) =~= values(p.b_final@)) by {
            assert forall|i: int| 0 <= i < m implies q.b_final@[i].value() == p.b_final@[i].value() by {}
        }
    }
}

// ---------------------------------------------------------------------------
// The argument for two sets of bases
// ---------------------------------------------------------------------------

/// The number of items of the argument for two sets of bases that some bytes
/// are.
pub open spec fn ecp_count(b: Seq<u8>) -> int {
    2 * (number(b, 1) * terms_per_round(number(b, 0))) + number(b, 2)
}

/// Some bytes are an argument for two sets of bases.
pub open spec fn ecp_parses(b: Seq<u8>) -> bool {
    let n = 2 * (number(b, 1) * terms_per_round(number(b, 0)));
    &&& header_parses(b)
    &&& has_items(b, ecp_count(b))
    &&& are_scalar_items(body_items(b, ecp_count(b)), n)
}

/// The argument for two sets of bases that some bytes are. Bytes that follow
/// it do not count.
pub open spec fn ecp_is(p: prove_ecp<Projective>, b: Seq<u8>) -> bool {
    let w = terms_per_round(number(b, 0));
    let items = body_items(b, ecp_count(b));
    &&& p.k == number(b, 0)
    &&& p.A_vecs@.len() == number(b, 1)
    &&& p.z@.len() == number(b, 2)
    &&& are_pairs(p.A_vecs@, items, w)
    &&& are_scalars(p.z@, items, 2 * (number(b, 1) * w))
}

/// Every round has the number of pairs that `k` determines, and the length of
/// every encoding can be written.
pub open spec fn ecp_regular(p: prove_ecp<Projective>) -> bool {
    &&& 1 <= p.k
    &&& 2 * p.k <= usize::MAX
    &&& forall|r: int| 0 <= r < p.A_vecs@.len() ==> (#[trigger] p.A_vecs@[r])@.len() == terms_per_round(p.k as int)
    &&& ecp_short(p)
}

/// The length of every encoding can be written.
pub open spec fn ecp_short(p: prove_ecp<Projective>) -> bool {
    forall|r: int, x: int|
        0 <= r < p.A_vecs@.len() && 0 <= x < p.A_vecs@[r]@.len() ==> (#[trigger] p.A_vecs@[r]@[x])@[0]@.len()
            <= u32::MAX && p.A_vecs@[r]@[x]@[1]@.len() <= u32::MAX
}

/// Two arguments for two sets of bases hold the same.
pub open spec fn same_ecp(p: prove_ecp<Projective>, q: prove_ecp<Projective>) -> bool {
    &&& p.k == q.k
    &&& p.points(0) == q.points(0)
    &&& p.points(1) == q.points(1)
    &&& values(p.z@) == values(q.z@)
}

impl prove_ecp<Projective> {
    /// Serializes the argument into a byte array: the folding factor, the
    /// number of rounds, the length of the final vector, the pairs of cross
    /// terms and the final vector.
    pub fn to_bytes(&self) -> (r: Vec<u8>)
        requires
            ecp_short(*self),
        ensures
            r@ == ecp_bytes(*self),
    {
        let mut buf = put_header(self.k, self.A_vecs.len(), self.z.len());
        let ghost head = buf@;
        put_pairs(&mut buf, &self.A_vecs, Ghost(head));
        put_scalars(&mut buf, &self.z, Ghost(head), Ghost(pair_items(self.A_vecs@)));
        buf
    }

    /// Deserializes the argument from a byte slice.
    pub fn from_bytes(slice: &[u8]) -> (r: Result<prove_ecp<Projective>, ProofError>)
        ensures
            r is Ok <==> ecp_parses(slice@),
            r matches Err(e) ==> e == ProofError::FormatError,
            r matches Ok(p) ==> ecp_is(p, slice@) && ecp_regular(p),
    {
        let (k, d, m) = match get_header(slice) {
            Some(h) => h,
            None => {
                return Err(ProofError::FormatError);
            },
        };
        let w: usize = 2 * k - 2;
        let ghost b = slice@;
        let ghost n = 2 * (d * w);
        proof {
            assert(0 <= d * w) by (nonlinear_arith);
            if ecp_parses(b) {
                lemma_items_prefix(b, 24, n as nat, (n + m) as nat, 4);
            }
        }
        let (A_vecs, pos) = match get_pairs(slice, d, w) {
            Some(t) => t,
            None => {
                return Err(ProofError::FormatError);
            },
        };
        let (z, _pos) = match get_scalars(slice, pos, m, Ghost(n)) {
            Some(t) => t,
            None => {
                return Err(ProofError::FormatError);
            },
        };
        let p: prove_ecp<Projective> = prove_ecp { k, A_vecs, z };
        proof {
            let all = body_items(b, n + m);
            lemma_items_prefix(b, 24, n as nat, (n + m) as nat, 4);
            lemma_items_short(b, (n + m) as nat);
            assert forall|r: int, x: int| 0 <= r < d && 0 <= x < w implies (#[trigger] p.A_vecs@[r]@[x])@[0]@
                == all[2 * (r * w + x)] && p.A_vecs@[r]@[x]@[1]@ == all[2 * (r * w + x) + 1] by {
                lemma_block_index(r, x, d as int, w as int);
                assert(p.A_vecs@[r]@[x]@[0]@ == body_items(b, n)[2 * (r * w + x)]);
            }
            assert forall|r: int, x: int| 0 <= r < p.A_vecs@.len() && 0 <= x < p.A_vecs@[r]@.len() implies (
            #[trigger] p.A_vecs@[r]@[x])@[0]@.len() <= u32::MAX && p.A_vecs@[r]@[x]@[1]@.len() <= u32::MAX by {
                assert(p.A_vecs@[r]@.len() == w);
                lemma_block_index(r, x, d as int, w as int);
                assert(p.A_vecs@[r]@[x]@[0]@ == all[2 * (r * w + x)]);
                assert(p.A_vecs@[r]@[x]@[1]@ == all[2 * (r * w + x) + 1]);
            }
        }
        Ok(p)
    }
}

/// Whoever reads what was written for an argument for two sets of bases gets
/// the argument back.
pub proof fn law_ecp_round_trip(p: prove_ecp<Projective>, q: prove_ecp<Projective>)
    requires
        ecp_regular(p),
    ensures
        ecp_parses(ecp_bytes(p)),
        ecp_is(p, ecp_bytes(p)),
        ecp_is(q, ecp_bytes(p)) ==> same_ecp(q, p),
        (items_at(ecp_bytes(p), 24, ecp_count(ecp_bytes(p)) as nat, 4)->0).1 == ecp_bytes(p).len(),
{
    let items = ecp_items(p);
    let b = ecp_bytes(p);
    let (k, d, m) = (p.k as int, p.A_vecs@.len() as int, p.z@.len() as int);
    let w = terms_per_round(k);
    let rows = Seq::new(p.A_vecs@.len(), |r: int| pair_row_items(p.A_vecs@[r]@));
    assert(p.A_vecs.len() == d && p.z.len() == m);
    lemma_row_entries_len(rows, 2 * w);
    assert(d * (2 * w) == 2 * (d * w)) by (nonlinear_arith);
    assert forall|r: int, x: int| 0 <= r < rows.len() && 0 <= x < rows[r].len() implies (
    #[trigger] rows[r][x]).len() <= u32::MAX by {
        assert(p.A_vecs@[r]@[x / 2]@[0]@.len() <= u32::MAX);
        assert(x % 2 == 0 || x % 2 == 1);
    }
    lemma_entries_short(rows);
    assert(0 <= d * w) by (nonlinear_arith)
        requires
            d >= 0,
            w >= 0,
    ;
    let n = 2 * (d * w);
    assert(all_short(items)) by {
        assert forall|i: int| 0 <= i < items.len() implies (#[trigger] items[i]).len() <= u32::MAX by {
            if i < n {
                assert(items[i] == row_entries(rows)[i]);
            } else {
                lemma_scalar_item(p.z@[i - n]);
            }
        }
    }
    lemma_body_read(k, d, m, items);
    assert(items.len() == ecp_count(b));
    assert forall|i: int| n <= i < items.len() implies #[trigger] is_scalar(items[i]) by {
        lemma_scalar_item(p.z@[i - n]);
    }
    assert forall|r: int, x: int| 0 <= r < d && 0 <= x < w implies (#[trigger] p.A_vecs@[r]@[x])@[0]@ == items[2
        * (r * w + x)] && p.A_vecs@[r]@[x]@[1]@ == items[2 * (r * w + x) + 1] by {
        lemma_row_entry(rows, 2 * w, r, 2 * x);
        lemma_row_entry(rows, 2 * w, r, 2 * x + 1);
        assert(r * (2 * w) == 2 * (r * w)) by (nonlinear_arith);
        assert(rows[r][2 * x] == p.A_vecs@[r]@[x]@[0]@);
        assert(rows[r][2 * x + 1] == p.A_vecs@[r]@[x]@[1]@);
    }
    assert forall|i: int| 0 <= i < m implies (#[trigger] p.z@[i]).value() == le_value(items[n + i].take(32)) by {
        lemma_scalar_item(p.z@[i]);
    }
    if ecp_is(q, b) {
        assert forall|r: int| 0 <= r < d implies q.points(0)[r] == p.points(0)[r] && q.points(1)[r] == p.points(
            1,
        )[r] by {
            assert(q.A_vecs@[r]@.len() == w && p.A_vecs@[r]@.len() == w);
            assert forall|x: int| 0 <= x < w implies q.points(0)[r][x] == p.points(0)[r][x] && q.points(
                1,
            )[r][x] == p.points(1)[r][x] by {
                assert(q.A_vecs@[r]@[x]@[0]@ == items[2 * (r * w + x)]);
                assert(p.A_vecs@[r]@[x]@[0]@ == items[2 * (r * w + x)]);
            }
            assert(q.points(0)[r] =~= p.points(0)[r]);
            assert(q.points(1)[r] =~= p.points(1)[r]);
        }
        assert(q.points(0) =~= p.points(0));
        assert(q.points(1) =~= p.points(1));
        assert(values(q.z@) =~= values(p.z@)) by {
            assert forall|i: int| 0 <= i < m implies q.z@[i].value() == p.z@[i].value() by {}
        }
    }
}

/// Whoever reads only a part of what was written for an argument for two sets
/// of bases from its start gets an error.
pub proof fn law_ecp_prefix(p: prove_ecp<Projective>, j: int)
    requires
        ecp_regular(p),
        0 <= j < ecp_bytes(p).len(),
    ensures
        !ecp_parses(ecp_bytes(p).take(j)),
{
    let b = ecp_bytes(p);
    law_ecp_round_trip(p, p);
    if j >= 24 && ecp_parses(b.take(j)) {
        lemma_header_of_prefix(b, j);
        lemma_items_of_prefix(b, j, ecp_count(b) as nat);
    }
}

} // verus!
