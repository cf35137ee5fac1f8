//! The folding arguments as bytes: everything takes 32 bytes.

use vstd::prelude::*;
use crate::bytes::{
    le_bytes, le_value, lemma_le_bytes_len, lemma_le_value_of_bytes, lemma_pow_small, read_le, write_u64,
};
use crate::ecp::prove_ecp;
use crate::errors::ProofError;
use crate::folding::lemma_block_index;
use crate::group::{Field, Group, values};
use crate::ipa::prove_ipa;
use crate::ristretto::point::{CompressedRistretto, RistrettoPoint};
use crate::ristretto::scalar::{Scalar, lemma_order, order};
use crate::wire::{
    joined, lemma_joined_words, lemma_row_entries_len, lemma_row_entries_push, lemma_row_entry,
    lemma_wide_number, put, row_entries,
};

verus! {

// ---------------------------------------------------------------------------
// Writing
// ---------------------------------------------------------------------------

/// The encodings of some scalars.
pub open spec fn scalar_parts(s: Seq<Scalar>) -> Seq<Seq<u8>> {
    Seq::new(s.len(), |i: int| le_bytes(s[i].value(), 32))
}

/// The bytes of a row of points.
pub open spec fn row_bytes(row: Seq<CompressedRistretto>) -> Seq<Seq<u8>> {
    Seq::new(row.len(), |x: int| row[x].0@)
}

/// The bytes of the rows of points, one row after the other.
pub open spec fn point_parts(rows: Seq<Vec<CompressedRistretto>>) -> Seq<Seq<u8>> {
    row_entries(Seq::new(rows.len(), |r: int| row_bytes(rows[r]@)))
}

/// The bytes of a row of pairs, the two points of a pair one after the other.
pub open spec fn pair_bytes(row: Seq<[CompressedRistretto; 2]>) -> Seq<Seq<u8>> {
    Seq::new(2 * row.len(), |y: int| row[y / 2]@[y % 2].0@)
}

/// The bytes of the rows of pairs, one row after the other.
pub open spec fn pair_parts(rows: Seq<Vec<[CompressedRistretto; 2]>>) -> Seq<Seq<u8>> {
    row_entries(Seq::new(rows.len(), |r: int| pair_bytes(rows[r]@)))
}

/// Three numbers.
pub open spec fn header_parts(k: int, d: int, m: int) -> Seq<Seq<u8>> {
    seq![le_bytes(k, 32), le_bytes(d, 32), le_bytes(m, 32)]
}

/// The parts of an inner product argument.
pub open spec fn ipa_parts(p: prove_ipa<RistrettoPoint>) -> Seq<Seq<u8>> {
    header_parts(p.k as int, p.U_vecs@.len() as int, p.a_final@.len() as int) + point_parts(p.U_vecs@)
        + scalar_parts(p.a_final@) + scalar_parts(p.b_final@)
}

/// The parts of an argument for two sets of bases.
pub open spec fn ecp_parts(p: prove_ecp<RistrettoPoint>) -> Seq<Seq<u8>> {
    header_parts(p.k as int, p.A_vecs@.len() as int, p.z@.len() as int) + pair_parts(p.A_vecs@)
        + scalar_parts(p.z@)
}

/// Appends a number.
fn put_number(buf: &mut Vec<u8>, n: usize, Ghost(parts): Ghost<Seq<Seq<u8>>>)
    requires
        old(buf)@ == joined(parts),
    ensures
        final(buf)@ == joined(parts.push(le_bytes(n as int, 32))),
{
    let low = write_u64(n as u64);
    let mut temp: [u8; 32] = [0u8; 32];
    let mut i: usize = 0;
    proof {
        lemma_le_bytes_len(n as int, 8);
    }
    while i < 8
        invariant
            i <= 8,
            low@.len() == 8,
            forall|j: int| 0 <= j < i ==> temp@[j] == low@[j],
            forall|j: int| i <= j < 32 ==> temp@[j] == 0,
        decreases 8 - i,
    {
        temp[i] = low[i];
        i += 1;
    }
    proof {
        lemma_wide_number(n as int);
        assert(temp@ =~= le_bytes(n as int, 32));
    }
    put(buf, temp.as_slice(), Ghost(parts));
}

/// Appends three numbers.
fn put_header(buf: &mut Vec<u8>, k: usize, d: usize, m: usize)
    requires
        old(buf)@.len() == 0,
    ensures
        final(buf)@ == joined(header_parts(k as int, d as int, m as int)),
{
    let ghost p0 = Seq::<Seq<u8>>::empty();
    assert(buf@ =~= joined(p0));
    put_number(buf, k, Ghost(p0));
    let ghost p1 = p0.push(le_bytes(k as int, 32));
    put_number(buf, d, Ghost(p1));
    let ghost p2 = p1.push(le_bytes(d as int, 32));
    put_number(buf, m, Ghost(p2));
    assert(p2.push(le_bytes(m as int, 32)) =~= header_parts(k as int, d as int, m as int));
}

/// Appends scalars.
fn put_scalars(buf: &mut Vec<u8>, s: &Vec<Scalar>, Ghost(parts): Ghost<Seq<Seq<u8>>>)
    requires
        old(buf)@ == joined(parts),
    ensures
        final(buf)@ == joined(parts + scalar_parts(s@)),
{
    let mut i: usize = 0;
    assert(parts + scalar_parts(s@).take(0) =~= parts);
    while i < s.len()
        invariant
            i <= s@.len(),
            buf@ == joined(parts + scalar_parts(s@).take(i as int)),
        decreases s@.len() - i,
    {
        let bytes = s[i].as_bytes();
        put(buf, bytes.as_slice(), Ghost(parts + scalar_parts(s@).take(i as int)));
        assert((parts + scalar_parts(s@).take(i as int)).push(bytes@) =~= parts + scalar_parts(s@).take(
            i + 1,
        ));
        i += 1;
    }
    assert(scalar_parts(s@).take(i as int) =~= scalar_parts(s@));
}

/// Appends rows of points.
fn put_points(buf: &mut Vec<u8>, rows: &Vec<Vec<CompressedRistretto>>, Ghost(parts): Ghost<Seq<Seq<u8>>>)
    requires
        old(buf)@ == joined(parts),
    ensures
        final(buf)@ == joined(parts + point_parts(rows@)),
{
    let ghost all = Seq::new(rows@.len(), |r: int| row_bytes(rows@[r]@));
    let mut r: usize = 0;
    assert(parts + row_entries(all.take(0)) =~= parts);
    while r < rows.len()
        invariant
            r <= rows@.len(),
            all == Seq::new(rows@.len(), |r: int| row_bytes(rows@[r]@)),
            buf@ == joined(parts + row_entries(all.take(r as int))),
        decreases rows@.len() - r,
    {
        let ghost before = parts + row_entries(all.take(r as int));
        let ghost row = row_bytes(rows@[r as int]@);
        let mut x: usize = 0;
        assert(before + row.take(0) =~= before);
        while x < rows[r].len()
            invariant
                r < rows@.len(),
                row == row_bytes(rows@[r as int]@),
                x <= rows@[r as int]@.len(),
                buf@ == joined(before + row.take(x as int)),
            decreases rows@[r as int]@.len() - x,
        {
            let bytes = rows[r][x].as_bytes();
            put(buf, bytes.as_slice(), Ghost(before + row.take(x as int)));
            assert((before + row.take(x as int)).push(bytes@) =~= before + row.take(x + 1));
            x += 1;
        }
        proof {
            assert(row.take(x as int) =~= row);
            assert(all.take(r + 1) =~= all.take(r as int).push(row));
            lemma_row_entries_push(all.take(r as int), row);
            assert(before + row =~= parts + row_entries(all.take(r + 1)));
        }
        r += 1;
    }
    assert(all.take(r as int) =~= all);
}

/// Appends rows of pairs.
fn put_pairs(buf: &mut Vec<u8>, rows: &Vec<Vec<[CompressedRistretto; 2]>>, Ghost(parts): Ghost<Seq<Seq<u8>>>)
    requires
        old(buf)@ == joined(parts),
    ensures
        final(buf)@ == joined(parts + pair_parts(rows@)),
{
    let ghost all = Seq::new(rows@.len(), |r: int| pair_bytes(rows@[r]@));
    let mut r: usize = 0;
    assert(parts + row_entries(all.take(0)) =~= parts);
    while r < rows.len()
        invariant
            r <= rows@.len(),
            all == Seq::new(rows@.len(), |r: int| pair_bytes(rows@[r]@)),
            buf@ == joined(parts + row_entries(all.take(r as int))),
        decreases rows@.len() - r,
    {
        let ghost before = parts + row_entries(all.take(r as int));
        let ghost row = pair_bytes(rows@[r as int]@);
        let mut x: usize = 0;
        assert(before + row.take(0) =~= before);
        while x < rows[r].len()
            invariant
                r < rows@.len(),
                row == pair_bytes(rows@[r as int]@),
                x <= rows@[r as int]@.len(),
                buf@ == joined(before + row.take(2 * x as int)),
            decreases rows@[r as int]@.len() - x,
        {
            let pair = &rows[r][x];
            let bytes0 = pair[0].as_bytes();
            put(buf, bytes0.as_slice(), Ghost(before + row.take(2 * x as int)));
            assert((before + row.take(2 * x as int)).push(bytes0@) =~= before + row.take(2 * x + 1));
            let bytes1 = pair[1].as_bytes();
            put(buf, bytes1.as_slice(), Ghost(before + row.take(2 * x + 1)));
            assert((before + row.take(2 * x + 1)).push(bytes1@) =~= before + row.take(2 * x + 2));
            x += 1;
        }
        proof {
            assert(row.take(2 * x as int) =~= row);
            assert(all.take(r + 1) =~= all.take(r as int).push(row));
            lemma_row_entries_push(all.take(r as int), row);
            assert(before + row =~= parts + row_entries(all.take(r + 1)));
        }
        r += 1;
    }
    assert(all.take(r as int) =~= all);
}

// ---------------------------------------------------------------------------
// Reading
// ---------------------------------------------------------------------------

/// The `i`-th 32 bytes.
pub open spec fn word(b: Seq<u8>, i: int) -> Seq<u8> {
    b.subrange(32 * i, 32 * i + 32)
}

/// The number in the first eight of the `i`-th 32 bytes.
pub open spec fn number(b: Seq<u8>, i: int) -> int {
    le_value(b.subrange(32 * i, 32 * i + 8))
}

/// There are three numbers, and a row of the width that the first of them
/// determines can be counted.
pub open spec fn header_parses(b: Seq<u8>) -> bool {
    &&& b.len() >= 96
    &&& 1 <= number(b, 0)
    &&& 2 * number(b, 0) <= usize::MAX
    &&& number(b, 1) <= usize::MAX
    &&& number(b, 2) <= usize::MAX
}

/// From the 32 bytes with number `from` on there are `m` scalars.
pub open spec fn scalars_parse(b: Seq<u8>, from: int, m: int) -> bool {
    &&& 32 * (from + m) <= b.len()
    &&& forall|i: int| 0 <= i < m ==> le_value(#[trigger] word(b, from + i)) < order()
}

/// The scalars from the 32 bytes with number `from` on.
pub open spec fn are_scalars(s: Seq<Scalar>, b: Seq<u8>, from: int) -> bool {
    forall|i: int| 0 <= i < s.len() ==> (#[trigger] s[i]).value() == le_value(word(b, from + i))
}

/// The rows of `w` points from the 32 bytes with number `from` on.
pub open spec fn are_points(rows: Seq<Vec<CompressedRistretto>>, b: Seq<u8>, from: int, w: int) -> bool {
    &&& forall|r: int| 0 <= r < rows.len() ==> (#[trigger] rows[r])@.len() == w
    &&& forall|r: int, x: int|
        0 <= r < rows.len() && 0 <= x < w ==> (#[trigger] rows[r]@[x]).0@ == word(b, from + (r * w + x))
}

/// The rows of `w` pairs from the 32 bytes with number `from` on.
pub open spec fn are_pairs(
    rows: Seq<Vec<[CompressedRistretto; 2]>>,
    b: Seq<u8>,
    from: int,
    w: int,
) -> bool {
    &&& forall|r: int| 0 <= r < rows.len() ==> (#[trigger] rows[r])@.len() == w
    &&& forall|r: int, x: int|
        0 <= r < rows.len() && 0 <= x < w ==> (#[trigger] rows[r]@[x])@[0].0@ == word(
            b,
            from + 2 * (r * w + x),
        ) && rows[r]@[x]@[1].0@ == word(b, from + 2 * (r * w + x) + 1)
}

/// Reads a number.
fn get_number(slice: &[u8], i: usize) -> (r: u64)
    requires
        32 * i + 32 <= slice@.len(),
    ensures
        r == number(slice@, i as int),
{
    assert(slice@.len() == slice.len());
    read_le(slice, 32 * i, 8)
}

/// Reads 32 bytes.
pub(crate) fn get_word(slice: &[u8], i: usize) -> (r: [u8; 32])
    requires
        32 * i + 32 <= slice@.len(),
    ensures
        r@ == word(slice@, i as int),
{
    let n: usize = slice.len();
    let mut out: [u8; 32] = [0u8; 32];
    let mut j: usize = 0;
    while j < 32
        invariant
            j <= 32,
            32 * i + 32 <= n == slice@.len(),
            forall|t: int| 0 <= t < j ==> out@[t] == slice@[32 * i + t],
        decreases 32 - j,
    {
        out[j] = slice[32 * i + j];
        j += 1;
    }
    assert(out@ =~= word(slice@, i as int));
    out
}

/// Reads the three numbers.
fn get_header(slice: &[u8]) -> (r: Option<(usize, usize, usize)>)
    ensures
        r is Some <==> header_parses(slice@),
        r matches Some(h) ==> h.0 == number(slice@, 0) && h.1 == number(slice@, 1) && h.2 == number(
            slice@,
            2,
        ),
{
    if slice.len() < 96 {
        return None;
    }
    let k: u64 = get_number(slice, 0);
    let d: u64 = get_number(slice, 1);
    let m: u64 = get_number(slice, 2);
    let max: u64 = usize::MAX as u64;
    if k < 1 || k > max / 2 || d > max || m > max {
        return None;
    }
    Some((k as usize, d as usize, m as usize))
}

/// Reads scalars.
fn get_scalars(slice: &[u8], from: usize, m: usize) -> (r: Option<Vec<Scalar>>)
    requires
        32 * from <= slice@.len(),
    ensures
        r is Some <==> scalars_parse(slice@, from as int, m as int),
        r matches Some(s) ==> s@.len() == m && are_scalars(s@, slice@, from as int),
{
    let n: usize = slice.len();
    let mut out: Vec<Scalar> = Vec::new();
    let mut i: usize = 0;
    while i < m
        invariant
            i <= m,
            n == slice@.len(),
            32 * (from + i) <= n,
            out@.len() == i,
            are_scalars(out@, slice@, from as int),
            forall|t: int| 0 <= t < i ==> le_value(#[trigger] word(slice@, from + t)) < order(),
        decreases m - i,
    {
        let at: usize = from + i;
        if at >= n / 32 {
            return None;
        }
        match Scalar::from_canonical_bytes(get_word(slice, at)) {
            Some(s) => {
                out.push(s);
            },
            None => {
                assert(le_value(word(slice@, from + i)) >= order());
                return None;
            },
        }
        i += 1;
    }
    Some(out)
}

/// A row that is cut off is cut off in the whole.
proof fn lemma_cut(from: int, d: int, w: int, r: int, x: int, words: int)
    requires
        0 <= r < d,
        0 <= x < w,
        from + (r * w + x) >= words,
    ensures
        from + d * w > words,
{
    lemma_block_index(r, x, d, w);
}

/// Reads rows of points.
fn get_points(slice: &[u8], from: usize, d: usize, w: usize) -> (r: Option<(Vec<Vec<CompressedRistretto>>, usize)>)
    requires
        32 * from <= slice@.len(),
    ensures
        r is Some <==> 32 * (from + d * w) <= slice@.len(),
        r matches Some(t) ==> {
            &&& t.0@.len() == d
            &&& are_points(t.0@, slice@, from as int, w as int)
            &&& t.1 == from + d * w
        },
{
    let n: usize = slice.len();
    let mut out: Vec<Vec<CompressedRistretto>> = Vec::new();
    let mut at: usize = from;
    let mut r: usize = 0;
    while r < d
        invariant
            r <= d,
            n == slice@.len(),
            at == from + r * w,
            32 * at <= n,
            out@.len() == r,
            are_points(out@, slice@, from as int, w as int),
        decreases d - r,
    {
        let mut row: Vec<CompressedRistretto> = Vec::new();
        let mut x: usize = 0;
        while x < w
            invariant
                r < d,
                x <= w,
                n == slice@.len(),
                at == from + (r * w + x),
                32 * at <= n,
                row@.len() == x,
                forall|t: int| 0 <= t < x ==> (#[trigger] row@[t]).0@ == word(slice@, from + (r * w + t)),
            decreases w - x,
        {
            if at >= n / 32 {
                proof {
                    lemma_cut(from as int, d as int, w as int, r as int, x as int, n as int / 32);
                }
                return None;
            }
            row.push(CompressedRistretto(get_word(slice, at)));
            at += 1;
            x += 1;
        }
        let ghost before = out@;
        out.push(row);
        proof {
            assert((r + 1) * w == r * w + w) by (nonlinear_arith);
            assert(forall|t: int| 0 <= t < r ==> out@[t] == before[t]);
        }
        r += 1;
    }
    Some((out, at))
}

/// Reads rows of pairs.
fn get_pairs(slice: &[u8], from: usize, d: usize, w: usize) -> (r: Option<
    (Vec<Vec<[CompressedRistretto; 2]>>, usize),
>)
    requires
        32 * from <= slice@.len(),
    ensures
        r is Some <==> 32 * (from + 2 * (d * w)) <= slice@.len(),
        r matches Some(t) ==> {
            &&& t.0@.len() == d
            &&& are_pairs(t.0@, slice@, from as int, w as int)
            &&& t.1 == from + 2 * (d * w)
        },
{
    let n: usize = slice.len();
    let mut out: Vec<Vec<[CompressedRistretto; 2]>> = Vec::new();
    let mut at: usize = from;
    let mut r: usize = 0;
    while r < d
        invariant
            r <= d,
            n == slice@.len(),
            at == from + 2 * (r * w),
            32 * at <= n,
            out@.len() == r,
            are_pairs(out@, slice@, from as int, w as int),
        decreases d - r,
    {
        let mut row: Vec<[CompressedRistretto; 2]> = Vec::new();
        let mut x: usize = 0;
        while x < w
            invariant
                r < d,
                x <= w,
                n == slice@.len(),
                at == from + 2 * (r * w + x),
                32 * at <= n,
                row@.len() == x,
                forall|t: int|
                    0 <= t < x ==> (#[trigger] row@[t])@[0].0@ == word(slice@, from + 2 * (r * w + t))
                        && row@[t]@[1].0@ == word(slice@, from + 2 * (r * w + t) + 1),
            decreases w - x,
        {
            if n / 32 - at < 2 {
                proof {
                    lemma_block_index(r as int, x as int, d as int, w as int);
                }
                return None;
            }
            let p0 = CompressedRistretto(get_word(slice, at));
            let p1 = CompressedRistretto(get_word(slice, at + 1));
            row.push([p0, p1]);
            at += 2;
            x += 1;
        }
        let ghost before = out@;
        out.push(row);
        proof {
            assert((r + 1) * w == r * w + w) by (nonlinear_arith);
            assert(forall|t: int| 0 <= t < r ==> out@[t] == before[t]);
        }
        r += 1;
    }
    Some((out, at))
}

// ---------------------------------------------------------------------------
// The inner product argument
// ---------------------------------------------------------------------------

/// The number of cross terms in a round of folding by `k`.
pub open spec fn terms_per_round(k: int) -> int {
    2 * k - 2
}

/// Some bytes are an inner product argument.
pub open spec fn ipa_parses(b: Seq<u8>) -> bool {
    let m = number(b, 2);
    let from = 3 + number(b, 1) * terms_per_round(number(b, 0));
    &&& header_parses(b)
    &&& scalars_parse(b, from, m)
    &&& scalars_parse(b, from + m, m)
}

/// The inner product argument that some bytes are. Bytes that follow it do not
/// count.
pub open spec fn ipa_is(p: prove_ipa<RistrettoPoint>, b: Seq<u8>) -> bool {
    let w = terms_per_round(number(b, 0));
    let from = 3 + number(b, 1) * w;
    &&& p.k == number(b, 0)
    &&& p.U_vecs@.len() == number(b, 1)
    &&& p.a_final@.len() == number(b, 2)
    &&& p.b_final@.len() == number(b, 2)
    &&& are_points(p.U_vecs@, b, 3, w)
    &&& are_scalars(p.a_final@, b, from)
    &&& are_scalars(p.b_final@, b, from + number(b, 2))
}

/// Every round has the number of cross terms that `k` determines, and the two
/// final vectors have one length.
pub open spec fn ipa_regular(p: prove_ipa<RistrettoPoint>) -> bool {
    &&& 1 <= p.k
    &&& 2 * p.k <= usize::MAX
    &&& p.a_final@.len() == p.b_final@.len()
    &&& forall|r: int| 0 <= r < p.U_vecs@.len() ==> (#[trigger] p.U_vecs@[r])@.len() == terms_per_round(p.k as int)
}

/// Two inner product arguments hold the same.
pub open spec fn same_ipa(p: prove_ipa<RistrettoPoint>, q: prove_ipa<RistrettoPoint>) -> bool {
    &&& p.k == q.k
    &&& p.points() == q.points()
    &&& values(p.a_final@) == values(q.a_final@)
    &&& values(p.b_final@) == values(q.b_final@)
}

impl prove_ipa<RistrettoPoint> {
    /// The number of bytes that the argument is serialized to.
    pub fn serialized_size(&self) -> (r: usize)
        requires
            self.U_vecs@.len() > 0 ==> self.k >= 1,
            2 * self.k <= usize::MAX,
            (3 + self.U_vecs@.len() * (2 * self.k - 2) + 2 * self.a_final@.len()) * 32 <= usize::MAX,
        ensures
            self.U_vecs@.len() > 0 ==> r == (3 + self.U_vecs@.len() * terms_per_round(self.k as int) + 2
                * self.a_final@.len()) * 32,
            self.U_vecs@.len() == 0 ==> r == (3 + 2 * self.a_final@.len()) * 32,
    {
        let d: usize = self.U_vecs.len();
        let m: usize = self.a_final.len();
        proof {
            if d == 0 {
                let w = 2 * self.k - 2;
                assert(0 * w == 0);
            } else {
                let w = 2 * self.k - 2;
                assert(0 <= d * w) by (nonlinear_arith)
                    requires
                        d >= 0,
                        w >= 0,
                ;
            }
        }
        let num_points: usize = if d > 0 {
            d * (2 * self.k - 2)
        } else {
            0
        };
        (3 + num_points + 2 * m) * 32
    }

    /// Serializes the argument into a byte array: the folding factor, the
    /// number of rounds, the length of the final vectors, the cross terms and
    /// the final vectors.
    pub fn to_bytes(&self) -> (r: Vec<u8>)
        ensures
            r@ == joined(ipa_parts(*self)),
    {
        let mut buf: Vec<u8> = Vec::new();
        put_header(&mut buf, self.k, self.U_vecs.len(), self.a_final.len());
        let ghost p0 = header_parts(self.k as int, self.U_vecs@.len() as int, self.a_final@.len() as int);
        put_points(&mut buf, &self.U_vecs, Ghost(p0));
        let ghost p1 = p0 + point_parts(self.U_vecs@);
        put_scalars(&mut buf, &self.a_final, Ghost(p1));
        put_scalars(&mut buf, &self.b_final, Ghost(p1 + scalar_parts(self.a_final@)));
        buf
    }

    /// Deserializes the argument from a byte slice.
    pub fn from_bytes(slice: &[u8]) -> (r: Result<prove_ipa<RistrettoPoint>, ProofError>)
        ensures
            r is Ok <==> ipa_parses(slice@),
            r matches Err(e) ==> e == ProofError::FormatError,
            r matches Ok(p) ==> ipa_is(p, slice@) && ipa_regular(p),
    {
        assert(slice@.len() == slice.len());
        let (k, d, m) = match get_header(slice) {
            Some(h) => h,
            None => {
                return Err(ProofError::FormatError);
            },
        };
        let (U_vecs, from) = match get_points(slice, 3, d, 2 * k - 2) {
            Some(t) => t,
            None => {
                return Err(ProofError::FormatError);
            },
        };
        let a_final = match get_scalars(slice, from, m) {
            Some(s) => s,
            None => {
                return Err(ProofError::FormatError);
            },
        };
        let b_final = match get_scalars(slice, from + m, m) {
            Some(s) => s,
            None => {
                return Err(ProofError::FormatError);
            },
        };
        Ok(prove_ipa { k, U_vecs, a_final, b_final })
    }
}

/// The scalars written to some 32 bytes can be read from them.
proof fn lemma_scalars_read(parts: Seq<Seq<u8>>, b: Seq<u8>, s: Seq<Scalar>, from: int)
    requires
        0 <= from,
        from + s.len() <= parts.len(),
        b == joined(parts),
        forall|i: int| 0 <= i < parts.len() ==> (#[trigger] parts[i]).len() == 32,
        forall|i: int| 0 <= i < s.len() ==> parts[from + i] == le_bytes((#[trigger] s[i]).value(), 32),
    ensures
        scalars_parse(b, from, s.len() as int),
        are_scalars(s, b, from),
{
    lemma_joined_words(parts, 32);
    assert forall|i: int| 0 <= i < s.len() implies le_value(#[trigger] word(b, from + i)) == s[i].value()
        && s[i].value() < order() by {
        assert(word(b, from + i) == parts[from + i]);
        assert(parts[from + i] == le_bytes(s[i].value(), 32));
        s[i].value_range();
        lemma_order();
        lemma_le_value_of_bytes(s[i].value(), 32);
    }
    assert forall|i: int| 0 <= i < s.len() implies (#[trigger] s[i]).value() == le_value(word(b, from + i)) by {
        assert(le_value(word(b, from + i)) == s[i].value());
    }
}

/// The numbers written to the first 32 bytes can be read from them.
proof fn lemma_header_read(parts: Seq<Seq<u8>>, b: Seq<u8>, k: int, d: int, m: int)
    requires
        0 <= k <= u64::MAX,
        0 <= d <= u64::MAX,
        0 <= m <= u64::MAX,
        b == joined(parts),
        forall|i: int| 0 <= i < parts.len() ==> (#[trigger] parts[i]).len() == 32,
        parts.len() >= 3,
        parts[0] == le_bytes(k, 32),
        parts[1] == le_bytes(d, 32),
        parts[2] == le_bytes(m, 32),
    ensures
        b.len() >= 96,
        number(b, 0) == k,
        number(b, 1) == d,
        number(b, 2) == m,
{
    lemma_joined_words(parts, 32);
    lemma_number_read(b, 0, k);
    lemma_number_read(b, 1, d);
    lemma_number_read(b, 2, m);
}

proof fn lemma_number_read(b: Seq<u8>, i: int, n: int)
    requires
        0 <= n <= u64::MAX,
        0 <= i,
        32 * i + 32 <= b.len(),
        word(b, i) == le_bytes(n, 32),
    ensures
        number(b, i) == n,
{
    lemma_wide_number(n);
    lemma_le_bytes_len(n, 8);
    assert(b.subrange(32 * i, 32 * i + 8) =~= word(b, i).take(8));
    assert(word(b, i).take(8) =~= le_bytes(n, 8));
    lemma_pow_small();
    lemma_le_value_of_bytes(n, 8);
}

/// The parts of scalars take 32 bytes each.
proof fn lemma_scalar_parts(s: Seq<Scalar>)
    ensures
        scalar_parts(s).len() == s.len(),
        forall|i: int| 0 <= i < s.len() ==> (#[trigger] scalar_parts(s)[i]).len() == 32,
{
    assert forall|i: int| 0 <= i < s.len() implies (#[trigger] scalar_parts(s)[i]).len() == 32 by {
        lemma_le_bytes_len(s[i].value(), 32);
    }
}

/// The entries of rows of parts of 32 bytes.
proof fn lemma_entries_32(rows: Seq<Seq<Seq<u8>>>)
    requires
        forall|r: int, x: int|
            0 <= r < rows.len() && 0 <= x < rows[r].len() ==> (#[trigger] rows[r][x]).len() == 32,
    ensures
        forall|i: int| 0 <= i < row_entries(rows).len() ==> (#[trigger] row_entries(rows)[i]).len() == 32,
    decreases rows.len(),
{
    if rows.len() > 0 {
        let p = rows.drop_last();
        assert forall|r: int, x: int| 0 <= r < p.len() && 0 <= x < p[r].len() implies (#[trigger] p[r][x]).len()
            == 32 by {
            assert(rows[r][x].len() == 32);
        }
        lemma_entries_32(p);
        assert forall|i: int| 0 <= i < row_entries(rows).len() implies (#[trigger] row_entries(rows)[i]).len()
            == 32 by {
            let n = row_entries(p).len() as int;
            if i < n {
                assert(row_entries(p)[i].len() == 32);
            } else {
                assert(rows[rows.len() - 1][i - n].len() == 32);
            }
        }
    }
}

/// All parts of an inner product argument take 32 bytes.
pub proof fn lemma_ipa_parts(p: prove_ipa<RistrettoPoint>)
    ensures
        forall|i: int| 0 <= i < ipa_parts(p).len() ==> (#[trigger] ipa_parts(p)[i]).len() == 32,
        ipa_parts(p).len() == 3 + point_parts(p.U_vecs@).len() + p.a_final@.len() + p.b_final@.len(),
{
    lemma_le_bytes_len(p.k as int, 32);
    lemma_le_bytes_len(p.U_vecs@.len() as int, 32);
    lemma_le_bytes_len(p.a_final@.len() as int, 32);
    lemma_scalar_parts(p.a_final@);
    lemma_scalar_parts(p.b_final@);
    lemma_entries_32(Seq::new(p.U_vecs@.len(), |r: int| row_bytes(p.U_vecs@[r]@)));
}

/// The size that is announced for an argument is the number of bytes it is
/// serialized to.
pub proof fn law_ipa_size(p: prove_ipa<RistrettoPoint>)
    requires
        ipa_regular(p),
    ensures
        joined(ipa_parts(p)).len() == (3 + p.U_vecs@.len() * terms_per_round(p.k as int) + 2
            * p.a_final@.len()) * 32,
{
    lemma_ipa_parts(p);
    lemma_joined_words(ipa_parts(p), 32);
    let rows = Seq::new(p.U_vecs@.len(), |r: int| row_bytes(p.U_vecs@[r]@));
    lemma_row_entries_len(rows, terms_per_round(p.k as int));
}

/// Whoever reads what was written for an inner product argument gets the
/// argument back.
pub proof fn law_ipa_round_trip(p: prove_ipa<RistrettoPoint>, q: prove_ipa<RistrettoPoint>)
    requires
        ipa_regular(p),
    ensures
        ipa_parses(joined(ipa_parts(p))),
        ipa_is(p, joined(ipa_parts(p))),
        ipa_is(q, joined(ipa_parts(p))) ==> same_ipa(q, p),
{
    let parts = ipa_parts(p);
    let b = joined(parts);
    let (k, d, m) = (p.k as int, p.U_vecs@.len() as int, p.a_final@.len() as int);
    let w = terms_per_round(k);
    let rows = Seq::new(p.U_vecs@.len(), |r: int| row_bytes(p.U_vecs@[r]@));
    assert(p.U_vecs.len() == d && p.a_final.len() == m);
    lemma_ipa_parts(p);
    lemma_row_entries_len(rows, w);
    lemma_joined_words(parts, 32);
    lemma_header_read(parts, b, k, d, m);
    assert(0 <= d * w) by (nonlinear_arith)
        requires
            d >= 0,
            w >= 0,
    ;
    let from = 3 + d * w;
    lemma_scalars_read(parts, b, p.a_final@, from);
    lemma_scalars_read(parts, b, p.b_final@, from + m);
    assert forall|r: int, x: int| 0 <= r < d && 0 <= x < w implies (#[trigger] p.U_vecs@[r]@[x]).0@ == word(
        b,
        3 + (r * w + x),
    ) by {
        lemma_row_entry(rows, w, r, x);
        assert(rows[r][x] == p.U_vecs@[r]@[x].0@);
        assert(parts[3 + (r * w + x)] == row_entries(rows)[r * w + x]);
    }
    if ipa_is(q, b) {
        assert(q.points() =~= p.points()) by {
            assert forall|r: int| 0 <= r < d implies q.points()[r] == p.points()[r] by {
                assert(q.U_vecs@[r]@.len() == w && p.U_vecs@[r]@.len() == w);
                assert forall|x: int| 0 <= x < w implies q.points()[r][x] == p.points()[r][x] by {
                    assert(q.U_vecs@[r]@[x].0@ == word(b, 3 + (r * w + x)));
                    assert(p.U_vecs@[r]@[x].0@ == word(b, 3 + (r * w + x)));
                }
                assert(q.points()[r] =~= p.points()[r]);
            }
        }
        assert(values(q.a_final@) =~= values(p.a_final@)) by {
            assert forall|i: int| 0 <= i < m implies q.a_final@[i].value() == p.a_final@[i].value() by {}
        }
        assert(values(q.b_final@) =~= values(p.b_final@)) by {
            assert forall|i: int| 0 <= i < m implies q.b_final@[i].value() == p.b_final@[i].value() by {}
        }
    }
}

/// The numbers at the start are those of all bytes that start so.
proof fn lemma_header_of_prefix(b: Seq<u8>, j: int)
    requires
        96 <= j <= b.len(),
    ensures
        number(b.take(j), 0) == number(b, 0),
        number(b.take(j), 1) == number(b, 1),
        number(b.take(j), 2) == number(b, 2),
{
    assert(b.take(j).subrange(0, 8) =~= b.subrange(0, 8));
    assert(b.take(j).subrange(32, 40) =~= b.subrange(32, 40));
    assert(b.take(j).subrange(64, 72) =~= b.subrange(64, 72));
}

/// Whoever reads only a part of what was written for an inner product argument
/// from its start gets an error.
pub proof fn law_ipa_prefix(p: prove_ipa<RistrettoPoint>, j: int)
    requires
        ipa_regular(p),
        0 <= j < joined(ipa_parts(p)).len(),
    ensures
        !ipa_parses(joined(ipa_parts(p)).take(j)),
{
    let b = joined(ipa_parts(p));
    law_ipa_size(p);
    law_ipa_round_trip(p, p);
    if j >= 96 {
        lemma_header_of_prefix(b, j);
    }
}

// ---------------------------------------------------------------------------
// The argument for two sets of bases
// ---------------------------------------------------------------------------

/// Some bytes are an argument for two sets of bases.
pub open spec fn ecp_parses(b: Seq<u8>) -> bool {
    &&& header_parses(b)
    &&& scalars_parse(b, 3 + 2 * (number(b, 1) * terms_per_round(number(b, 0))), number(b, 2))
}

/// The argument for two sets of bases that some bytes are. Bytes that follow
/// it do not count.
pub open spec fn ecp_is(p: prove_ecp<RistrettoPoint>, b: Seq<u8>) -> bool {
    let w = terms_per_round(number(b, 0));
    &&& p.k == number(b, 0)
    &&& p.A_vecs@.len() == number(b, 1)
    &&& p.z@.len() == number(b, 2)
    &&& are_pairs(p.A_vecs@, b, 3, w)
    &&& are_scalars(p.z@, b, 3 + 2 * (number(b, 1) * w))
}

/// Every round has the number of pairs that `k` determines.
pub open spec fn ecp_regular(p: prove_ecp<RistrettoPoint>) -> bool {
    &&& 1 <= p.k
    &&& 2 * p.k <= usize::MAX
    &&& forall|r: int| 0 <= r < p.A_vecs@.len() ==> (#[trigger] p.A_vecs@[r])@.len() == terms_per_round(p.k as int)
}

/// Two arguments for two sets of bases hold the same.
pub open spec fn same_ecp(p: prove_ecp<RistrettoPoint>, q: prove_ecp<RistrettoPoint>) -> bool {
    &&& p.k == q.k
    &&& p.points(0) == q.points(0)
    &&& p.points(1) == q.points(1)
    &&& values(p.z@) == values(q.z@)
}

impl prove_ecp<RistrettoPoint> {
    /// The number of bytes that the argument is serialized to.
    pub fn serialized_size(&self) -> (r: usize)
        requires
            self.A_vecs@.len() > 0 ==> self.k >= 1,
            2 * self.k <= usize::MAX,
            (3 + self.A_vecs@.len() * (2 * self.k - 2) * 2 + self.z@.len()) * 32 <= usize::MAX,
        ensures
            self.A_vecs@.len() > 0 ==> r == (3 + self.A_vecs@.len() * terms_per_round(self.k as int) * 2
                + self.z@.len()) * 32,
            self.A_vecs@.len() == 0 ==> r == (3 + self.z@.len()) * 32,
    {
        let d: usize = self.A_vecs.len();
        proof {
            if d == 0 {
                let w = 2 * self.k - 2;
                assert(0 * w == 0);
            } else {
                let w = 2 * self.k - 2;
                assert(0 <= d * w) by (nonlinear_arith)
                    requires
                        d >= 0,
                        w >= 0,
                ;
            }
        }
        let mut num_points: usize = 0;
        if d > 0 {
            num_points = d * (2 * self.k - 2) * 2;
        }
        let m: usize = self.z.len();
        (3 + num_points + m) * 32
    }

    /// Serializes the argument into a byte array: the folding factor, the
    /// number of rounds, the length of the final vector, the pairs of cross
    /// terms and the final vector.
    pub fn to_bytes(&self) -> (r: Vec<u8>)
        ensures
            r@ == joined(ecp_parts(*self)),
    {
        let mut buf: Vec<u8> = Vec::new();
        put_header(&mut buf, self.k, self.A_vecs.len(), self.z.len());
        let ghost p0 = header_parts(self.k as int, self.A_vecs@.len() as int, self.z@.len() as int);
        put_pairs(&mut buf, &self.A_vecs, Ghost(p0));
        put_scalars(&mut buf, &self.z, Ghost(p0 + pair_parts(self.A_vecs@)));
        buf
    }

    /// Deserializes the argument from a byte slice.
    pub fn from_bytes(slice: &[u8]) -> (r: Result<prove_ecp<RistrettoPoint>, ProofError>)
        ensures
            r is Ok <==> ecp_parses(slice@),
            r matches Err(e) ==> e == ProofError::FormatError,
            r matches Ok(p) ==> ecp_is(p, slice@) && ecp_regular(p),
    {
        let (k, d, m) = match get_header(slice) {
            Some(h) => h,
            None => {
                return Err(ProofError::FormatError);
            },
        };
        let (A_vecs, from) = match get_pairs(slice, 3, d, 2 * k - 2) {
            Some(t) => t,
            None => {
                return Err(ProofError::FormatError);
            },
        };
        let z = match get_scalars(slice, from, m) {
            Some(s) => s,
            None => {
                return Err(ProofError::FormatError);
            },
        };
        Ok(prove_ecp { k, A_vecs, z })
    }
}

/// All parts of an argument for two sets of bases take 32 bytes.
pub proof fn lemma_ecp_parts(p: prove_ecp<RistrettoPoint>)
    ensures
        forall|i: int| 0 <= i < ecp_parts(p).len() ==> (#[trigger] ecp_parts(p)[i]).len() == 32,
        ecp_parts(p).len() == 3 + pair_parts(p.A_vecs@).len() + p.z@.len(),
{
    lemma_le_bytes_len(p.k as int, 32);
    lemma_le_bytes_len(p.A_vecs@.len() as int, 32);
    lemma_le_bytes_len(p.z@.len() as int, 32);
    lemma_scalar_parts(p.z@);
    lemma_entries_32(Seq::new(p.A_vecs@.len(), |r: int| pair_bytes(p.A_vecs@[r]@)));
}

/// The size that is announced for an argument is the number of bytes it is
/// serialized to.
pub proof fn law_ecp_size(p: prove_ecp<RistrettoPoint>)
    requires
        ecp_regular(p),
    ensures
        joined(ecp_parts(p)).len() == (3 + p.A_vecs@.len() * terms_per_round(p.k as int) * 2 + p.z@.len()) * 32,
{
    lemma_ecp_parts(p);
    lemma_joined_words(ecp_parts(p), 32);
    let rows = Seq::new(p.A_vecs@.len(), |r: int| pair_bytes(p.A_vecs@[r]@));
    let (d, w) = (p.A_vecs@.len() as int, terms_per_round(p.k as int));
    lemma_row_entries_len(rows, 2 * w);
    assert(d * (2 * w) == d * w * 2) by (nonlinear_arith);
}

/// Whoever reads what was written for an argument for two sets of bases gets
/// the argument back.
pub proof fn law_ecp_round_trip(p: prove_ecp<RistrettoPoint>, q: prove_ecp<RistrettoPoint>)
    requires
        ecp_regular(p),
    ensures
        ecp_parses(joined(ecp_parts(p))),
        ecp_is(p, joined(ecp_parts(p))),
        ecp_is(q, joined(ecp_parts(p))) ==> same_ecp(q, p),
{
    let parts = ecp_parts(p);
    let b = joined(parts);
    let (k, d, m) = (p.k as int, p.A_vecs@.len() as int, p.z@.len() as int);
    let w = terms_per_round(k);
    let rows = Seq::new(p.A_vecs@.len(), |r: int| pair_bytes(p.A_vecs@[r]@));
    assert(p.A_vecs.len() == d && p.z.len() == m);
    lemma_ecp_parts(p);
    lemma_row_entries_len(rows, 2 * w);
    assert(d * (2 * w) == 2 * (d * w)) by (nonlinear_arith);
    lemma_joined_words(parts, 32);
    lemma_header_read(parts, b, k, d, m);
    assert(0 <= d * w) by (nonlinear_arith)
        requires
            d >= 0,
            w >= 0,
    ;
    lemma_scalars_read(parts, b, p.z@, 3 + 2 * (d * w));
    assert forall|r: int, x: int| 0 <= r < d && 0 <= x < w implies (#[trigger] p.A_vecs@[r]@[x])@[0].0@ == word(
        b,
        3 + 2 * (r * w + x),
    ) && p.A_vecs@[r]@[x]@[1].0@ == word(b, 3 + 2 * (r * w + x) + 1) by {
        lemma_row_entry(rows, 2 * w, r, 2 * x);
        lemma_row_entry(rows, 2 * w, r, 2 * x + 1);
        assert(r * (2 * w) == 2 * (r * w)) by (nonlinear_arith);
        assert(rows[r][2 * x] == p.A_vecs@[r]@[x]@[0].0@);
        assert(rows[r][2 * x + 1] == p.A_vecs@[r]@[x]@[1].0@);
        assert(parts[3 + 2 * (r * w + x)] == row_entries(rows)[r * (2 * w) + 2 * x]);
        assert(parts[3 + 2 * (r * w + x) + 1] == row_entries(rows)[r * (2 * w) + (2 * x + 1)]);
    }
    if ecp_is(q, b) {
        assert forall|r: int| 0 <= r < d implies q.points(0)[r] == p.points(0)[r] && q.points(1)[r] == p.points(
            1,
        )[r] by {
            assert(q.A_vecs@[r]@.len() == w && p.A_vecs@[r]@.len() == w);
            assert forall|x: int| 0 <= x < w implies q.points(0)[r][x] == p.points(0)[r][x] && q.points(
                1,
            )[r][x] == p.points(1)[r][x] by {
                assert(q.A_vecs@[r]@[x]@[0].0@ == word(b, 3 + 2 * (r * w + x)));
                assert(p.A_vecs@[r]@[x]@[0].0@ == word(b, 3 + 2 * (r * w + x)));
            }
            assert(q.points(0)[r] =~= p.points(0)[r]);
            assert(q.points(1)[r] =~= p.points(1)[r]);
        }
        assert(q.points(0) =~= p.points(0));
        assert(q.points(1) =~= p.points(1));
        assert(values(q.z@) =~= values(p.z@)) by {
            assert forall|i: int| 0 <= i < m implies q.z@[i].value() == p.z@[i].value() by {}
        }
    }
}

/// Whoever reads only a part of what was written for an argument for two sets
/// of bases from its start gets an error.
pub proof fn law_ecp_prefix(p: prove_ecp<RistrettoPoint>, j: int)
    requires
        ecp_regular(p),
        0 <= j < joined(ecp_parts(p)).len(),
    ensures
        !ecp_parses(joined(ecp_parts(p)).take(j)),
{
    let b = joined(ecp_parts(p));
    law_ecp_size(p);
    law_ecp_round_trip(p, p);
    let (d, w) = (p.A_vecs@.len() as int, terms_per_round(p.k as int));
    assert(d * w * 2 == 2 * (d * w)) by (nonlinear_arith);
    if j >= 96 {
        lemma_header_of_prefix(b, j);
    }
}

} // verus!
