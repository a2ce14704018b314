//! Byte ranges, sized random-access byte sources, and their concatenation.
use vstd::prelude::*;
use bytes::Bytes;
use crate::text::{decimal, push_decimal};

verus! {

/// A closed-open interval `[start, end)` of byte offsets.
#[derive(Clone, Copy, PartialEq, Eq, Debug, Structural)]
pub struct Range {
    pub start: u64,
    pub end: u64,
}

/// `a - b`, or zero when `b > a`.
pub open spec fn sat_sub(a: int, b: int) -> int {
    if a >= b { a - b } else { 0 }
}

impl Range {
    /// A range is well formed when it does not run backwards.
    pub open spec fn wf(&self) -> bool {
        self.start <= self.end
    }

    pub open spec fn spec_len(&self) -> nat {
        (self.end - self.start) as nat
    }

    /// The part of `self` that lies in a child `[0, len)`, if `self` starts inside it.
    pub open spec fn prefix_spec(&self, len: u64) -> Option<Range> {
        if self.start < len {
            Some(Range { start: self.start, end: if self.end < len { self.end } else { len } })
        } else {
            None
        }
    }

    /// `self` shifted left by `len`, each end saturating at zero.
    pub open spec fn shifted_spec(&self, len: u64) -> Range {
        Range { start: sat_sub(self.start as int, len as int) as u64, end: sat_sub(self.end as int, len as int) as u64 }
    }

    /// Splits `self` against a child of length `len`: returns the overlap with
    /// `[0, len)` when `self` starts inside it, and shifts `self` left by `len`.
    pub fn take_prefix(&mut self, len: u64) -> (r: Option<Range>)
        ensures
            r == old(self).prefix_spec(len),
            *final(self) == old(self).shifted_spec(len),
    {
        let prefix = if self.start < len {
            Some(Range { start: self.start, end: if self.end < len { self.end } else { len } })
        } else {
            None
        };
        self.start = self.start.saturating_sub(len);
        self.end = self.end.saturating_sub(len);
        prefix
    }

    /// Number of bytes in the range.
    pub fn len(&self) -> (r: u64)
        requires
            self.wf(),
        ensures
            r == self.spec_len(),
    {
        self.end - self.start
    }

    /// The closed form used in HTTP: `bytes=S-E`, where `E` is the last byte.
    pub fn to_http_range_header(self) -> (r: String)
        requires
            self.end >= 1,
        ensures
            r@ == "bytes="@ + decimal(self.start as nat) + "-"@ + decimal((self.end - 1) as nat),
    {
        let mut s = String::from_str("bytes=");
        push_decimal(&mut s, self.start);
        s.append("-");
        push_decimal(&mut s, self.end - 1);
        s
    }

    pub open spec fn limit_end_spec(&self, len: u64) -> Range {
        Range { start: self.start, end: if self.end < len { self.end } else { len } }
    }

    /// Clamps the end of the range to `len`.
    pub fn limit_end(self, len: u64) -> (r: Range)
        ensures
            r == self.limit_end_spec(len),
    {
        Range { start: self.start, end: if self.end < len { self.end } else { len } }
    }
}

/// A sized source of bytes from which any sub-range can be streamed.
pub trait StreamRange {
    /// Total number of bytes.
    spec fn spec_len(&self) -> u64;

    /// Total number of bytes.
    fn len(&self) -> (r: u64)
        ensures
            r == self.spec_len(),
    ;
}

/// `bytes::Bytes`, a shared immutable byte buffer, as an opaque type; what it
/// holds is `bytes_content`.
#[verifier::external_type_specification]
#[verifier::external_body]
pub struct ExBytes(Bytes);

/// The bytes that a shared buffer holds.
pub uninterp spec fn bytes_content(b: Bytes) -> Seq<u8>;

/// Relies on `From<Vec<u8>> for Bytes`: the buffer holds the vector's bytes.
#[verifier::external_body]
pub(crate) fn bytes_from_vec(v: Vec<u8>) -> (r: Bytes)
    ensures
        bytes_content(r) == v@,
{
    Bytes::from(v)
}

/// Relies on `Bytes::len`: the number of bytes in the buffer.
#[verifier::external_body]
fn bytes_len(b: &Bytes) -> (r: usize)
    ensures
        r as nat == bytes_content(*b).len(),
{
    b.len()
}

/// Relies on `Bytes::slice`: a view of `[start, end)` of the buffer, which
/// panics unless `start <= end <= len`.
#[verifier::external_body]
fn bytes_slice(b: &Bytes, start: usize, end: usize) -> (r: Bytes)
    requires
        start <= end <= bytes_content(*b).len(),
    ensures
        bytes_content(r) == bytes_content(*b).subrange(start as int, end as int),
{
    b.slice(start..end)
}

impl StreamRange for Bytes {
    open spec fn spec_len(&self) -> u64 {
        bytes_content(*self).len() as u64
    }

    fn len(&self) -> (r: u64) {
        bytes_len(self) as u64
    }
}

/// The bytes of `range` of an in-memory buffer.
pub fn bytes_range(data: &Bytes, range: Range) -> (r: Bytes)
    requires
        range.wf(),
        range.end <= bytes_content(*data).len(),
    ensures
        bytes_content(r) == bytes_content(*data).subrange(range.start as int, range.end as int),
{
    // The buffer's length is a `usize`, so the offsets fit one.
    let len = bytes_len(data);
    assert(range.end <= len);
    bytes_slice(data, range.start as usize, range.end as usize)
}

/// `aws_sdk_s3::Client` as an opaque type: it is only carried to where the
/// object is read.
#[verifier::external_type_specification]
#[verifier::external_body]
pub struct ExS3Client(aws_sdk_s3::Client);

/// An object in an S3 bucket, read through `client` by ranged GET requests.
pub struct S3Object {
    pub client: aws_sdk_s3::Client,
    pub bucket: String,
    pub key: String,
    pub len: u64,
}

impl StreamRange for S3Object {
    open spec fn spec_len(&self) -> u64 {
        self.len
    }

    fn len(&self) -> (r: u64) {
        self.len
    }
}

impl S3Object {
    /// The `Range` header of the GET request for `range` of the object.
    pub fn range_header(&self, range: Range) -> (r: String)
        requires
            range.end >= 1,
        ensures
            r@ == "bytes="@ + decimal(range.start as nat) + "-"@ + decimal((range.end - 1) as nat),
    {
        range.to_http_range_header()
    }

    /// Whether the `Content-Length` of a GET response is the length of `range`.
    pub fn length_matches(content_length: Option<i64>, range: Range) -> (r: bool)
        requires
            range.wf(),
        ensures
            r == (content_length == Some(range.spec_len() as i64)),
    {
        match content_length {
            Some(n) => n == range.len() as i64,
            None => false,
        }
    }
}

/// Sum of a sequence of lengths.
pub open spec fn total_len(lens: Seq<nat>) -> nat
    decreases lens.len(),
{
    if lens.len() == 0 {
        0
    } else {
        lens[0] + total_len(lens.drop_first())
    }
}

/// The lengths of a sequence of byte strings.
pub open spec fn lens_of(contents: Seq<Seq<u8>>) -> Seq<nat> {
    contents.map_values(|c: Seq<u8>| c.len())
}

/// The pieces to read for `[a, b)` from parts of lengths `lens`, the first of
/// which has index `first`: each part that the range overlaps, with the overlap
/// in the part's own offsets, in order.
pub open spec fn pieces(lens: Seq<nat>, first: int, a: u64, b: u64) -> Seq<(usize, Range)>
    decreases lens.len(),
{
    if lens.len() == 0 {
        seq![]
    } else {
        let l = lens[0];
        let rest = pieces(lens.drop_first(), first + 1, sat_sub(a as int, l as int) as u64, sat_sub(b as int, l as int) as u64);
        if a < b && a < l {
            seq![(first as usize, Range { start: a, end: if b < l { b } else { l as u64 } })] + rest
        } else {
            rest
        }
    }
}

/// The bytes that reading `ps` yields, when part `i` holds `contents[i]`.
pub open spec fn read_pieces(contents: Seq<Seq<u8>>, ps: Seq<(usize, Range)>) -> Seq<u8>
    decreases ps.len(),
{
    if ps.len() == 0 {
        seq![]
    } else {
        contents[ps[0].0 as int].subrange(ps[0].1.start as int, ps[0].1.end as int) + read_pieces(contents, ps.drop_first())
    }
}

/// A source made of other sources, one after the other.
pub struct Concatenated<P>(pub Vec<P>);

impl<P: StreamRange> Concatenated<P> {
    /// The lengths of the parts, in order.
    pub open spec fn part_lens(&self) -> Seq<nat> {
        self.0@.map_values(|p: P| p.spec_len() as nat)
    }

    /// Which parts to read, and which of their bytes, to produce `range` of the
    /// whole: the overlap of `range` with each part, in part order. Parts that
    /// end before `range.start` or start at or after `range.end` add nothing.
    pub fn stream_plan(&self, range: Range) -> (r: Vec<(usize, Range)>)
        requires
            range.wf(),
        ensures
            r@ == pieces(self.part_lens(), 0, range.start, range.end),
    {
        let ghost lens = self.part_lens();
        let mut rest = range;
        let ghost a0 = range.start;
        let ghost b0 = range.end;
        let mut out: Vec<(usize, Range)> = Vec::new();
        let n = self.0.len();
        assert(lens.skip(0) =~= lens);
        assert(out@ + pieces(lens, 0, a0, b0) =~= pieces(lens, 0, a0, b0));
        let mut i: usize = 0;
        while i < n
            invariant
                n == self.0@.len(),
                lens == self.part_lens(),
                a0 == range.start,
                b0 == range.end,
                i <= n,
                rest.wf(),
                out@ + pieces(lens.skip(i as int), i as int, rest.start, rest.end) == pieces(lens, 0, a0, b0),
            decreases n - i,
        {
            if rest.len() == 0 {
                proof { lemma_pieces_empty(lens.skip(i as int), i as int, rest.start); }
                assert(out@ + Seq::<(usize, Range)>::empty() =~= out@);
                return out;
            }
            let l = self.0[i].len();
            let ghost before = rest;
            let ghost tail = lens.skip(i as int);
            assert(tail[0] == l as nat);
            assert(tail.drop_first() =~= lens.skip(i + 1));
            let ghost out0 = out@;
            if let Some(inner) = rest.take_prefix(l) {
                out.push((i, inner));
                assert(out@ =~= out0 + seq![(i, inner)]);
            }
            assert(pieces(tail, i as int, before.start, before.end) == (if before.start < before.end && before.start < l {
                seq![(i, Range { start: before.start, end: if before.end < l { before.end } else { l } })] + pieces(lens.skip(i + 1), i + 1, rest.start, rest.end)
            } else {
                pieces(lens.skip(i + 1), i + 1, rest.start, rest.end)
            }));
            assert(out@ + pieces(lens.skip(i + 1), i + 1, rest.start, rest.end) =~= pieces(lens, 0, a0, b0));
            i += 1;
        }
        assert(lens.skip(n as int).len() == 0);
        assert(out@ + Seq::<(usize, Range)>::empty() =~= out@);
        out
    }
}

impl<P: StreamRange> StreamRange for Concatenated<P> {
    open spec fn spec_len(&self) -> u64 {
        let t = total_len(self.part_lens());
        if t <= u64::MAX { t as u64 } else { u64::MAX }
    }

    /// The sum of the parts' lengths, saturating at `u64::MAX`.
    fn len(&self) -> (r: u64) {
        let ghost lens = self.part_lens();
        let n = self.0.len();
        let mut acc: u64 = 0;
        let mut i: usize = 0;
        while i < n
            invariant
                n == self.0@.len(),
                lens == self.part_lens(),
                i <= n,
                acc as nat == (if total_len(lens.take(i as int)) <= u64::MAX { total_len(lens.take(i as int)) } else { u64::MAX as nat }),
            decreases n - i,
        {
            let l = self.0[i].len();
            proof { lemma_total_len_push(lens.take(i as int), lens[i as int]); }
            assert(lens.take(i as int).push(lens[i as int]) =~= lens.take(i + 1));
            acc = acc.saturating_add(l);
            i += 1;
        }
        assert(lens.take(n as int) =~= lens);
        acc
    }
}

proof fn lemma_read_pieces_append(contents: Seq<Seq<u8>>, left: Seq<(usize, Range)>, right: Seq<(usize, Range)>)
    ensures
        read_pieces(contents, left + right) == read_pieces(contents, left) + read_pieces(contents, right),
    decreases left.len(),
{
    if left.len() == 0 {
        assert(left + right =~= right);
        assert(read_pieces(contents, left) + read_pieces(contents, right) =~= read_pieces(contents, right));
    } else {
        lemma_read_pieces_append(contents, left.drop_first(), right);
        assert((left + right).drop_first() =~= left.drop_first() + right);
        assert((left + right)[0] == left[0]);
        let h = contents[left[0].0 as int].subrange(left[0].1.start as int, left[0].1.end as int);
        assert(h + (read_pieces(contents, left.drop_first()) + read_pieces(contents, right))
            =~= (h + read_pieces(contents, left.drop_first())) + read_pieces(contents, right));
    }
}

proof fn lemma_flatten_len(contents: Seq<Seq<u8>>)
    ensures
        contents.flatten().len() == total_len(lens_of(contents)),
    decreases contents.len(),
{
    if contents.len() > 0 {
        lemma_flatten_len(contents.drop_first());
        assert(lens_of(contents).drop_first() =~= lens_of(contents.drop_first()));
    }
}

proof fn lemma_pieces_read_suffix(contents: Seq<Seq<u8>>, k: int, a: u64, b: u64)
    requires
        0 <= k <= contents.len() <= usize::MAX,
        a <= b <= contents.skip(k).flatten().len(),
    ensures
        read_pieces(contents, pieces(lens_of(contents).skip(k), k, a, b)) == contents.skip(k).flatten().subrange(a as int, b as int),
    decreases contents.len() - k,
{
    let cs = contents.skip(k);
    let lens = lens_of(contents).skip(k);
    if k == contents.len() {
        assert(cs.len() == 0);
        assert(lens.len() == 0);
        assert(cs.flatten().subrange(a as int, b as int) =~= Seq::<u8>::empty());
    } else {
        let c = contents[k];
        let l = c.len();
        let rest_cs = contents.skip(k + 1);
        assert(cs.drop_first() =~= rest_cs);
        assert(cs[0] == c);
        assert(lens[0] == l);
        assert(lens.drop_first() =~= lens_of(contents).skip(k + 1));
        let f = cs.flatten();
        let f2 = rest_cs.flatten();
        assert(f == c + f2);
        let a2 = sat_sub(a as int, l as int) as u64;
        let b2 = sat_sub(b as int, l as int) as u64;
        lemma_pieces_read_suffix(contents, k + 1, a2, b2);
        let rest = pieces(lens_of(contents).skip(k + 1), k + 1, a2, b2);
        assert(read_pieces(contents, rest) == f2.subrange(a2 as int, b2 as int));
        if a < b && a < l {
            let end: u64 = if b < l { b } else { l as u64 };
            let head = seq![(k as usize, Range { start: a, end: end })];
            assert(pieces(lens, k, a, b) == head + rest);
            lemma_read_pieces_append(contents, head, rest);
            assert(head.drop_first() =~= Seq::<(usize, Range)>::empty());
            assert((k as usize) as int == k);
            assert(head[0].0 as int == k);
            assert(read_pieces(contents, head.drop_first()) == Seq::<u8>::empty());
            assert(read_pieces(contents, head) == contents[k].subrange(a as int, end as int) + read_pieces(contents, head.drop_first()));
            assert(read_pieces(contents, head) =~= c.subrange(a as int, end as int));
            assert(c.subrange(a as int, end as int) + f2.subrange(a2 as int, b2 as int) =~= f.subrange(a as int, b as int));
        } else {
            assert(pieces(lens, k, a, b) == rest);
            assert(f2.subrange(a2 as int, b2 as int) =~= f.subrange(a as int, b as int));
        }
    }
}

/// The bytes of a concatenation number exactly the sum of its parts' lengths,
/// and when that sum fits in 64 bits it is what `len` reports: reading the plan
/// for the whole yields that many bytes.
pub proof fn lemma_length_exact<P: StreamRange>(c: Concatenated<P>, contents: Seq<Seq<u8>>)
    requires
        c.0@.len() <= usize::MAX,
        lens_of(contents) == c.part_lens(),
        total_len(c.part_lens()) <= u64::MAX,
    ensures
        contents.flatten().len() == c.spec_len(),
        read_pieces(contents, pieces(c.part_lens(), 0, 0, c.spec_len() as u64)).len() == c.spec_len(),
{
    lemma_flatten_len(contents);
    assert(contents.len() == lens_of(contents).len());
    assert(contents.skip(0) =~= contents);
    assert(lens_of(contents).skip(0) =~= lens_of(contents));
    lemma_pieces_read_suffix(contents, 0, 0, c.spec_len() as u64);
}

/// Concatenation subset law: when the parts hold `contents`, reading the plan
/// for `[a, b)` yields bytes `a..b` of the whole, which are bytes `a..b` of
/// what reading the plan for the whole range yields.
pub proof fn lemma_subrange_law<P: StreamRange>(c: Concatenated<P>, contents: Seq<Seq<u8>>, a: u64, b: u64)
    requires
        c.0@.len() <= usize::MAX,
        lens_of(contents) == c.part_lens(),
        a <= b <= c.spec_len(),
        total_len(c.part_lens()) <= u64::MAX,
    ensures
        read_pieces(contents, pieces(c.part_lens(), 0, a, b)) == contents.flatten().subrange(a as int, b as int),
        read_pieces(contents, pieces(c.part_lens(), 0, a, b))
            == read_pieces(contents, pieces(c.part_lens(), 0, 0, c.spec_len() as u64)).subrange(a as int, b as int),
{
    lemma_flatten_len(contents);
    assert(contents.len() == lens_of(contents).len());
    assert(contents.skip(0) =~= contents);
    assert(lens_of(contents).skip(0) =~= lens_of(contents));
    lemma_pieces_read_suffix(contents, 0, a, b);
    lemma_pieces_read_suffix(contents, 0, 0, c.spec_len() as u64);
    assert(contents.flatten().subrange(0, c.spec_len() as int) =~= contents.flatten());
}

proof fn lemma_pieces_empty(lens: Seq<nat>, first: int, a: u64)
    ensures
        pieces(lens, first, a, a) == Seq::<(usize, Range)>::empty(),
    decreases lens.len(),
{
    if lens.len() > 0 {
        lemma_pieces_empty(lens.drop_first(), first + 1, sat_sub(a as int, lens[0] as int) as u64);
    }
}

/// The sum of the first `k + 1` lengths adds the `k`-th to the sum of the first `k`.
pub proof fn lemma_total_len_take_step(lens: Seq<nat>, k: int)
    requires
        0 <= k < lens.len(),
    ensures
        total_len(lens.take(k + 1)) == total_len(lens.take(k)) + lens[k],
{
    lemma_total_len_push(lens.take(k), lens[k]);
    assert(lens.take(k).push(lens[k]) =~= lens.take(k + 1));
}

/// A prefix sums to no more than the whole.
pub proof fn lemma_total_len_take_le(lens: Seq<nat>, k: int)
    requires
        0 <= k <= lens.len(),
    ensures
        total_len(lens.take(k)) <= total_len(lens),
    decreases lens.len() - k,
{
    if k < lens.len() {
        lemma_total_len_take_step(lens, k);
        lemma_total_len_take_le(lens, k + 1);
    } else {
        assert(lens.take(k) =~= lens);
    }
}

proof fn lemma_total_len_push(lens: Seq<nat>, x: nat)
    ensures
        total_len(lens.push(x)) == total_len(lens) + x,
    decreases lens.len(),
{
    if lens.len() > 0 {
        lemma_total_len_push(lens.drop_first(), x);
        assert(lens.push(x).drop_first() =~= lens.drop_first().push(x));
        assert(lens.push(x)[0] == lens[0]);
    } else {
        assert(lens.push(x).drop_first() =~= Seq::<nat>::empty());
        assert(total_len(Seq::<nat>::empty()) == 0);
        assert(lens.push(x)[0] == x);
    }
}

} // verus!
