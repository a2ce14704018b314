//! The upstream side: turning a client request into a manifest request, and
//! putting a manifest into the order and identity that the archive is built from.
use vstd::prelude::*;
use crate::Config;
use crate::text::{chars_of, hex16, push_hex16, str_eq};
use crate::zip::{le32, le64, put_slice, put_u32_le, put_u64_le};
use vstd::utf8::encode_utf8;
use crate::s3url::S3Url;
use crate::zip::UtcTime;

verus! {

/// A request header: lower-case name and raw value.
pub type HeaderPair = (String, Vec<u8>);

pub open spec fn pair_view(h: HeaderPair) -> (Seq<char>, Seq<u8>) {
    (h.0@, h.1@)
}

/// The value of the first header named `name`.
pub open spec fn first_value(hs: Seq<HeaderPair>, name: Seq<char>) -> Option<Seq<u8>>
    decreases hs.len(),
{
    if hs.len() == 0 {
        None
    } else if hs[0].0@ == name {
        Some(hs[0].1@)
    } else {
        first_value(hs.drop_first(), name)
    }
}

/// The header `name` as forwarded: present when the request has it.
pub open spec fn kept(hs: Seq<HeaderPair>, name: Seq<char>) -> Seq<(Seq<char>, Seq<u8>)> {
    match first_value(hs, name) {
        Some(v) => seq![(name, v)],
        None => seq![],
    }
}

/// The headers of the manifest request: the via marker, then those of
/// `Authorization`, `Cookie`, `User-Agent` and `Referer` that the client sent.
pub open spec fn upstream_headers(hs: Seq<HeaderPair>, via: Seq<char>) -> Seq<(Seq<char>, Seq<u8>)> {
    seq![("x-via-zip-stream"@, vstd::utf8::encode_utf8(via))] + kept(hs, "authorization"@) + kept(hs, "cookie"@)
        + kept(hs, "user-agent"@) + kept(hs, "referer"@)
}

/// Where the manifest request goes, or the status and message of a refusal:
/// only `GET` is served, and only under the configured path prefix.
pub open spec fn upstream_target(config: Config, method: Seq<char>, path: Seq<char>) -> Result<Seq<char>, (u16, Seq<char>)> {
    if method != "GET"@ {
        Err((405, "Only GET requests allowed"@))
    } else if !config.strip_prefix@.is_prefix_of(path) {
        Err((404, "Not found"@))
    } else {
        Ok(config.upstream@ + path.subrange(config.strip_prefix@.len() as int, path.len() as int))
    }
}

/// A request for a manifest: its URI and headers.
pub struct UpstreamRequest {
    pub uri: String,
    pub headers: Vec<HeaderPair>,
}

fn find_header(hs: &Vec<HeaderPair>, name: &str) -> (r: Option<Vec<u8>>)
    ensures
        match first_value(hs@, name@) {
            Some(v) => r matches Some(x) && x@ == v,
            None => r is None,
        },
{
    let mut i: usize = 0;
    assert(hs@.skip(0) =~= hs@);
    while i < hs.len()
        invariant
            i <= hs@.len(),
            first_value(hs@, name@) == first_value(hs@.skip(i as int), name@),
        decreases hs@.len() - i,
    {
        assert(hs@.skip(i as int)[0] == hs@[i as int]);
        assert(hs@.skip(i as int).drop_first() =~= hs@.skip(i + 1));
        if str_eq(hs[i].0.as_str(), name) {
            let v = hs[i].1.clone();
            assert(v@ =~= hs@[i as int].1@);
            return Some(v);
        }
        i += 1;
    }
    None
}

fn push_kept(out: &mut Vec<HeaderPair>, hs: &Vec<HeaderPair>, name: &str)
    ensures
        final(out)@.map_values(|h: HeaderPair| pair_view(h))
            == old(out)@.map_values(|h: HeaderPair| pair_view(h)) + kept(hs@, name@),
{
    match find_header(hs, name) {
        Some(v) => {
            out.push((String::from_str(name), v));
        },
        None => {},
    }
    assert(final(out)@.map_values(|h: HeaderPair| pair_view(h))
        =~= old(out)@.map_values(|h: HeaderPair| pair_view(h)) + kept(hs@, name@));
}

fn has_prefix(s: &Vec<char>, p: &Vec<char>) -> (r: bool)
    ensures
        r == p@.is_prefix_of(s@),
{
    if p.len() > s.len() {
        return false;
    }
    let mut i: usize = 0;
    while i < p.len()
        invariant
            p@.len() <= s@.len(),
            i <= p@.len(),
            forall|k: int| 0 <= k < i ==> p@[k] == s@[k],
        decreases p@.len() - i,
    {
        if p[i] != s[i] {
            return false;
        }
        i += 1;
    }
    assert(p@ =~= s@.subrange(0, p@.len() as int));
    true
}

/// Turns a client request (method, path with query, headers) into the request
/// for its manifest, or refuses it with a status and a message.
pub fn request(config: &Config, method: &str, path_and_query: &str, headers: &Vec<HeaderPair>) -> (r: Result<UpstreamRequest, (u16, &'static str)>)
    ensures
        match upstream_target(*config, method@, path_and_query@) {
            Ok(uri) => r matches Ok(u) && u.uri@ == uri
                && u.headers@.map_values(|h: HeaderPair| pair_view(h)) == upstream_headers(headers@, config.via_zip_stream_header_value@),
            Err((status, message)) => r matches Err(e) && e.0 == status && e.1@ == message,
        },
{
    if !str_eq(method, "GET") {
        return Err((405, "Only GET requests allowed"));
    }
    let path = chars_of(path_and_query);
    let prefix = chars_of(config.strip_prefix.as_str());
    if !has_prefix(&path, &prefix) {
        return Err((404, "Not found"));
    }
    let mut uri = config.upstream.clone();
    uri.append(path_and_query.substring_char(prefix.len(), path.len()));
    let mut out: Vec<HeaderPair> = Vec::new();
    out.push((String::from_str("x-via-zip-stream"), config.via_zip_stream_header_value.as_str().as_bytes_vec()));
    assert(out@.map_values(|h: HeaderPair| pair_view(h))
        =~= seq![("x-via-zip-stream"@, vstd::utf8::encode_utf8(config.via_zip_stream_header_value@))]);
    push_kept(&mut out, headers, "authorization");
    push_kept(&mut out, headers, "cookie");
    push_kept(&mut out, headers, "user-agent");
    push_kept(&mut out, headers, "referer");
    Ok(UpstreamRequest { uri, headers: out })
}

/// One file of a manifest: its name in the archive, where its bytes are, its
/// length, its CRC-32 and its modification time.
pub struct ZipFileDescription {
    pub archive_name: String,
    pub source: S3Url,
    pub length: u64,
    pub crc: u32,
    pub last_modified: UtcTime,
}

/// A manifest: the archive's file name and its entries.
pub struct UpstreamResponse {
    pub filename: String,
    pub entries: Vec<ZipFileDescription>,
}

/// Three-way comparison of texts in lexicographic order of their characters,
/// which is the order of their UTF-8 bytes: negative, zero or positive.
pub open spec fn chars_cmp(a: Seq<char>, b: Seq<char>) -> int
    decreases a.len(),
{
    if a.len() == 0 {
        if b.len() == 0 { 0 } else { -1 }
    } else if b.len() == 0 {
        1
    } else if a[0] < b[0] {
        -1
    } else if a[0] > b[0] {
        1
    } else {
        chars_cmp(a.drop_first(), b.drop_first())
    }
}

pub open spec fn int_cmp(a: int, b: int) -> int {
    if a < b { -1 } else if a > b { 1 } else { 0 }
}

/// What identifies a manifest entry: archive name, source bucket, source key,
/// length, CRC, and modification time as seconds and nanoseconds.
pub type DescriptionView = (Seq<char>, Seq<char>, Seq<char>, u64, u32, i64, u32);

pub open spec fn desc_view(d: ZipFileDescription) -> DescriptionView {
    (d.archive_name@, d.source.bucket@, d.source.key@, d.length, d.crc, d.last_modified.spec_secs(), d.last_modified.spec_nanos())
}

/// Three-way lexicographic comparison of entry views, field by field.
pub open spec fn view_cmp(x: DescriptionView, y: DescriptionView) -> int {
    let c1 = chars_cmp(x.0, y.0);
    let c2 = chars_cmp(x.1, y.1);
    let c3 = chars_cmp(x.2, y.2);
    let c4 = int_cmp(x.3 as int, y.3 as int);
    let c5 = int_cmp(x.4 as int, y.4 as int);
    let c6 = int_cmp(x.5 as int, y.5 as int);
    let c7 = int_cmp(x.6 as int, y.6 as int);
    if c1 != 0 { c1 } else if c2 != 0 { c2 } else if c3 != 0 { c3 } else if c4 != 0 { c4 }
    else if c5 != 0 { c5 } else if c6 != 0 { c6 } else { c7 }
}

/// Three-way comparison of manifest entries by (archive name, source bucket,
/// source key, length, CRC, modification time).
pub open spec fn entry_cmp(x: ZipFileDescription, y: ZipFileDescription) -> int {
    view_cmp(desc_view(x), desc_view(y))
}

/// The order of entry views.
pub open spec fn view_le(x: DescriptionView, y: DescriptionView) -> bool {
    view_cmp(x, y) <= 0
}

/// The entries are in nondecreasing order.
pub open spec fn is_sorted(es: Seq<ZipFileDescription>) -> bool {
    forall|i: int, j: int| 0 <= i < j < es.len() ==> entry_cmp(#[trigger] es[i], #[trigger] es[j]) <= 0
}

proof fn lemma_chars_cmp(a: Seq<char>, b: Seq<char>, c: Seq<char>)
    ensures
        -1 <= chars_cmp(a, b) <= 1,
        chars_cmp(a, b) == -chars_cmp(b, a),
        chars_cmp(a, b) == 0 ==> a == b,
        chars_cmp(a, b) <= 0 && chars_cmp(b, c) <= 0 ==> chars_cmp(a, c) <= 0,
        chars_cmp(a, b) < 0 && chars_cmp(b, c) <= 0 ==> chars_cmp(a, c) < 0,
        chars_cmp(a, b) <= 0 && chars_cmp(b, c) < 0 ==> chars_cmp(a, c) < 0,
    decreases a.len(),
{
    if a.len() > 0 && b.len() > 0 && c.len() > 0 {
        lemma_chars_cmp(a.drop_first(), b.drop_first(), c.drop_first());
    } else if a.len() > 0 && b.len() > 0 {
        lemma_chars_cmp(a.drop_first(), b.drop_first(), c);
    }
    if a.len() > 0 && b.len() > 0 && a[0] == b[0] && chars_cmp(a.drop_first(), b.drop_first()) == 0 {
        assert(a =~= seq![a[0]] + a.drop_first());
        assert(b =~= seq![b[0]] + b.drop_first());
    }
    if a.len() == 0 && b.len() == 0 {
        assert(a =~= b);
    }
}

proof fn lemma_view_cmp(x: DescriptionView, y: DescriptionView, z: DescriptionView)
    ensures
        view_cmp(x, y) == -view_cmp(y, x),
        view_cmp(x, y) == 0 ==> x == y,
        view_cmp(x, y) <= 0 && view_cmp(y, z) <= 0 ==> view_cmp(x, z) <= 0,
{
    lemma_chars_cmp(x.0, y.0, z.0);
    lemma_chars_cmp(y.0, x.0, z.0);
    lemma_chars_cmp(x.1, y.1, z.1);
    lemma_chars_cmp(y.1, x.1, z.1);
    lemma_chars_cmp(x.2, y.2, z.2);
    lemma_chars_cmp(y.2, x.2, z.2);
}

proof fn lemma_entry_cmp(x: ZipFileDescription, y: ZipFileDescription, z: ZipFileDescription)
    ensures
        entry_cmp(x, y) == -entry_cmp(y, x),
        entry_cmp(x, y) <= 0 && entry_cmp(y, z) <= 0 ==> entry_cmp(x, z) <= 0,
{
    lemma_view_cmp(desc_view(x), desc_view(y), desc_view(z));
}

proof fn lemma_view_le_total()
    ensures
        vstd::relations::total_ordering(|x: DescriptionView, y: DescriptionView| view_le(x, y)),
{
    let le = |x: DescriptionView, y: DescriptionView| view_le(x, y);
    assert forall|x: DescriptionView| #[trigger] le(x, x) by {
        lemma_view_cmp(x, x, x);
    }
    assert forall|x: DescriptionView, y: DescriptionView| #[trigger] le(x, y) && #[trigger] le(y, x) implies x == y by {
        lemma_view_cmp(x, y, x);
    }
    assert forall|x: DescriptionView, y: DescriptionView, z: DescriptionView|
        #[trigger] le(x, y) && #[trigger] le(y, z) implies le(x, z) by {
        lemma_view_cmp(x, y, z);
    }
    assert forall|x: DescriptionView, y: DescriptionView| #[trigger] le(x, y) || #[trigger] le(y, x) by {
        lemma_view_cmp(x, y, x);
    }
}

/// Order independence: two sorted lists of entries whose views form the same
/// multiset, such as what `sort_entries` gives for two orderings of one
/// manifest, agree entry for entry, and so give the same ETag.
pub proof fn lemma_sort_order_free(
    filename: Seq<char>,
    first: Seq<ZipFileDescription>,
    second: Seq<ZipFileDescription>,
)
    requires
        is_sorted(first),
        is_sorted(second),
        first.map_values(|d: ZipFileDescription| desc_view(d)).to_multiset()
            == second.map_values(|d: ZipFileDescription| desc_view(d)).to_multiset(),
    ensures
        first.len() == second.len(),
        forall|i: int| 0 <= i < first.len() ==> same_description(#[trigger] first[i], second[i]),
        etag_text(filename, first) == etag_text(filename, second),
{
    let le = |x: DescriptionView, y: DescriptionView| view_le(x, y);
    let v1 = first.map_values(|d: ZipFileDescription| desc_view(d));
    let v2 = second.map_values(|d: ZipFileDescription| desc_view(d));
    lemma_view_le_total();
    assert forall|i: int, j: int| 0 <= i < j < v1.len() implies #[trigger] le(v1[i], v1[j]) by {
        assert(entry_cmp(first[i], first[j]) <= 0);
    }
    assert forall|i: int, j: int| 0 <= i < j < v2.len() implies #[trigger] le(v2[i], v2[j]) by {
        assert(entry_cmp(second[i], second[j]) <= 0);
    }
    vstd::seq_lib::lemma_sorted_unique(v1, v2, le);
    assert(first.len() == v1.len() && second.len() == v2.len());
    assert forall|i: int| 0 <= i < first.len() implies same_description(#[trigger] first[i], second[i]) by {
        assert(v1[i] == v2[i]);
    }
    lemma_etag_deterministic(filename, first, filename, second);
}

/// Compares two texts as `chars_cmp` does.
fn cmp_text(a: &str, b: &str) -> (r: i8)
    ensures
        r as int == chars_cmp(a@, b@),
{
    let x = chars_of(a);
    let y = chars_of(b);
    let mut i: usize = 0;
    assert(x@.skip(0) =~= x@);
    assert(y@.skip(0) =~= y@);
    while i < x.len() && i < y.len()
        invariant
            x@ == a@,
            y@ == b@,
            i <= x@.len(),
            i <= y@.len(),
            chars_cmp(a@, b@) == chars_cmp(x@.skip(i as int), y@.skip(i as int)),
        decreases x@.len() - i,
    {
        let ghost xs = x@.skip(i as int);
        let ghost ys = y@.skip(i as int);
        assert(xs[0] == x@[i as int] && ys[0] == y@[i as int]);
        if x[i] < y[i] {
            return -1;
        }
        if x[i] > y[i] {
            return 1;
        }
        assert(xs.drop_first() =~= x@.skip(i + 1));
        assert(ys.drop_first() =~= y@.skip(i + 1));
        i += 1;
    }
    if i < x.len() {
        1
    } else if i < y.len() {
        -1
    } else {
        0
    }
}

fn cmp_u64(a: u64, b: u64) -> (r: i8)
    ensures
        r as int == int_cmp(a as int, b as int),
{
    if a < b { -1 } else if a > b { 1 } else { 0 }
}

/// Compares two manifest entries as `entry_cmp` does.
fn cmp_entries(x: &ZipFileDescription, y: &ZipFileDescription) -> (r: i8)
    ensures
        r as int == entry_cmp(*x, *y),
{
    let c = cmp_text(x.archive_name.as_str(), y.archive_name.as_str());
    if c != 0 {
        return c;
    }
    let c = cmp_text(x.source.bucket.as_str(), y.source.bucket.as_str());
    if c != 0 {
        return c;
    }
    let c = cmp_text(x.source.key.as_str(), y.source.key.as_str());
    if c != 0 {
        return c;
    }
    let c = cmp_u64(x.length, y.length);
    if c != 0 {
        return c;
    }
    let c = cmp_u64(x.crc as u64, y.crc as u64);
    if c != 0 {
        return c;
    }
    let (s1, s2) = (x.last_modified.timestamp(), y.last_modified.timestamp());
    if s1 < s2 {
        return -1;
    }
    if s1 > s2 {
        return 1;
    }
    cmp_u64(x.last_modified.subsec_nanos() as u64, y.last_modified.subsec_nanos() as u64)
}

/// Puts manifest entries in order by (archive name, source, length, CRC,
/// modification time), so that the archive does not depend on the order in
/// which the manifest lists them.
pub fn sort_entries(entries: Vec<ZipFileDescription>) -> (r: Vec<ZipFileDescription>)
    ensures
        is_sorted(r@),
        r@.to_multiset() == entries@.to_multiset(),
        r@.map_values(|d: ZipFileDescription| desc_view(d)).to_multiset()
            == entries@.map_values(|d: ZipFileDescription| desc_view(d)).to_multiset(),
{
    broadcast use vstd::seq_lib::group_to_multiset_ensures;
    let ghost orig = entries@;
    let mut out: Vec<ZipFileDescription> = Vec::new();
    for e in it: entries
        invariant
            it.seq() == orig,
            is_sorted(out@),
            out@.to_multiset() == orig.take(it.index() as int).to_multiset(),
            out@.map_values(|d: ZipFileDescription| desc_view(d)).to_multiset()
                == orig.take(it.index() as int).map_values(|d: ZipFileDescription| desc_view(d)).to_multiset(),
    {
        let ghost k = it.index() as int;
        let mut p: usize = 0;
        while p < out.len() && cmp_entries(&e, &out[p]) >= 0
            invariant
                p <= out@.len(),
                forall|q: int| 0 <= q < p ==> entry_cmp(e, #[trigger] out@[q]) >= 0,
            decreases out@.len() - p,
        {
            p += 1;
        }
        let ghost before = out@;
        out.insert(p, e);
        proof {
            assert(out@ == before.insert(p as int, e));
            assert forall|i: int, j: int| 0 <= i < j < out@.len() implies entry_cmp(#[trigger] out@[i], #[trigger] out@[j]) <= 0 by {
                if j < p {
                    assert(out@[i] == before[i] && out@[j] == before[j]);
                } else if j == p {
                    lemma_entry_cmp(e, before[i], e);
                } else if i == p {
                    if p < before.len() {
                        lemma_entry_cmp(e, before[p as int], before[j - 1]);
                        if (p as int) < j - 1 {
                            assert(entry_cmp(before[p as int], before[j - 1]) <= 0);
                        }
                    }
                } else if i < p {
                    assert(out@[j] == before[j - 1]);
                } else {
                    assert(out@[i] == before[i - 1] && out@[j] == before[j - 1]);
                }
            }
            vstd::seq_lib::to_multiset_insert(before, p as int, e);
            assert(orig.take(k + 1) =~= orig.take(k).push(e));
            vstd::seq_lib::to_multiset_build(orig.take(k), e);
            let ghost mb = before.map_values(|d: ZipFileDescription| desc_view(d));
            assert(out@.map_values(|d: ZipFileDescription| desc_view(d)) =~= mb.insert(p as int, desc_view(e)));
            vstd::seq_lib::to_multiset_insert(mb, p as int, desc_view(e));
            let ghost mo = orig.take(k).map_values(|d: ZipFileDescription| desc_view(d));
            assert(orig.take(k + 1).map_values(|d: ZipFileDescription| desc_view(d)) =~= mo.push(desc_view(e)));
            vstd::seq_lib::to_multiset_build(mo, desc_view(e));
        }
    }
    assert(orig.take(orig.len() as int) =~= orig);
    out
}

/// A text in the ETag's input: its UTF-8 length as eight bytes, then its bytes.
pub open spec fn text_field(s: Seq<char>) -> Seq<u8> {
    le64(encode_utf8(s).len() as u64) + encode_utf8(s)
}

/// The bytes that stand for one manifest entry in the ETag's input.
pub open spec fn entry_record(d: ZipFileDescription) -> Seq<u8> {
    text_field(d.archive_name@) + text_field(d.source.bucket@) + text_field(d.source.key@) + le64(d.length)
        + le32(d.crc) + le64(d.last_modified.spec_secs() as u64) + le32(d.last_modified.spec_nanos())
}

/// The records of the entries, in order.
pub open spec fn entry_records(es: Seq<ZipFileDescription>) -> Seq<u8>
    decreases es.len(),
{
    if es.len() == 0 {
        seq![]
    } else {
        entry_records(es.drop_last()) + entry_record(es.last())
    }
}

/// The ETag's input: the file name, the number of entries, and each entry.
pub open spec fn manifest_bytes(filename: Seq<char>, es: Seq<ZipFileDescription>) -> Seq<u8> {
    text_field(filename) + le64(es.len() as u64) + entry_records(es)
}

/// 64-bit FNV-1a hash of a byte string.
pub open spec fn fnv1a(bytes: Seq<u8>) -> u64
    decreases bytes.len(),
{
    if bytes.len() == 0 {
        0xcbf2_9ce4_8422_2325
    } else {
        (((fnv1a(bytes.drop_last()) ^ (bytes.last() as u64)) as nat * 0x100_0000_01b3nat) % 0x1_0000_0000_0000_0000nat) as u64
    }
}

/// The ETag of a manifest: 16 hexadecimal digits of the FNV-1a hash of its
/// canonical bytes. It depends on the manifest's content alone, so it is the
/// same in every process and on every platform.
pub open spec fn etag_text(filename: Seq<char>, es: Seq<ZipFileDescription>) -> Seq<char> {
    hex16(fnv1a(manifest_bytes(filename, es)))
}

/// The two entries have the same content.
pub open spec fn same_description(x: ZipFileDescription, y: ZipFileDescription) -> bool {
    &&& x.archive_name@ == y.archive_name@
    &&& x.source.bucket@ == y.source.bucket@
    &&& x.source.key@ == y.source.key@
    &&& x.length == y.length
    &&& x.crc == y.crc
    &&& x.last_modified.spec_secs() == y.last_modified.spec_secs()
    &&& x.last_modified.spec_nanos() == y.last_modified.spec_nanos()
}

proof fn lemma_records_same(a: Seq<ZipFileDescription>, b: Seq<ZipFileDescription>)
    requires
        a.len() == b.len(),
        forall|i: int| 0 <= i < a.len() ==> same_description(#[trigger] a[i], b[i]),
    ensures
        entry_records(a) == entry_records(b),
    decreases a.len(),
{
    if a.len() > 0 {
        lemma_records_same(a.drop_last(), b.drop_last());
        assert(same_description(a[a.len() - 1], b[b.len() - 1]));
    }
}

/// Determinism of the ETag: two manifests with the same file name and the
/// same entries, in the same order, have the same ETag, whichever values hold
/// them.
pub proof fn lemma_etag_deterministic(
    name1: Seq<char>,
    es1: Seq<ZipFileDescription>,
    name2: Seq<char>,
    es2: Seq<ZipFileDescription>,
)
    requires
        name1 == name2,
        es1.len() == es2.len(),
        forall|i: int| 0 <= i < es1.len() ==> same_description(#[trigger] es1[i], es2[i]),
    ensures
        etag_text(name1, es1) == etag_text(name2, es2),
{
    lemma_records_same(es1, es2);
}

fn put_text_field(buf: &mut Vec<u8>, s: &str)
    ensures
        final(buf)@ == old(buf)@ + text_field(s@),
{
    let b = s.as_bytes();
    put_u64_le(buf, b.len() as u64);
    put_slice(buf, b);
    assert(final(buf)@ =~= old(buf)@ + text_field(s@));
}

fn put_entry_record(buf: &mut Vec<u8>, e: &ZipFileDescription)
    ensures
        final(buf)@ == old(buf)@ + entry_record(*e),
{
    put_text_field(buf, e.archive_name.as_str());
    put_text_field(buf, e.source.bucket.as_str());
    put_text_field(buf, e.source.key.as_str());
    put_u64_le(buf, e.length);
    put_u32_le(buf, e.crc);
    put_u64_le(buf, e.last_modified.timestamp() as u64);
    put_u32_le(buf, e.last_modified.subsec_nanos());
    assert(final(buf)@ =~= old(buf)@ + entry_record(*e));
}

fn fnv1a_of(bytes: &Vec<u8>) -> (r: u64)
    ensures
        r == fnv1a(bytes@),
{
    let mut h: u64 = 0xcbf2_9ce4_8422_2325;
    let mut i: usize = 0;
    while i < bytes.len()
        invariant
            i <= bytes@.len(),
            h == fnv1a(bytes@.take(i as int)),
        decreases bytes@.len() - i,
    {
        assert(bytes@.take(i + 1).drop_last() =~= bytes@.take(i as int));
        h = (h ^ (bytes[i] as u64)).wrapping_mul(0x100_0000_01b3);
        i += 1;
    }
    assert(bytes@.take(bytes@.len() as int) =~= bytes@);
    h
}

/// The ETag of a manifest, from its file name and its entries in the order given.
pub fn manifest_etag(res: &UpstreamResponse) -> (r: String)
    ensures
        r@ == etag_text(res.filename@, res.entries@),
{
    let mut buf: Vec<u8> = Vec::new();
    put_text_field(&mut buf, res.filename.as_str());
    put_u64_le(&mut buf, res.entries.len() as u64);
    let ghost head = buf@;
    let mut i: usize = 0;
    while i < res.entries.len()
        invariant
            i <= res.entries@.len(),
            buf@ == head + entry_records(res.entries@.take(i as int)),
        decreases res.entries@.len() - i,
    {
        put_entry_record(&mut buf, &res.entries[i]);
        assert(res.entries@.take(i + 1).drop_last() =~= res.entries@.take(i as int));
        i += 1;
    }
    assert(res.entries@.take(res.entries@.len() as int) =~= res.entries@);
    assert(buf@ =~= manifest_bytes(res.filename@, res.entries@));
    let mut etag = String::new();
    push_hex16(&mut etag, fnv1a_of(&buf));
    assert(etag@ =~= etag_text(res.filename@, res.entries@));
    etag
}

} // verus!
