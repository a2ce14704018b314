//! HTTP range requests: parsing `Range`, and deciding status, headers and
//! the bytes to send for a request.
use vstd::prelude::*;
use crate::stream_range::Range;
use crate::text::{chars_of, decimal, parse_u64, parse_u64_spec, push_decimal, str_eq};

verus! {

/// What `str::trim` returns for a text.
pub uninterp spec fn trim_of(s: Seq<char>) -> Seq<char>;

/// Relies on `str::trim`: the text without leading and trailing white space.
#[verifier::external_body]
fn trim(s: &str) -> (r: &str)
    ensures
        r@ == trim_of(s@),
{
    s.trim()
}

/// The result of a parse, with the error message as text.
pub open spec fn outcome_view(r: Result<Option<Range>, &str>) -> Result<Option<Range>, Seq<char>> {
    match r {
        Ok(x) => Ok(x),
        Err(m) => Err(m@),
    }
}

/// `h` is the position of the first `c` in `s`.
pub open spec fn is_first_index(s: Seq<char>, c: char, h: int) -> bool {
    0 <= h < s.len() && s[h] == c && forall|k: int| 0 <= k < h ==> s[k] != c
}

/// The outcome for the text after `bytes=` (already trimmed): a comma means
/// several ranges, which are ignored; `-N` is a suffix, `M-` an open range and
/// `M-N` a closed one. A range that does not fit in `total` is ignored too.
pub open spec fn byte_range_outcome(b: Seq<char>, total: u64) -> Result<Option<Range>, Seq<char>> {
    if b.contains(',') {
        Ok(None)
    } else if b.len() > 0 && b[0] == '-' {
        match parse_u64_spec(b.drop_first()) {
            None => Err("invalid range number"@),
            Some(n) => if n >= total { Ok(None) } else { Ok(Some(Range { start: (total - n) as u64, end: total })) },
        }
    } else if b.len() > 0 && b.last() == '-' {
        match parse_u64_spec(b.drop_last()) {
            None => Err("invalid range number"@),
            Some(s) => if s >= total { Ok(None) } else { Ok(Some(Range { start: s, end: total })) },
        }
    } else if b.contains('-') {
        let h = choose|h: int| is_first_index(b, '-', h);
        match (parse_u64_spec(b.subrange(0, h)), parse_u64_spec(b.subrange(h + 1, b.len() as int))) {
            (Some(s), Some(e)) => if e >= total || s > e { Ok(None) } else { Ok(Some(Range { start: s, end: (e + 1) as u64 })) },
            _ => Err("invalid range number"@),
        }
    } else {
        Err("invalid range"@)
    }
}

/// The outcome for a whole `Range` header value against content of `total` bytes.
pub open spec fn range_header_outcome(v: Seq<char>, total: u64) -> Result<Option<Range>, Seq<char>> {
    if !("bytes="@.is_prefix_of(v)) {
        Err("invalid range unit"@)
    } else {
        byte_range_outcome(trim_of(v.subrange(6, v.len() as int)), total)
    }
}

/// Parses the text that follows `bytes=` in a `Range` header, once trimmed.
pub fn parse_byte_range(spec_text: &str, total_len: u64) -> (r: Result<Option<Range>, &'static str>)
    ensures
        outcome_view(r) == byte_range_outcome(spec_text@, total_len),
{
    let b = chars_of(spec_text);
    let n = b.len();
    let mut i: usize = 0;
    let mut comma = false;
    let mut dash: Option<usize> = None;
    while i < n
        invariant
            n == b@.len(),
            b@ == spec_text@,
            i <= n,
            comma == (exists|k: int| 0 <= k < i && b@[k] == ','),
            match dash {
                None => forall|k: int| 0 <= k < i ==> b@[k] != '-',
                Some(h) => is_first_index(b@, '-', h as int),
            },
        decreases n - i,
    {
        if b[i] == ',' {
            comma = true;
        }
        if b[i] == '-' && dash.is_none() {
            dash = Some(i);
        }
        i += 1;
    }
    proof {
        if comma {
            let k = choose|k: int| 0 <= k < i && b@[k] == ',';
            assert(b@.contains(','));
        } else {
            assert(!b@.contains(','));
        }
        if dash.is_none() {
            assert(!b@.contains('-'));
        }
    }
    if comma {
        return Ok(None);
    }
    if n > 0 && b[0] == '-' {
        assert(b@.subrange(1, n as int) =~= b@.drop_first());
        match parse_u64(&b, 1, n) {
            None => Err("invalid range number"),
            Some(s) => if s >= total_len { Ok(None) } else { Ok(Some(Range { start: total_len - s, end: total_len })) },
        }
    } else if n > 0 && b[n - 1] == '-' {
        assert(b@.subrange(0, n - 1) =~= b@.drop_last());
        match parse_u64(&b, 0, n - 1) {
            None => Err("invalid range number"),
            Some(s) => if s >= total_len { Ok(None) } else { Ok(Some(Range { start: s, end: total_len })) },
        }
    } else if let Some(h) = dash {
        proof {
            assert(b@.contains('-'));
            let c = choose|h: int| is_first_index(b@, '-', h);
            assert(c == h as int);
        }
        let s = parse_u64(&b, 0, h);
        let e = parse_u64(&b, h + 1, n);
        match (s, e) {
            (Some(s), Some(e)) => if e >= total_len || s > e { Ok(None) } else { Ok(Some(Range { start: s, end: e + 1 })) },
            _ => Err("invalid range number"),
        }
    } else {
        Err("invalid range")
    }
}

/// Parses an HTTP `Range` header value against content of `total_len` bytes.
///
/// `Ok(Some(range))` for a single satisfiable range, `Ok(None)` for a range
/// that is unsupported or does not fit (the full content is served), and
/// `Err(message)` when the value cannot be read.
pub fn parse_range(range_val: &str, total_len: u64) -> (r: Result<Option<Range>, &'static str>)
    ensures
        outcome_view(r) == range_header_outcome(range_val@, total_len),
{
    let v = chars_of(range_val);
    proof {
        reveal_strlit("bytes=");
    }
    let n = v.len();
    if n < 6 || v[0] != 'b' || v[1] != 'y' || v[2] != 't' || v[3] != 'e' || v[4] != 's' || v[5] != '=' {
        proof {
            if "bytes="@.is_prefix_of(range_val@) {
                assert(range_val@[0] == "bytes="@[0]);
                assert(range_val@[1] == "bytes="@[1]);
                assert(range_val@[2] == "bytes="@[2]);
                assert(range_val@[3] == "bytes="@[3]);
                assert(range_val@[4] == "bytes="@[4]);
                assert(range_val@[5] == "bytes="@[5]);
            }
        }
        return Err("invalid range unit");
    }
    assert(range_val@.subrange(0, 6) =~= "bytes="@);
    assert("bytes="@.is_prefix_of(range_val@));
    let rest = range_val.substring_char(6, n);
    parse_byte_range(trim(rest), total_len)
}

/// A response header: name and value.
pub struct Header {
    pub name: String,
    pub value: String,
}

/// What to send in answer to a request for some content: the status, the
/// headers, and which bytes of the content form the body.
pub struct ResponsePlan {
    pub status: u16,
    pub headers: Vec<Header>,
    pub range: Range,
}

/// The range that a request asks for and that will be served: the `Range`
/// header is looked at only when `If-Range` is absent or equals the ETag, and
/// only a single satisfiable range counts.
pub open spec fn effective_range(range_header: Option<Seq<char>>, if_range: Option<Seq<char>>, etag: Seq<char>, full_len: u64) -> Option<Range> {
    match range_header {
        Some(v) => if if_range is None || if_range == Some(etag) {
            match range_header_outcome(v, full_len) {
                Ok(Some(r)) => Some(r),
                _ => None,
            }
        } else {
            None
        },
        None => None,
    }
}

/// `Content-Range` value for `r` of content of `full_len` bytes: `bytes S-E/L`.
pub open spec fn content_range_text(r: Range, full_len: u64) -> Seq<char> {
    "bytes "@ + decimal(r.start as nat) + "-"@ + decimal((r.end - 1) as nat) + "/"@ + decimal(full_len as nat)
}

pub open spec fn header_view(h: Header) -> (Seq<char>, Seq<char>) {
    (h.name@, h.value@)
}

/// The headers of a response: type, range support, ETag and file name always,
/// `Content-Range` for a partial response, and the body's length last.
pub open spec fn response_headers(content_type: Seq<char>, etag: Seq<char>, filename: Seq<char>, range: Option<Range>, full_len: u64, body_len: nat) -> Seq<(Seq<char>, Seq<char>)> {
    seq![
        ("content-type"@, content_type),
        ("accept-ranges"@, "bytes"@),
        ("etag"@, etag),
        ("content-disposition"@, "attachment; filename=\""@ + filename + "\""@),
    ] + (match range {
        Some(r) => seq![("content-range"@, content_range_text(r, full_len))],
        None => seq![],
    }) + seq![("content-length"@, decimal(body_len))]
}

fn header(name: &str, value: String) -> (r: Header)
    ensures
        r.name@ == name@,
        r.value@ == value@,
{
    Header { name: String::from_str(name), value }
}

/// Decides the answer to a request for content of `full_len` bytes, given the
/// request's `Range` and `If-Range` header values. A request whose range is
/// served gets 206 and `Content-Range`; any other gets 200 and the whole
/// content. In particular a mismatched `If-Range` gives the whole content.
pub fn plan_response(
    range_header: Option<&str>,
    if_range: Option<&str>,
    content_type: &str,
    etag: &str,
    filename: &str,
    full_len: u64,
) -> (r: ResponsePlan)
    ensures
        ({
            let eff = effective_range(
                match range_header { Some(v) => Some(v@), None => None },
                match if_range { Some(v) => Some(v@), None => None },
                etag@,
                full_len,
            );
            &&& r.status == (if eff is Some { 206u16 } else { 200u16 })
            &&& r.range == (match eff { Some(x) => x, None => Range { start: 0, end: full_len } }).limit_end_spec(full_len)
            &&& r.headers@.map_values(|h: Header| header_view(h))
                == response_headers(content_type@, etag@, filename@, eff, full_len, r.range.spec_len())
            &&& r.range.wf() && r.range.end <= full_len
        }),
        match if_range {
            Some(v) => v@ != etag@ ==> r.status == 200 && r.range == (Range { start: 0, end: full_len }),
            None => true,
        },
{
    let range = match range_header {
        Some(v) => {
            let allowed = match if_range {
                Some(ir) => str_eq(ir, etag),
                None => true,
            };
            if allowed {
                match parse_range(v, full_len) {
                    Ok(Some(r)) => Some(r),
                    _ => None,
                }
            } else {
                None
            }
        },
        None => None,
    };
    proof {
        reveal_strlit("bytes ");
        reveal_strlit("-");
        reveal_strlit("/");
    }
    let mut headers: Vec<Header> = Vec::new();
    headers.push(header("content-type", String::from_str(content_type)));
    headers.push(header("accept-ranges", String::from_str("bytes")));
    headers.push(header("etag", String::from_str(etag)));
    let mut disposition = String::from_str("attachment; filename=\"");
    disposition.append(filename);
    disposition.append("\"");
    headers.push(header("content-disposition", disposition));
    let status: u16 = match range {
        Some(r) => {
            let mut text = String::from_str("bytes ");
            push_decimal(&mut text, r.start);
            text.append("-");
            push_decimal(&mut text, r.end - 1);
            text.append("/");
            push_decimal(&mut text, full_len);
            headers.push(header("content-range", text));
            206
        },
        None => 200,
    };
    let served = match range {
        Some(r) => r,
        None => Range { start: 0, end: full_len },
    }.limit_end(full_len);
    let mut length = String::new();
    push_decimal(&mut length, served.len());
    headers.push(header("content-length", length));
    let ghost hv = headers@.map_values(|h: Header| header_view(h));
    assert(hv =~= response_headers(content_type@, etag@, filename@, range, full_len, served.spec_len()));
    ResponsePlan { status, headers, range: served }
}

/// Progress of a response body: bytes delivered of the expected length, and
/// whether the stream reported an error.
pub struct StreamProgress {
    pub pos: u64,
    pub len: u64,
    pub errored: bool,
}

/// How a download ended: `complete` once the expected bytes went out,
/// otherwise `failed` after a stream error, else `canceled`.
pub open spec fn download_status(pos: u64, len: u64, errored: bool) -> Seq<char> {
    if pos >= len { "complete"@ } else if errored { "failed"@ } else { "canceled"@ }
}

impl StreamProgress {
    /// A download of `len` bytes that has not started.
    pub fn new(len: u64) -> (r: StreamProgress)
        ensures
            r.pos == 0 && r.len == len && !r.errored,
    {
        StreamProgress { pos: 0, len, errored: false }
    }

    /// A chunk of `n` bytes went out.
    pub fn on_chunk(&mut self, n: u64)
        ensures
            final(self).pos == crate::zip::sat_add(old(self).pos, n),
            final(self).len == old(self).len,
            final(self).errored == old(self).errored,
    {
        self.pos = self.pos.saturating_add(n);
    }

    /// The stream reported an error.
    pub fn on_error(&mut self)
        ensures
            final(self).pos == old(self).pos,
            final(self).len == old(self).len,
            final(self).errored,
    {
        self.errored = true;
    }

    /// How the download ended, when the body is dropped.
    pub fn status(&self) -> (r: &'static str)
        ensures
            r@ == download_status(self.pos, self.len, self.errored),
    {
        if self.pos >= self.len {
            "complete"
        } else if self.errored {
            "failed"
        } else {
            "canceled"
        }
    }
}

} // verus!
