//! References to objects in an S3 bucket, written `s3://<bucket>/<key>`.
use vstd::prelude::*;
use crate::serve_range::is_first_index;
use crate::text::chars_of;

verus! {

/// A reference to a file on Amazon S3 by bucket and key.
#[derive(Clone, Debug, PartialEq, Eq, PartialOrd, Ord, Hash)]
pub struct S3Url {
    pub bucket: String,
    pub key: String,
}

/// The error for text that is not an `s3://` URL.
#[derive(Debug, PartialEq, Eq, Clone)]
pub struct ParseS3UrlError;

impl ParseS3UrlError {
    /// The error's message.
    pub fn to_string(&self) -> (r: String)
        ensures
            r@ == "Invalid s3:// URL"@,
    {
        String::from_str("Invalid s3:// URL")
    }
}

/// Bucket and key of `s3://<bucket>/<key>`: the bucket is one or more
/// characters up to the first `/`, the key one or more characters after it,
/// slashes included.
pub open spec fn s3url_parts(s: Seq<char>) -> Option<(Seq<char>, Seq<char>)> {
    let rest = s.subrange(5, s.len() as int);
    if "s3://"@.is_prefix_of(s) && rest.contains('/') {
        let h = choose|h: int| is_first_index(rest, '/', h);
        let key = rest.subrange(h + 1, rest.len() as int);
        if h > 0 && key.len() > 0 {
            Some((rest.subrange(0, h), key))
        } else {
            None
        }
    } else {
        None
    }
}

/// The text of a URL with `bucket` and `key`.
pub open spec fn s3url_text(bucket: Seq<char>, key: Seq<char>) -> Seq<char> {
    "s3://"@ + bucket + "/"@ + key
}

impl S3Url {
    /// Reads `s3://<bucket>/<key>`.
    pub fn parse(s: &str) -> (r: Result<S3Url, ParseS3UrlError>)
        ensures
            match s3url_parts(s@) {
                Some(parts) => r matches Ok(u) && u.bucket@ == parts.0 && u.key@ == parts.1,
                None => r is Err,
            },
    {
        proof {
            reveal_strlit("s3://");
        }
        let c = chars_of(s);
        let n = c.len();
        if n < 5 || c[0] != 's' || c[1] != '3' || c[2] != ':' || c[3] != '/' || c[4] != '/' {
            proof {
                if "s3://"@.is_prefix_of(s@) {
                    assert(s@[0] == "s3://"@[0]);
                    assert(s@[1] == "s3://"@[1]);
                    assert(s@[2] == "s3://"@[2]);
                    assert(s@[3] == "s3://"@[3]);
                    assert(s@[4] == "s3://"@[4]);
                }
            }
            return Err(ParseS3UrlError);
        }
        assert(s@.subrange(0, 5) =~= "s3://"@);
        let ghost rest = s@.subrange(5, n as int);
        let mut i: usize = 5;
        while i < n && c[i] != '/'
            invariant
                5 <= i <= n,
                n == s@.len(),
                c@ == s@,
                rest == s@.subrange(5, n as int),
                forall|k: int| 0 <= k < i - 5 ==> rest[k] != '/',
            decreases n - i,
        {
            i += 1;
        }
        if i == n {
            assert(!rest.contains('/'));
            return Err(ParseS3UrlError);
        }
        let h = i - 5;
        assert(is_first_index(rest, '/', h as int));
        assert(rest.contains('/'));
        proof {
            let g = choose|g: int| is_first_index(rest, '/', g);
            assert(g == h as int);
        }
        let ghost key = rest.subrange(h + 1, rest.len() as int);
        if h == 0 || i + 1 == n {
            assert(key.len() == n - i - 1);
            return Err(ParseS3UrlError);
        }
        let bucket = s.substring_char(5, i).to_owned();
        let key_text = s.substring_char(i + 1, n).to_owned();
        assert(bucket@ =~= rest.subrange(0, h as int));
        assert(key_text@ =~= key);
        Ok(S3Url { bucket, key: key_text })
    }

    /// The URL's text, `s3://<bucket>/<key>`.
    pub fn to_string(&self) -> (r: String)
        ensures
            r@ == s3url_text(self.bucket@, self.key@),
    {
        let mut s = String::from_str("s3://");
        s.append(self.bucket.as_str());
        s.append("/");
        s.append(self.key.as_str());
        s
    }
}

impl std::str::FromStr for S3Url {
    type Err = ParseS3UrlError;

    fn from_str(s: &str) -> Result<S3Url, ParseS3UrlError> {
        S3Url::parse(s)
    }
}

/// Printing a URL and reading the text back gives the same bucket and key,
/// for every bucket and key that a URL can hold: a bucket of one or more
/// characters without `/` and a key of one or more characters.
pub proof fn lemma_s3url_round_trip(bucket: Seq<char>, key: Seq<char>)
    requires
        bucket.len() > 0,
        !bucket.contains('/'),
        key.len() > 0,
    ensures
        s3url_parts(s3url_text(bucket, key)) == Some((bucket, key)),
{
    reveal_strlit("s3://");
    reveal_strlit("/");
    let s = s3url_text(bucket, key);
    let rest = s.subrange(5, s.len() as int);
    assert(rest =~= bucket + "/"@ + key);
    assert(s.subrange(0, 5) =~= "s3://"@);
    let h = bucket.len() as int;
    assert(rest[h] == '/');
    assert forall|k: int| 0 <= k < h implies rest[k] != '/' by {
        assert(rest[k] == bucket[k]);
    }
    assert(is_first_index(rest, '/', h));
    assert(rest.contains('/'));
    let g = choose|g: int| is_first_index(rest, '/', g);
    assert(g == h);
    assert(rest.subrange(0, h) =~= bucket);
    assert(rest.subrange(h + 1, rest.len() as int) =~= key);
}

} // verus!
