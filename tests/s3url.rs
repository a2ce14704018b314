use zipstream::s3url::{ParseS3UrlError, S3Url};

#[test]
fn test_s3url() {
    let parsed = "s3://bucketname/bar/baz.jpg".parse::<S3Url>();
    assert_eq!(parsed, Ok(S3Url { bucket: "bucketname".into(), key: "bar/baz.jpg".into() }));
    assert_eq!(parsed.unwrap().to_string(), "s3://bucketname/bar/baz.jpg");

    assert_eq!("http://foo/bar".parse::<S3Url>(), Err(ParseS3UrlError));
    assert_eq!("s3://foo".parse::<S3Url>(), Err(ParseS3UrlError));
}

#[test]
fn s3url_rejects_empty_parts() {
    assert_eq!(S3Url::parse("s3:///key"), Err(ParseS3UrlError));
    assert_eq!(S3Url::parse("s3://bucket/"), Err(ParseS3UrlError));
    assert_eq!(S3Url::parse("S3://bucket/key"), Err(ParseS3UrlError));
    assert_eq!(ParseS3UrlError.to_string(), "Invalid s3:// URL");
}

#[test]
fn s3url_key_keeps_slashes_and_round_trips() {
    let u = S3Url::parse("s3://b\u{e9}/x//y/").unwrap();
    assert_eq!(u.bucket, "b\u{e9}");
    assert_eq!(u.key, "x//y/");
    assert_eq!(S3Url::parse(&u.to_string()), Ok(u));
    assert_eq!(S3Url::parse("s3://bucket/a\nb"), Ok(S3Url { bucket: "bucket".into(), key: "a\nb".into() }));
}
