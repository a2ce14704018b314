use zipstream::serve_range::{parse_byte_range, parse_range};
use zipstream::stream_range::{Range, S3Object, StreamRange};

#[test]
fn test_range() {
    assert_eq!(parse_range("lines=0-10", 1000), Err("invalid range unit"));

    assert_eq!(parse_range("bytes=500-", 1000), Ok(Some(Range { start: 500, end: 1000 })));
    assert_eq!(parse_range("bytes=2000-", 1000), Ok(None));

    assert_eq!(parse_range("bytes=-100", 1000), Ok(Some(Range { start: 900, end: 1000 })));
    assert_eq!(parse_range("bytes=-2000", 1000), Ok(None));

    assert_eq!(parse_range("bytes=100-200", 1000), Ok(Some(Range { start: 100, end: 201 })));
    assert_eq!(parse_range("bytes=500-999", 1000), Ok(Some(Range { start: 500, end: 1000 })));
    assert_eq!(parse_range("bytes=500-1000", 1000), Ok(None));
    assert_eq!(parse_range("bytes=200-100", 1000), Ok(None));
    assert_eq!(parse_range("bytes=1500-2000", 1000), Ok(None));

    assert_eq!(parse_range("bytes=", 1000), Err("invalid range"));
    assert_eq!(parse_range("bytes=a-", 1000), Err("invalid range number"));
    assert_eq!(parse_range("bytes=a-b", 1000), Err("invalid range number"));
    assert_eq!(parse_range("bytes=-b", 1000), Err("invalid range number"));
}

#[test]
fn range_parse_edge_cases() {
    assert_eq!(parse_range("bytes=0-0,5-9", 1000), Ok(None));
    assert_eq!(parse_range("bytes= 10-19 ", 1000), Ok(Some(Range { start: 10, end: 20 })));
    assert_eq!(parse_range("bytes=+5-+6", 1000), Ok(Some(Range { start: 5, end: 7 })));
    assert_eq!(parse_range("bytes=-", 1000), Err("invalid range number"));
    assert_eq!(parse_range("bytes=--5", 1000), Err("invalid range number"));
    assert_eq!(parse_range("bytes=18446744073709551616-", 1000), Err("invalid range number"));
    assert_eq!(parse_range("bytes=-0", 1000), Ok(Some(Range { start: 1000, end: 1000 })));
    assert_eq!(parse_range("bytes=999-", 1000), Ok(Some(Range { start: 999, end: 1000 })));
    assert_eq!(parse_range("bytes=0-", 0), Ok(None));
    assert_eq!(parse_range("bytes", 1000), Err("invalid range unit"));
    assert_eq!(parse_byte_range("5-9", 1000), Ok(Some(Range { start: 5, end: 10 })));
    assert_eq!(parse_byte_range("", 1000), Err("invalid range"));
}

#[test]
fn range_take_prefix_splits_and_shifts() {
    let mut r = Range { start: 5, end: 15 };
    assert_eq!(r.take_prefix(10), Some(Range { start: 5, end: 10 }));
    assert_eq!(r, Range { start: 0, end: 5 });
    assert_eq!(r.take_prefix(3), Some(Range { start: 0, end: 3 }));
    assert_eq!(r, Range { start: 0, end: 2 });
    let mut s = Range { start: 20, end: 30 };
    assert_eq!(s.take_prefix(10), None);
    assert_eq!(s, Range { start: 10, end: 20 });
    assert_eq!(Range { start: 3, end: 10 }.len(), 7);
    assert_eq!(Range { start: 3, end: 10 }.limit_end(8), Range { start: 3, end: 8 });
}

#[test]
fn range_http_header_is_closed() {
    assert_eq!(Range { start: 0, end: 10 }.to_http_range_header(), "bytes=0-9");
    assert_eq!(Range { start: 1234, end: 98766 }.to_http_range_header(), "bytes=1234-98765");
    assert_eq!(Range { start: 0, end: u64::MAX }.to_http_range_header(), "bytes=0-18446744073709551614");
}

#[test]
fn s3_object_requests_closed_ranges() {
    let config = aws_sdk_s3::Config::builder()
        .behavior_version(aws_sdk_s3::config::BehaviorVersion::latest())
        .region(aws_sdk_s3::config::Region::new("us-east-1"))
        .build();
    let object = S3Object {
        client: aws_sdk_s3::Client::from_conf(config),
        bucket: "b".into(),
        key: "k".into(),
        len: 1000,
    };
    assert_eq!(StreamRange::len(&object), 1000);
    assert_eq!(object.range_header(Range { start: 10, end: 20 }), "bytes=10-19");
    assert!(S3Object::length_matches(Some(10), Range { start: 10, end: 20 }));
    assert!(!S3Object::length_matches(Some(9), Range { start: 10, end: 20 }));
    assert!(!S3Object::length_matches(None, Range { start: 10, end: 20 }));
}
