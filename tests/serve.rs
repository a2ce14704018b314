use bytes::Bytes;
use zipstream::serve_range::{plan_response, ResponsePlan, StreamProgress};
use zipstream::stream_range::{bytes_range, Range, StreamRange};

fn header<'a>(plan: &'a ResponsePlan, name: &str) -> Option<&'a str> {
    plan.headers.iter().find(|h| h.name == name).map(|h| h.value.as_str())
}

fn body(data: &Bytes, plan: &ResponsePlan) -> Bytes {
    bytes_range(data, plan.range)
}

#[test]
fn test_base_hyper_response() {
    let data = Bytes::from_static(b"0123456789");

    let res = plan_response(None, None, "application/test", "ETAG", "foo.zip", StreamRange::len(&data));

    assert_eq!(res.status, 200);
    assert_eq!(header(&res, "content-type"), Some("application/test"));
    assert_eq!(header(&res, "content-disposition"), Some("attachment; filename=\"foo.zip\""));
    assert_eq!(header(&res, "etag"), Some("ETAG"));
    assert_eq!(header(&res, "content-length"), Some("10"));
    assert_eq!(&body(&data, &res)[..], b"0123456789");
}

#[test]
fn test_range_hyper_response() {
    let data = Bytes::from_static(b"0123456789");

    let res = plan_response(Some("bytes=4-8"), Some("ETAG"), "application/test", "ETAG", "foo.zip", StreamRange::len(&data));

    assert_eq!(res.status, 206);
    assert_eq!(header(&res, "content-type"), Some("application/test"));
    assert_eq!(header(&res, "etag"), Some("ETAG"));
    assert_eq!(header(&res, "content-length"), Some("5"));
    assert_eq!(header(&res, "content-range"), Some("bytes 4-8/10"));
    assert_eq!(&body(&data, &res)[..], b"45678");
}

#[test]
fn test_bad_if_range_hyper_response() {
    let data = Bytes::from_static(b"0123456789");

    let res = plan_response(Some("bytes=4-8"), Some("WRONG"), "application/test", "ETAG", "foo.zip", StreamRange::len(&data));

    assert_eq!(res.status, 200);
    assert_eq!(header(&res, "content-length"), Some("10"));
    assert_eq!(header(&res, "content-range"), None);
    assert_eq!(&body(&data, &res)[..], b"0123456789");
}

#[test]
fn response_headers_in_order() {
    let res = plan_response(Some("bytes=0-9"), None, "application/zip", "abc", "a.zip", 243);
    let names: Vec<&str> = res.headers.iter().map(|h| h.name.as_str()).collect();
    assert_eq!(names, vec!["content-type", "accept-ranges", "etag", "content-disposition", "content-range", "content-length"]);
    assert_eq!(header(&res, "accept-ranges"), Some("bytes"));
    assert_eq!(header(&res, "content-range"), Some("bytes 0-9/243"));
    assert_eq!(res.range, Range { start: 0, end: 10 });
}

#[test]
fn unusable_range_serves_everything() {
    for (range, if_range) in [
        (Some("bytes=20-30"), None),
        (Some("lines=1-2"), None),
        (Some("bytes=x-"), None),
        (Some("bytes=1-2,4-5"), None),
        (Some("bytes=1-2"), Some("other")),
    ] {
        let res = plan_response(range, if_range, "t", "e", "f", 10);
        assert_eq!(res.status, 200);
        assert_eq!(res.range, Range { start: 0, end: 10 });
        assert_eq!(header(&res, "content-length"), Some("10"));
    }
}

#[test]
fn progress_reports_how_a_download_ended() {
    let mut p = StreamProgress::new(10);
    assert_eq!(p.status(), "canceled");
    p.on_chunk(4);
    p.on_error();
    assert_eq!(p.status(), "failed");
    p.on_chunk(6);
    assert_eq!(p.status(), "complete");
    let mut q = StreamProgress::new(5);
    q.on_chunk(u64::MAX);
    q.on_chunk(1);
    assert_eq!(q.pos, u64::MAX);
    assert_eq!(q.status(), "complete");
}
