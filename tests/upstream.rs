use bytes::Bytes;
use zipstream::error::error_chain_text;
use zipstream::s3url::S3Url;
use zipstream::serve_range::plan_response;
use zipstream::stream_range::{bytes_range, Range, StreamRange};
use zipstream::upstream::{manifest_etag, request, sort_entries, UpstreamResponse, ZipFileDescription};
use zipstream::zip::{zip_stream, UtcTime, ZipEntry, ZipOptions, ZipPart};
use zipstream::Config;

fn config() -> Config {
    Config {
        upstream: "http://manifests.example".into(),
        strip_prefix: "/zip".into(),
        via_zip_stream_header_value: "true".into(),
    }
}

fn desc(name: &str, source: &str, length: u64, crc: u32, secs: i64) -> ZipFileDescription {
    ZipFileDescription {
        archive_name: name.into(),
        source: S3Url::parse(source).unwrap(),
        length,
        crc,
        last_modified: UtcTime::from_timestamp(secs, 0).unwrap(),
    }
}

#[test]
fn non_get_is_not_allowed() {
    let r = request(&config(), "POST", "/zip/a", &Vec::new());
    assert_eq!(r.err(), Some((405, "Only GET requests allowed")));
}

#[test]
fn path_outside_prefix_is_not_found() {
    let r = request(&config(), "GET", "/other/a", &Vec::new());
    assert_eq!(r.err(), Some((404, "Not found")));
}

#[test]
fn request_forwards_selected_headers() {
    let headers = vec![
        ("accept".to_string(), b"*/*".to_vec()),
        ("cookie".to_string(), b"c=1".to_vec()),
        ("authorization".to_string(), b"Bearer t".to_vec()),
        ("cookie".to_string(), b"c=2".to_vec()),
        ("referer".to_string(), b"http://r".to_vec()),
    ];
    let r = request(&config(), "GET", "/zip/files/1?x=y", &headers).ok().unwrap();
    assert_eq!(r.uri, "http://manifests.example/files/1?x=y");
    let got: Vec<(&str, &[u8])> = r.headers.iter().map(|(n, v)| (n.as_str(), v.as_slice())).collect();
    assert_eq!(got, vec![
        ("x-via-zip-stream", &b"true"[..]),
        ("authorization", &b"Bearer t"[..]),
        ("cookie", &b"c=1"[..]),
        ("referer", &b"http://r"[..]),
    ]);
}

#[test]
fn sort_orders_by_all_fields() {
    let sorted = sort_entries(vec![
        desc("b", "s3://x/k", 1, 1, 0),
        desc("a", "s3://y/k", 1, 1, 0),
        desc("a", "s3://x/k", 2, 1, 0),
        desc("a", "s3://x/k", 1, 1, 5),
        desc("a", "s3://x/k", 1, 1, 0),
        desc("a", "s3://x/k", 1, 1, 0),
    ]);
    let keys: Vec<(String, String, u64, i64)> = sorted
        .iter()
        .map(|d| (d.archive_name.clone(), d.source.bucket.clone(), d.length, d.last_modified.timestamp()))
        .collect();
    assert_eq!(keys, vec![
        ("a".to_string(), "x".to_string(), 1, 0),
        ("a".to_string(), "x".to_string(), 1, 0),
        ("a".to_string(), "x".to_string(), 1, 5),
        ("a".to_string(), "x".to_string(), 2, 0),
        ("a".to_string(), "y".to_string(), 1, 0),
        ("b".to_string(), "x".to_string(), 1, 0),
    ]);
}

#[test]
fn etag_is_stable_and_order_free_after_sorting() {
    let one = UpstreamResponse {
        filename: "f.zip".into(),
        entries: sort_entries(vec![desc("a", "s3://x/1", 3, 7, 10), desc("b", "s3://x/2", 4, 8, 20)]),
    };
    let two = UpstreamResponse {
        filename: "f.zip".into(),
        entries: sort_entries(vec![desc("b", "s3://x/2", 4, 8, 20), desc("a", "s3://x/1", 3, 7, 10)]),
    };
    let e1 = manifest_etag(&one);
    assert_eq!(e1.len(), 16);
    assert!(e1.chars().all(|c| c.is_ascii_hexdigit() && !c.is_ascii_uppercase()));
    assert_eq!(e1, manifest_etag(&two));
    let other = UpstreamResponse { filename: "g.zip".into(), entries: Vec::new() };
    assert_ne!(e1, manifest_etag(&other));
}

#[test]
fn etag_of_empty_manifest() {
    // FNV-1a of the 8 + 0 + 8 bytes "name length 0, no name, 0 entries".
    let mut h: u64 = 0xcbf2_9ce4_8422_2325;
    for _ in 0..16 {
        h = h.wrapping_mul(0x100_0000_01b3);
    }
    let res = UpstreamResponse { filename: String::new(), entries: Vec::new() };
    assert_eq!(manifest_etag(&res), format!("{:016x}", h));
}

#[test]
fn error_chain_lists_causes() {
    assert_eq!(error_chain_text(&vec!["top".to_string(), "mid".to_string(), "root".to_string()]), "top\n  : mid\n  : root");
    assert_eq!(error_chain_text(&vec!["only".to_string()]), "only");
    assert_eq!(error_chain_text(&Vec::new()), "");
}

fn in_memory(name: &str, data: &'static [u8], crc: u32, when: &str) -> ZipEntry<Bytes> {
    let t = when.parse::<chrono::DateTime<chrono::Utc>>().unwrap();
    ZipEntry {
        archive_path: name.into(),
        data: Bytes::from_static(data),
        crc,
        last_modified: UtcTime::from_timestamp(t.timestamp(), t.timestamp_subsec_nanos()).unwrap(),
    }
}

fn read_all(plan_range: Range, zip: &zipstream::stream_range::Concatenated<ZipPart<Bytes>>) -> Vec<u8> {
    let mut out = Vec::new();
    for (i, r) in zip.stream_plan(plan_range) {
        let chunk = match &zip.0[i] {
            ZipPart::Header(b) => bytes_range(b, r),
            ZipPart::Data(d) => bytes_range(d, r),
        };
        out.extend_from_slice(&chunk);
    }
    out
}

#[test]
fn archive_range_with_matching_if_range() {
    let entries = vec![
        in_memory("foo.txt", b"xx", 0xf8e1180f, "2006-11-10T15:40:56Z"),
        in_memory("bar.txt", b"ABC", 0xa3830348, "2018-12-06T20:15:59Z"),
    ];
    let zip = zip_stream(entries, ZipOptions::default());
    let len = zip.len();
    let full = plan_response(None, None, "application/zip", "tag", "a.zip", len);
    assert_eq!(full.status, 200);
    assert_eq!(full.headers.last().unwrap().value, len.to_string());
    let whole = read_all(full.range, &zip);
    assert_eq!(whole.len() as u64, len);

    let part = plan_response(Some("bytes=0-9"), Some("tag"), "application/zip", "tag", "a.zip", len);
    assert_eq!(part.status, 206);
    assert!(part.headers.iter().any(|h| h.name == "content-range" && h.value == format!("bytes 0-9/{}", len)));
    assert_eq!(read_all(part.range, &zip), whole[..10].to_vec());

    let wrong = plan_response(Some("bytes=0-9"), Some("WRONG"), "application/zip", "tag", "a.zip", len);
    assert_eq!(wrong.status, 200);
    assert_eq!(read_all(wrong.range, &zip), whole);
}
