use bytes::Bytes;
use zipstream::stream_range::{bytes_range, Concatenated, Range, StreamRange};
use zipstream::zip::{
    dos_date, dos_time, end_of_central_directory, fits_entry_name, zip_date, zip_stream, zip_time, UtcTime,
    ZipEntry, ZipOptions, ZipPart,
};

fn time(text: &str) -> UtcTime {
    let t = text.parse::<chrono::DateTime<chrono::Utc>>().unwrap();
    UtcTime::from_timestamp(t.timestamp(), t.timestamp_subsec_nanos()).unwrap()
}

fn test_entries() -> Vec<ZipEntry<Bytes>> {
    vec![
        ZipEntry {
            archive_path: "foo.txt".into(),
            data: Bytes::from_static(&b"xx"[..]),
            crc: 0xf8e1180f,
            last_modified: time("2006-11-10T15:40:56Z"),
        },
        ZipEntry {
            archive_path: "bar.txt".into(),
            data: Bytes::from_static(&b"ABC"[..]),
            crc: 0xa3830348,
            last_modified: time("2018-12-06T20:15:59Z"),
        },
    ]
}

fn read(zip: &Concatenated<ZipPart<Bytes>>, range: Range) -> Vec<u8> {
    let mut out = Vec::new();
    for (i, r) in zip.stream_plan(range) {
        let chunk = match &zip.0[i] {
            ZipPart::Header(b) => bytes_range(b, r),
            ZipPart::Data(d) => bytes_range(d, r),
        };
        out.extend_from_slice(&chunk);
    }
    out
}

fn u16_at(b: &[u8], at: usize) -> u16 {
    u16::from_le_bytes([b[at], b[at + 1]])
}

fn u32_at(b: &[u8], at: usize) -> u32 {
    u32::from_le_bytes([b[at], b[at + 1], b[at + 2], b[at + 3]])
}

fn contains(hay: &[u8], needle: &[u8]) -> bool {
    hay.windows(needle.len()).any(|w| w == needle)
}

#[test]
fn test_zip_date_time() {
    let t = time("2006-10-11T15:40:56Z");
    assert_eq!(zip_time(&t), 0x7d1c);
    assert_eq!(zip_date(&t), 0x354b);
}

#[test]
fn dos_fields_pack_bits() {
    assert_eq!(dos_time(15, 40, 56), 0x7d1c);
    assert_eq!(dos_date(2006, 10, 11), 0x354b);
    assert_eq!(dos_date(1975, 1, 1), 1 | 1 << 5);
    assert_eq!(dos_time(23, 59, 59), 29 | 59 << 5 | 23 << 11);
    let t = time("1970-01-01T00:00:00Z");
    assert_eq!((t.year(), t.month(), t.day(), t.hour(), t.minute(), t.second()), (1970, 1, 1, 0, 0, 0));
    assert_eq!(zip_date(&t), 1 | 1 << 5);
}

/// Exhaustively checks that all subranges give the same bytes as a slice of the whole.
#[test]
fn test_concat() {
    let zip = zip_stream(test_entries(), ZipOptions::default());
    let buf = read(&zip, Range { start: 0, end: zip.len() });

    assert_eq!(zip.len(), buf.len() as u64);

    for start in 0..zip.len() {
        for end in start..zip.len() {
            let slice = read(&zip, Range { start, end });
            assert_eq!(buf[start as usize..end as usize], slice[..], "{} {}", start, end);
        }
    }
}

#[test]
fn zip32_archive_layout() {
    let zip = zip_stream(test_entries(), ZipOptions { force_zip64: false });
    assert_eq!(zip.len(), 243);
    let buf = read(&zip, Range { start: 0, end: zip.len() });
    assert_eq!(buf.len(), 243);
    assert_eq!(u32_at(&buf, 0), 0x04034b50);
    assert_eq!(&buf[30..37], b"foo.txt");
    assert_eq!(&buf[46..48], b"xx");
    assert_eq!(u32_at(&buf, 48), 0x04034b50);
    assert_eq!(&buf[94..97], b"ABC");
    let eocd = buf.len() - 22;
    assert_eq!(u32_at(&buf, eocd), 0x06054b50);
    assert_eq!(u16_at(&buf, eocd + 10), 2);
    let cd_size = u32_at(&buf, eocd + 12) as usize;
    let cd_offset = u32_at(&buf, eocd + 16) as usize;
    assert_eq!((cd_offset, cd_size), (97, 124));
    assert_eq!(u32_at(&buf, cd_offset), 0x02014b50);
    assert_eq!(u32_at(&buf, cd_offset + 16), 0xf8e1180f);
    assert_eq!(u32_at(&buf, cd_offset + 42), 0);
    assert_eq!(u32_at(&buf, cd_offset + 62), 0x02014b50);
    assert_eq!(u32_at(&buf, cd_offset + 62 + 42), 48);
    assert!(!contains(&buf, &0x06064b50u32.to_le_bytes()));
}

#[test]
fn zip64_archive_layout() {
    let zip = zip_stream(test_entries(), ZipOptions { force_zip64: true });
    assert_eq!(zip.len(), 415);
    let buf = read(&zip, Range { start: 0, end: zip.len() });
    assert_eq!(buf.len(), 415);
    assert!(contains(&buf, &0x06064b50u32.to_le_bytes()));
    assert!(contains(&buf, &0x07064b50u32.to_le_bytes()));
    assert_eq!(u16_at(&buf, 4), 45);
    assert_eq!(u32_at(&buf, 18), 0xFFFF_FFFF);
    let eocd = buf.len() - 22;
    assert_eq!(u32_at(&buf, eocd), 0x06054b50);
    assert_eq!(u32_at(&buf, eocd - 20), 0x07064b50);
    assert_eq!(u32_at(&buf, eocd - 76), 0x06064b50);
}

#[test]
fn empty_archive_is_a_trailer() {
    let zip = zip_stream(Vec::<ZipEntry<Bytes>>::new(), ZipOptions::default());
    let buf = read(&zip, Range { start: 0, end: zip.len() });
    assert_eq!(buf, end_of_central_directory(0, 0, 0, false));
    assert_eq!(buf.len(), 22);
    assert!(read(&zip, Range { start: 5, end: 5 }).is_empty());
}

#[test]
fn large_counts_use_zip64_trailer() {
    let t = end_of_central_directory(0x1_0000_0000, 10, 3, false);
    assert_eq!(t.len(), 98);
    assert_eq!(u32_at(&t, 76 + 16), 0xFFFF_FFFF);
    let t = end_of_central_directory(100, 10, 0x1_0000, false);
    assert_eq!(t.len(), 98);
    assert_eq!(u16_at(&t, 76 + 10), 0xFFFF);
    let t = end_of_central_directory(0xFFFF_FFFF, 10, 0xFFFF, false);
    assert_eq!(t.len(), 22);
}

#[test]
fn entry_names_fit_sixteen_bits() {
    assert!(fits_entry_name("foo.txt"));
    assert!(fits_entry_name(&"a".repeat(65535)));
    assert!(!fits_entry_name(&"a".repeat(65536)));
    assert!(!fits_entry_name(&"\u{e9}".repeat(40000)));
}

#[test]
fn in_memory_slices() {
    let b = Bytes::from_static(b"0123456789");
    assert_eq!(&bytes_range(&b, Range { start: 4, end: 9 })[..], b"45678");
    assert_eq!(StreamRange::len(&b), 10);
}

#[test]
fn empty_entries_keep_every_subrange() {
    let entries = vec![
        ZipEntry { archive_path: "e".into(), data: Bytes::new(), crc: 0, last_modified: time("2020-01-01T00:00:00Z") },
        ZipEntry { archive_path: "d/f".into(), data: Bytes::from_static(b"z"), crc: 0x350c_a8af, last_modified: time("2020-01-01T00:00:02Z") },
        ZipEntry { archive_path: "g".into(), data: Bytes::new(), crc: 0, last_modified: time("2020-01-01T00:00:04Z") },
    ];
    let zip = zip_stream(entries, ZipOptions::default());
    let buf = read(&zip, Range { start: 0, end: zip.len() });
    assert_eq!(buf.len() as u64, zip.len());
    for start in 0..=zip.len() {
        for end in start..=zip.len() {
            assert_eq!(buf[start as usize..end as usize], read(&zip, Range { start, end })[..], "{} {}", start, end);
        }
    }
    assert_eq!(read(&zip, Range { start: zip.len() - 3, end: zip.len() + 100 }), buf[buf.len() - 3..].to_vec());
}

#[test]
fn times_through_year_9999_are_representable() {
    let t = UtcTime::from_timestamp(253_402_300_799, 0).unwrap();
    assert_eq!((t.year(), t.month(), t.day(), t.hour(), t.minute(), t.second()), (9999, 12, 31, 23, 59, 59));
    assert!(UtcTime::from_timestamp(0, 0).is_some());
}
