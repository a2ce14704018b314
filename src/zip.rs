//! The ZIP layout builder: local headers, entry data, central directory and
//! trailer, laid out at fixed offsets so that any byte range can be produced
//! without producing the bytes before it.
use vstd::prelude::*;
use bytes::Bytes;
use chrono::{Datelike, Timelike};
use crate::stream_range::{
    bytes_content, bytes_from_vec, lemma_total_len_take_le, lemma_total_len_take_step, lens_of, pieces, read_pieces,
    total_len, Concatenated, StreamRange,
};

verus! {

/// The civil UTC fields (year, month, day, hour, minute, second) that chrono
/// gives for a Unix time in seconds.
pub uninterp spec fn civil_of(secs: int) -> (int, int, int, int, int, int);

/// Relies on chrono's `DateTime::from_timestamp` (`None` outside chrono's range
/// of dates) and on the `Datelike` / `Timelike` accessors of its result, whose
/// documented ranges are month 1 to 12, day 1 to 31, hour 0 to 23, minute and
/// second 0 to 59. Every time from the epoch to the end of year 9999 is in
/// that range: the day count fits `i32` and the date lies within chrono's years.
#[verifier::external_body]
fn civil_from_unix(secs: i64) -> (r: Option<(i32, u32, u32, u32, u32, u32)>)
    ensures
        0 <= secs <= 253_402_300_799 ==> r is Some,
        r matches Some(c) ==> {
            &&& civil_of(secs as int) == (c.0 as int, c.1 as int, c.2 as int, c.3 as int, c.4 as int, c.5 as int)
            &&& 1 <= c.1 <= 12 && 1 <= c.2 <= 31 && c.3 <= 23 && c.4 <= 59 && c.5 <= 59
        },
{
    match chrono::DateTime::from_timestamp(secs, 0) {
        Some(t) => Some((t.year(), t.month(), t.day(), t.hour(), t.minute(), t.second())),
        None => None,
    }
}

/// An instant in UTC: Unix seconds and nanoseconds, with its civil fields.
#[derive(Clone, Copy, Debug, PartialEq, Eq)]
pub struct UtcTime {
    secs: i64,
    nanos: u32,
    year: i32,
    month: u32,
    day: u32,
    hour: u32,
    minute: u32,
    second: u32,
}

impl UtcTime {
    pub closed spec fn spec_secs(&self) -> i64 {
        self.secs
    }

    pub closed spec fn spec_nanos(&self) -> u32 {
        self.nanos
    }

    /// Year, month, day, hour, minute and second.
    pub closed spec fn spec_civil(&self) -> (i32, u32, u32, u32, u32, u32) {
        (self.year, self.month, self.day, self.hour, self.minute, self.second)
    }

    /// The instant `secs` seconds and `nanos` nanoseconds after the Unix epoch,
    /// when chrono can represent its date; it can for every time from the epoch
    /// to the end of year 9999.
    pub fn from_timestamp(secs: i64, nanos: u32) -> (r: Option<UtcTime>)
        ensures
            0 <= secs <= 253_402_300_799 ==> r is Some,
            r matches Some(t) ==> {
                &&& t.spec_secs() == secs
                &&& t.spec_nanos() == nanos
                &&& civil_of(secs as int) == (t.spec_civil().0 as int, t.spec_civil().1 as int, t.spec_civil().2 as int,
                    t.spec_civil().3 as int, t.spec_civil().4 as int, t.spec_civil().5 as int)
                &&& 1 <= t.spec_civil().1 <= 12 && 1 <= t.spec_civil().2 <= 31
                &&& t.spec_civil().3 <= 23 && t.spec_civil().4 <= 59 && t.spec_civil().5 <= 59
            },
    {
        match civil_from_unix(secs) {
            Some(c) => Some(UtcTime { secs, nanos, year: c.0, month: c.1, day: c.2, hour: c.3, minute: c.4, second: c.5 }),
            None => None,
        }
    }

    pub fn timestamp(&self) -> (r: i64)
        ensures
            r == self.spec_secs(),
    {
        self.secs
    }

    pub fn subsec_nanos(&self) -> (r: u32)
        ensures
            r == self.spec_nanos(),
    {
        self.nanos
    }

    pub fn year(&self) -> (r: i32)
        ensures
            r == self.spec_civil().0,
    {
        self.year
    }

    pub fn month(&self) -> (r: u32)
        ensures
            r == self.spec_civil().1,
    {
        self.month
    }

    pub fn day(&self) -> (r: u32)
        ensures
            r == self.spec_civil().2,
    {
        self.day
    }

    pub fn hour(&self) -> (r: u32)
        ensures
            r == self.spec_civil().3,
    {
        self.hour
    }

    pub fn minute(&self) -> (r: u32)
        ensures
            r == self.spec_civil().4,
    {
        self.minute
    }

    pub fn second(&self) -> (r: u32)
        ensures
            r == self.spec_civil().5,
    {
        self.second
    }
}

/// The MS-DOS date field: `day | month << 5 | (year - 1980) << 9`, where years
/// before 1980 count as 1980.
pub open spec fn dos_date_spec(year: i32, month: u32, day: u32) -> u16 {
    let y: u16 = if year < 1980 { 0 } else { (year - 1980) as u16 };
    (day as u16) | ((month as u16) << 5u16) | (y << 9u16)
}

/// The MS-DOS time field: `second / 2 | minute << 5 | hour << 11`.
pub open spec fn dos_time_spec(hour: u32, minute: u32, second: u32) -> u16 {
    ((second / 2) as u16) | ((minute as u16) << 5u16) | ((hour as u16) << 11u16)
}

/// The MS-DOS date field of a civil date.
pub fn dos_date(year: i32, month: u32, day: u32) -> (r: u16)
    ensures
        r == dos_date_spec(year, month, day),
{
    let y: u16 = if year < 1980 { 0 } else { (year - 1980) as u16 };
    (day as u16) | ((month as u16) << 5u16) | (y << 9u16)
}

/// The MS-DOS time field of a time of day, to two-second resolution.
pub fn dos_time(hour: u32, minute: u32, second: u32) -> (r: u16)
    ensures
        r == dos_time_spec(hour, minute, second),
{
    ((second / 2) as u16) | ((minute as u16) << 5u16) | ((hour as u16) << 11u16)
}

/// The MS-DOS date field of an instant.
pub open spec fn zip_date_spec(t: UtcTime) -> u16 {
    dos_date_spec(t.spec_civil().0, t.spec_civil().1, t.spec_civil().2)
}

/// The MS-DOS time field of an instant.
pub open spec fn zip_time_spec(t: UtcTime) -> u16 {
    dos_time_spec(t.spec_civil().3, t.spec_civil().4, t.spec_civil().5)
}

pub fn zip_date(t: &UtcTime) -> (r: u16)
    ensures
        r == zip_date_spec(*t),
{
    dos_date(t.year(), t.month(), t.day())
}

pub fn zip_time(t: &UtcTime) -> (r: u16)
    ensures
        r == zip_time_spec(*t),
{
    dos_time(t.hour(), t.minute(), t.second())
}

/// Two bytes, least significant first.
pub open spec fn le16(v: u16) -> Seq<u8> {
    seq![(v % 256) as u8, (v / 256) as u8]
}

/// Four bytes, least significant first.
pub open spec fn le32(v: u32) -> Seq<u8> {
    seq![(v % 256) as u8, ((v / 256) % 256) as u8, ((v / 65536) % 256) as u8, (v / 16777216) as u8]
}

/// Eight bytes, least significant first.
pub open spec fn le64(v: u64) -> Seq<u8> {
    le32((v % 0x1_0000_0000) as u32) + le32((v / 0x1_0000_0000) as u32)
}

pub(crate) fn put_u8(buf: &mut Vec<u8>, v: u8)
    ensures
        final(buf)@ == old(buf)@ + seq![v],
{
    buf.push(v);
    assert(final(buf)@ =~= old(buf)@ + seq![v]);
}

pub(crate) fn put_u16_le(buf: &mut Vec<u8>, v: u16)
    ensures
        final(buf)@ == old(buf)@ + le16(v),
{
    buf.push((v % 256) as u8);
    buf.push((v / 256) as u8);
    assert(final(buf)@ =~= old(buf)@ + le16(v));
}

pub(crate) fn put_u32_le(buf: &mut Vec<u8>, v: u32)
    ensures
        final(buf)@ == old(buf)@ + le32(v),
{
    buf.push((v % 256) as u8);
    buf.push(((v / 256) % 256) as u8);
    buf.push(((v / 65536) % 256) as u8);
    buf.push((v / 16777216) as u8);
    assert(final(buf)@ =~= old(buf)@ + le32(v));
}

pub(crate) fn put_u64_le(buf: &mut Vec<u8>, v: u64)
    ensures
        final(buf)@ == old(buf)@ + le64(v),
{
    put_u32_le(buf, (v % 0x1_0000_0000) as u32);
    put_u32_le(buf, (v / 0x1_0000_0000) as u32);
    assert(final(buf)@ =~= old(buf)@ + le64(v));
}

pub(crate) fn put_slice(buf: &mut Vec<u8>, s: &[u8])
    ensures
        final(buf)@ == old(buf)@ + s@,
{
    let n = s.len();
    let mut i: usize = 0;
    while i < n
        invariant
            n == s@.len(),
            i <= n,
            buf@ == old(buf)@ + s@.subrange(0, i as int),
        decreases n - i,
    {
        buf.push(s[i]);
        i += 1;
        assert(buf@ =~= old(buf)@ + s@.subrange(0, i as int));
    }
    assert(s@.subrange(0, n as int) =~= s@);
}

/// The version needed to extract an entry that uses ZIP64 records.
pub const ZIP64_VERSION: u16 = 45;
/// The version needed to extract any other entry, and the version made by.
pub const BASE_VERSION: u16 = 20;

/// Sizes and offsets from this value on do not fit a 32-bit field.
pub open spec fn zip32_limit() -> nat {
    0x1_0000_0000
}

/// The bytes of a file name in an archive: the UTF-8 encoding of its characters.
pub open spec fn name_bytes(path: Seq<char>) -> Seq<u8> {
    vstd::utf8::encode_utf8(path)
}

/// What a header records of an entry: its name, data length, CRC-32 and time.
pub struct EntryMeta {
    pub name_len: u16,
    pub data_len: u64,
    pub crc: u32,
    pub time: u16,
    pub date: u16,
    pub unix: u32,
}

/// The extended-timestamp extra field: modification time as Unix seconds.
pub open spec fn timestamp_extra(unix: u32) -> Seq<u8> {
    le16(0x5455) + le16(5) + seq![1u8] + le32(unix)
}

/// Whether a local file header needs ZIP64 records.
pub open spec fn lfh_zip64(data_len: u64, force_zip64: bool) -> bool {
    force_zip64 || data_len >= zip32_limit()
}

/// Whether a central directory header needs ZIP64 records.
pub open spec fn cdfh_zip64(data_len: u64, offset: u64, force_zip64: bool) -> bool {
    force_zip64 || data_len >= zip32_limit() || offset >= zip32_limit()
}

/// The two size fields of a header: sentinels when ZIP64 holds the sizes.
pub open spec fn size_fields(data_len: u64, z: bool) -> Seq<u8> {
    if z { le32(0xFFFF_FFFF) + le32(0xFFFF_FFFF) } else { le32(data_len as u32) + le32(data_len as u32) }
}

/// The local file header of an entry.
#[verifier::opaque]
pub open spec fn lfh_bytes(m: EntryMeta, name: Seq<u8>, force_zip64: bool) -> Seq<u8> {
    let z = lfh_zip64(m.data_len, force_zip64);
    le32(0x04034b50) + le16(if z { 45 } else { 20 }) + le16(0) + le16(0) + le16(m.time) + le16(m.date)
        + le32(m.crc) + size_fields(m.data_len, z) + le16(m.name_len) + le16(if z { 29 } else { 9 })
        + name + (if z { le16(1) + le16(16) + le64(m.data_len) + le64(m.data_len) } else { seq![] })
        + timestamp_extra(m.unix)
}

/// The central directory file header of an entry whose local header is at `offset`.
#[verifier::opaque]
pub open spec fn cdfh_bytes(m: EntryMeta, name: Seq<u8>, offset: u64, force_zip64: bool) -> Seq<u8> {
    let z = cdfh_zip64(m.data_len, offset, force_zip64);
    le32(0x02014b50) + seq![20u8, 3u8] + le16(if z { 45 } else { 20 }) + le16(0) + le16(0) + le16(m.time)
        + le16(m.date) + le32(m.crc) + size_fields(m.data_len, z) + le16(m.name_len)
        + le16(if z { 37 } else { 9 }) + le16(0) + le16(0) + le16(0) + le32(0x81A4_0000)
        + le32(if z { 0xFFFF_FFFF } else { offset as u32 })
        + name + (if z { le16(1) + le16(24) + le64(m.data_len) + le64(m.data_len) + le64(offset) } else { seq![] })
        + timestamp_extra(m.unix)
}

/// Whether the trailer carries the ZIP64 end record and locator.
pub open spec fn eocd_zip64(cd_offset: u64, cd_size: u64, num_entries: u64, force_zip64: bool) -> bool {
    force_zip64 || num_entries >= 0x1_0000 || cd_size >= zip32_limit() || cd_offset >= zip32_limit()
}

/// `a + b`, or `u64::MAX` when that does not fit.
pub open spec fn sat_add(a: u64, b: u64) -> u64 {
    if a + b <= u64::MAX { (a + b) as u64 } else { u64::MAX }
}

/// The trailer: ZIP64 end of central directory record and locator when
/// needed, then the classic end of central directory record.
#[verifier::opaque]
pub open spec fn eocd_bytes(cd_offset: u64, cd_size: u64, num_entries: u64, force_zip64: bool) -> Seq<u8> {
    let n16: u16 = if num_entries >= 0x1_0000 { 0xFFFF } else { num_entries as u16 };
    let size32: u32 = if cd_size >= zip32_limit() { 0xFFFF_FFFF } else { cd_size as u32 };
    let off32: u32 = if cd_offset >= zip32_limit() { 0xFFFF_FFFF } else { cd_offset as u32 };
    (if eocd_zip64(cd_offset, cd_size, num_entries, force_zip64) {
        le32(0x06064b50) + le64(44) + le16(45) + le16(45) + le32(0) + le32(0) + le64(num_entries)
            + le64(num_entries) + le64(cd_size) + le64(cd_offset)
            + le32(0x07064b50) + le32(0) + le64(sat_add(cd_offset, cd_size)) + le32(1)
    } else {
        seq![]
    }) + le32(0x06054b50) + le16(0) + le16(0) + le16(n16) + le16(n16) + le32(size32) + le32(off32) + le16(0)
}

fn put_timestamp_extra(buf: &mut Vec<u8>, unix: u32)
    ensures
        final(buf)@ == old(buf)@ + timestamp_extra(unix),
{
    put_u16_le(buf, 0x5455);
    put_u16_le(buf, 5);
    put_u8(buf, 1);
    put_u32_le(buf, unix);
    assert(final(buf)@ =~= old(buf)@ + timestamp_extra(unix));
}

fn put_size_fields(buf: &mut Vec<u8>, data_len: u64, z: bool)
    requires
        !z ==> data_len < zip32_limit(),
    ensures
        final(buf)@ == old(buf)@ + size_fields(data_len, z),
{
    if z {
        put_u32_le(buf, 0xFFFF_FFFF);
        put_u32_le(buf, 0xFFFF_FFFF);
    } else {
        put_u32_le(buf, data_len as u32);
        put_u32_le(buf, data_len as u32);
    }
    assert(final(buf)@ =~= old(buf)@ + size_fields(data_len, z));
}

/// Builds the local file header of an entry.
pub fn local_file_header(m: &EntryMeta, name: &[u8], force_zip64: bool) -> (r: Vec<u8>)
    requires
        name@.len() == m.name_len,
    ensures
        r@ == lfh_bytes(*m, name@, force_zip64),
{
    reveal(lfh_bytes);
    let z = force_zip64 || m.data_len >= 0x1_0000_0000;
    let mut buf: Vec<u8> = Vec::new();
    put_u32_le(&mut buf, 0x04034b50);
    put_u16_le(&mut buf, if z { ZIP64_VERSION } else { BASE_VERSION });
    put_u16_le(&mut buf, 0);
    put_u16_le(&mut buf, 0);
    put_u16_le(&mut buf, m.time);
    put_u16_le(&mut buf, m.date);
    put_u32_le(&mut buf, m.crc);
    put_size_fields(&mut buf, m.data_len, z);
    put_u16_le(&mut buf, m.name_len);
    put_u16_le(&mut buf, if z { 29 } else { 9 });
    put_slice(&mut buf, name);
    let ghost before_extra = buf@;
    if z {
        put_u16_le(&mut buf, 1);
        put_u16_le(&mut buf, 16);
        put_u64_le(&mut buf, m.data_len);
        put_u64_le(&mut buf, m.data_len);
    }
    assert(buf@ =~= before_extra + (if z { le16(1) + le16(16) + le64(m.data_len) + le64(m.data_len) } else { seq![] }));
    put_timestamp_extra(&mut buf, m.unix);
    assert(buf@ =~= lfh_bytes(*m, name@, force_zip64));
    buf
}

/// Builds the central directory file header of an entry whose local header
/// starts at `offset`.
pub fn central_directory_file_header(m: &EntryMeta, name: &[u8], offset: u64, force_zip64: bool) -> (r: Vec<u8>)
    requires
        name@.len() == m.name_len,
    ensures
        r@ == cdfh_bytes(*m, name@, offset, force_zip64),
{
    reveal(cdfh_bytes);
    let z = force_zip64 || m.data_len >= 0x1_0000_0000 || offset >= 0x1_0000_0000;
    let mut buf: Vec<u8> = Vec::new();
    put_u32_le(&mut buf, 0x02014b50);
    put_u8(&mut buf, BASE_VERSION as u8);
    put_u8(&mut buf, 3);
    let ghost after_made_by = buf@;
    assert(after_made_by =~= le32(0x02014b50) + seq![20u8, 3u8]);
    put_u16_le(&mut buf, if z { ZIP64_VERSION } else { BASE_VERSION });
    put_u16_le(&mut buf, 0);
    put_u16_le(&mut buf, 0);
    put_u16_le(&mut buf, m.time);
    put_u16_le(&mut buf, m.date);
    put_u32_le(&mut buf, m.crc);
    put_size_fields(&mut buf, m.data_len, z);
    put_u16_le(&mut buf, m.name_len);
    put_u16_le(&mut buf, if z { 37 } else { 9 });
    put_u16_le(&mut buf, 0);
    put_u16_le(&mut buf, 0);
    put_u16_le(&mut buf, 0);
    put_u32_le(&mut buf, 0x81A4_0000);
    put_u32_le(&mut buf, if z { 0xFFFF_FFFF } else { offset as u32 });
    put_slice(&mut buf, name);
    let ghost before_extra = buf@;
    if z {
        put_u16_le(&mut buf, 1);
        put_u16_le(&mut buf, 24);
        put_u64_le(&mut buf, m.data_len);
        put_u64_le(&mut buf, m.data_len);
        put_u64_le(&mut buf, offset);
    }
    assert(buf@ =~= before_extra
        + (if z { le16(1) + le16(24) + le64(m.data_len) + le64(m.data_len) + le64(offset) } else { seq![] }));
    put_timestamp_extra(&mut buf, m.unix);
    assert(buf@ =~= cdfh_bytes(*m, name@, offset, force_zip64));
    buf
}

/// Builds the archive trailer for a central directory of `size_of_central_directory`
/// bytes at `central_directory_offset`, holding `num_entries` headers.
pub fn end_of_central_directory(
    central_directory_offset: u64,
    size_of_central_directory: u64,
    num_entries: u64,
    force_zip64: bool,
) -> (r: Vec<u8>)
    ensures
        r@ == eocd_bytes(central_directory_offset, size_of_central_directory, num_entries, force_zip64),
{
    reveal(eocd_bytes);
    let mut buf: Vec<u8> = Vec::new();
    if num_entries >= 0x1_0000 || size_of_central_directory >= 0x1_0000_0000
        || central_directory_offset >= 0x1_0000_0000 || force_zip64 {
        put_u32_le(&mut buf, 0x06064b50);
        put_u64_le(&mut buf, 56 - 12);
        put_u16_le(&mut buf, ZIP64_VERSION);
        put_u16_le(&mut buf, ZIP64_VERSION);
        put_u32_le(&mut buf, 0);
        put_u32_le(&mut buf, 0);
        put_u64_le(&mut buf, num_entries);
        put_u64_le(&mut buf, num_entries);
        put_u64_le(&mut buf, size_of_central_directory);
        put_u64_le(&mut buf, central_directory_offset);
        put_u32_le(&mut buf, 0x07064b50);
        put_u32_le(&mut buf, 0);
        put_u64_le(&mut buf, central_directory_offset.saturating_add(size_of_central_directory));
        put_u32_le(&mut buf, 1);
    }
    let ghost head = buf@;
    let num_entries_16: u16 = if num_entries >= 0x1_0000 { 0xFFFF } else { num_entries as u16 };
    let size_32: u32 = if size_of_central_directory >= 0x1_0000_0000 { 0xFFFF_FFFF } else { size_of_central_directory as u32 };
    let offset_32: u32 = if central_directory_offset >= 0x1_0000_0000 { 0xFFFF_FFFF } else { central_directory_offset as u32 };
    put_u32_le(&mut buf, 0x06054b50);
    put_u16_le(&mut buf, 0);
    put_u16_le(&mut buf, 0);
    put_u16_le(&mut buf, num_entries_16);
    put_u16_le(&mut buf, num_entries_16);
    put_u32_le(&mut buf, size_32);
    put_u32_le(&mut buf, offset_32);
    put_u16_le(&mut buf, 0);
    assert(buf@ =~= eocd_bytes(central_directory_offset, size_of_central_directory, num_entries, force_zip64));
    buf
}

/// Whether `path` can name an entry: its UTF-8 form has at most 65535 bytes.
pub fn fits_entry_name(path: &str) -> (r: bool)
    ensures
        r == (name_bytes(path@).len() <= 0xFFFF),
{
    path.as_bytes().len() <= 0xFFFF
}

/// A file to be included in an archive.
pub struct ZipEntry<D> {
    /// File name within the archive.
    pub archive_path: String,
    /// Contents of the file.
    pub data: D,
    /// CRC-32 of the contents; it goes into the headers, so it is computed beforehand.
    pub crc: u32,
    /// Last modification time.
    pub last_modified: UtcTime,
}

/// Options of `zip_stream`.
#[derive(Clone, Copy, PartialEq, Eq, Debug, Default, Structural)]
pub struct ZipOptions {
    /// Use ZIP64 records even where the archive would not need them.
    pub force_zip64: bool,
}

/// One part of an archive: header bytes held in memory, or an entry's data.
pub enum ZipPart<D> {
    Header(Bytes),
    Data(D),
}

impl<D: StreamRange> StreamRange for ZipPart<D> {
    open spec fn spec_len(&self) -> u64 {
        match self {
            ZipPart::Header(b) => b.spec_len(),
            ZipPart::Data(d) => d.spec_len(),
        }
    }

    fn len(&self) -> (r: u64) {
        match self {
            ZipPart::Header(b) => StreamRange::len(b),
            ZipPart::Data(d) => d.len(),
        }
    }
}

/// The header fields of an entry.
pub open spec fn entry_meta<D: StreamRange>(e: ZipEntry<D>) -> EntryMeta {
    EntryMeta {
        name_len: name_bytes(e.archive_path@).len() as u16,
        data_len: e.data.spec_len(),
        crc: e.crc,
        time: zip_time_spec(e.last_modified),
        date: zip_date_spec(e.last_modified),
        unix: e.last_modified.spec_secs() as u32,
    }
}

/// The local file header of entry `e`.
pub open spec fn entry_lfh<D: StreamRange>(e: ZipEntry<D>, force_zip64: bool) -> Seq<u8> {
    lfh_bytes(entry_meta(e), name_bytes(e.archive_path@), force_zip64)
}

/// The central directory header of entry `e` with its local header at `offset`.
pub open spec fn entry_cdfh<D: StreamRange>(e: ZipEntry<D>, offset: u64, force_zip64: bool) -> Seq<u8> {
    cdfh_bytes(entry_meta(e), name_bytes(e.archive_path@), offset, force_zip64)
}

/// Offset of the local header of entry `i`: the lengths of the headers and data
/// before it, added with saturation.
pub open spec fn entry_offset<D: StreamRange>(es: Seq<ZipEntry<D>>, i: int, force_zip64: bool) -> u64
    decreases i,
{
    if i <= 0 {
        0
    } else {
        sat_add(
            sat_add(entry_offset(es, i - 1, force_zip64), entry_lfh(es[i - 1], force_zip64).len() as u64),
            es[i - 1].data.spec_len(),
        )
    }
}

/// Total length of the central directory headers of the first `i` entries,
/// added with saturation.
pub open spec fn cd_size_of<D: StreamRange>(es: Seq<ZipEntry<D>>, i: int, force_zip64: bool) -> u64
    decreases i,
{
    if i <= 0 {
        0
    } else {
        sat_add(
            cd_size_of(es, i - 1, force_zip64),
            entry_cdfh(es[i - 1], entry_offset(es, i - 1, force_zip64), force_zip64).len() as u64,
        )
    }
}

/// `p` is a header part holding `bytes`.
pub open spec fn is_header<D>(p: ZipPart<D>, bytes: Seq<u8>) -> bool {
    p matches ZipPart::Header(b) && bytes_content(b) == bytes
}

/// `parts` is the archive of `es`: for each entry its local header then its
/// data, then every central directory header in entry order, then the trailer.
pub open spec fn is_zip_layout<D: StreamRange>(parts: Seq<ZipPart<D>>, es: Seq<ZipEntry<D>>, force_zip64: bool) -> bool {
    let n = es.len() as int;
    &&& parts.len() == 3 * n + 1
    &&& forall|i: int| 0 <= i < n ==> {
        &&& is_header(#[trigger] parts[2 * i], entry_lfh(es[i], force_zip64))
        &&& parts[2 * i + 1] == ZipPart::Data(es[i].data)
        &&& is_header(parts[2 * n + i], entry_cdfh(es[i], entry_offset(es, i, force_zip64), force_zip64))
    }
    &&& is_header(parts[3 * n], eocd_bytes(entry_offset(es, n, force_zip64), cd_size_of(es, n, force_zip64), n as u64, force_zip64))
}

/// Lays out an archive of `files`, stored uncompressed, as a concatenation of
/// header buffers and the entries' data. Nothing of the data is read.
pub fn zip_stream<D: StreamRange>(files: Vec<ZipEntry<D>>, options: ZipOptions) -> (r: Concatenated<ZipPart<D>>)
    requires
        forall|i: int| 0 <= i < files@.len() ==> name_bytes(#[trigger] files@[i].archive_path@).len() <= 0xFFFF,
    ensures
        is_zip_layout(r.0@, files@, options.force_zip64),
{
    let ghost es = files@;
    let force = options.force_zip64;
    let n = files.len();
    let mut data_parts: Vec<ZipPart<D>> = Vec::new();
    let mut cd_parts: Vec<ZipPart<D>> = Vec::new();
    let mut offset: u64 = 0;
    let mut cd_size: u64 = 0;
    for file in it: files
        invariant
            it.seq() == es,
            n == es.len(),
            force == options.force_zip64,
            forall|i: int| 0 <= i < es.len() ==> name_bytes(#[trigger] es[i].archive_path@).len() <= 0xFFFF,
            offset == entry_offset(es, it.index() as int, force),
            cd_size == cd_size_of(es, it.index() as int, force),
            data_parts@.len() == 2 * it.index(),
            cd_parts@.len() == it.index(),
            forall|i: int| 0 <= i < it.index() ==> {
                &&& is_header(#[trigger] data_parts@[2 * i], entry_lfh(es[i], force))
                &&& data_parts@[2 * i + 1] == ZipPart::Data(es[i].data)
                &&& is_header(cd_parts@[i], entry_cdfh(es[i], entry_offset(es, i, force), force))
            },
    {
        let ghost k = it.index() as int;
        let name = file.archive_path.as_str().as_bytes();
        let data_len = file.data.len();
        let meta = EntryMeta {
            name_len: name.len() as u16,
            data_len,
            crc: file.crc,
            time: zip_time(&file.last_modified),
            date: zip_date(&file.last_modified),
            unix: file.last_modified.timestamp() as u32,
        };
        assert(meta == entry_meta(es[k]));
        let local_header = local_file_header(&meta, name, force);
        let central_header = central_directory_file_header(&meta, name, offset, force);
        offset = offset.saturating_add(local_header.len() as u64).saturating_add(data_len);
        cd_size = cd_size.saturating_add(central_header.len() as u64);
        let ghost dp = data_parts@;
        data_parts.push(ZipPart::Header(bytes_from_vec(local_header)));
        data_parts.push(ZipPart::Data(file.data));
        cd_parts.push(ZipPart::Header(bytes_from_vec(central_header)));
        assert forall|i: int| 0 <= i < k + 1 implies {
            &&& is_header(#[trigger] data_parts@[2 * i], entry_lfh(es[i], force))
            &&& data_parts@[2 * i + 1] == ZipPart::Data(es[i].data)
            &&& is_header(cd_parts@[i], entry_cdfh(es[i], entry_offset(es, i, force), force))
        } by {
            if i < k {
                assert(data_parts@[2 * i] == dp[2 * i]);
                assert(data_parts@[2 * i + 1] == dp[2 * i + 1]);
            }
        }
    }
    let num_entries = cd_parts.len() as u64;
    let trailer = end_of_central_directory(offset, cd_size, num_entries, force);
    let ghost dp = data_parts@;
    let ghost cp = cd_parts@;
    data_parts.append(&mut cd_parts);
    data_parts.push(ZipPart::Header(bytes_from_vec(trailer)));
    let r = Concatenated(data_parts);
    assert forall|i: int| 0 <= i < n implies {
        &&& is_header(#[trigger] r.0@[2 * i], entry_lfh(es[i], force))
        &&& r.0@[2 * i + 1] == ZipPart::Data(es[i].data)
        &&& is_header(r.0@[2 * n + i], entry_cdfh(es[i], entry_offset(es, i, force), force))
    } by {
        assert(r.0@[2 * i] == dp[2 * i]);
        assert(r.0@[2 * i + 1] == dp[2 * i + 1]);
        assert(r.0@[2 * n + i] == cp[i]);
    }
    r
}

/// The parts agree byte for byte: headers hold the same bytes, data parts
/// are the same sources.
pub open spec fn same_part<D>(p: ZipPart<D>, q: ZipPart<D>) -> bool {
    match (p, q) {
        (ZipPart::Header(a), ZipPart::Header(b)) => bytes_content(a) == bytes_content(b),
        (ZipPart::Data(a), ZipPart::Data(b)) => a == b,
        _ => false,
    }
}

/// Determinism: two layouts of the same entries with the same options agree
/// part for part, so the archives they produce are byte-identical.
pub proof fn lemma_layout_deterministic<D: StreamRange>(
    left: Seq<ZipPart<D>>,
    right: Seq<ZipPart<D>>,
    es: Seq<ZipEntry<D>>,
    force_zip64: bool,
)
    requires
        is_zip_layout(left, es, force_zip64),
        is_zip_layout(right, es, force_zip64),
    ensures
        left.len() == right.len(),
        forall|i: int| 0 <= i < left.len() ==> same_part(#[trigger] left[i], right[i]),
{
    let n = es.len() as int;
    assert forall|i: int| 0 <= i < left.len() implies same_part(#[trigger] left[i], right[i]) by {
        if i < 2 * n {
            let k = i / 2;
            assert(0 <= k < n);
            if i % 2 == 0 {
                assert(i == 2 * k);
                assert(is_header(left[2 * k], entry_lfh(es[k], force_zip64)));
                assert(is_header(right[2 * k], entry_lfh(es[k], force_zip64)));
            } else {
                assert(i == 2 * k + 1);
                assert(is_header(left[2 * k], entry_lfh(es[k], force_zip64)));
                assert(is_header(right[2 * k], entry_lfh(es[k], force_zip64)));
            }
        } else if i < 3 * n {
            let k = i - 2 * n;
            assert(is_header(left[2 * k], entry_lfh(es[k], force_zip64)));
            assert(is_header(right[2 * k], entry_lfh(es[k], force_zip64)));
        }
    }
}

/// The trailer of the archive of `es` begins with the ZIP64 end of central
/// directory signature.
pub open spec fn trailer_is_zip64<D: StreamRange>(es: Seq<ZipEntry<D>>, force_zip64: bool) -> bool {
    let n = es.len() as int;
    eocd_bytes(entry_offset(es, n, force_zip64), cd_size_of(es, n, force_zip64), n as u64, force_zip64).subrange(0, 4)
        == le32(0x06064b50)
}

/// Every header of entry `e` (at `offset`) has the plain, non-ZIP64 layout:
/// the local header is 39 bytes plus the name, the central one 55 plus the name.
pub open spec fn headers_are_zip32<D: StreamRange>(e: ZipEntry<D>, offset: u64, force_zip64: bool) -> bool {
    &&& entry_lfh(e, force_zip64).len() == 39 + name_bytes(e.archive_path@).len()
    &&& entry_cdfh(e, offset, force_zip64).len() == 55 + name_bytes(e.archive_path@).len()
}

/// Every header of entry `e` (at `offset`) carries the ZIP64 extra field.
pub open spec fn headers_are_zip64<D: StreamRange>(e: ZipEntry<D>, offset: u64, force_zip64: bool) -> bool {
    &&& entry_lfh(e, force_zip64).len() == 59 + name_bytes(e.archive_path@).len()
    &&& entry_cdfh(e, offset, force_zip64).len() == 83 + name_bytes(e.archive_path@).len()
}

proof fn lemma_header_lens<D: StreamRange>(e: ZipEntry<D>, offset: u64, force_zip64: bool)
    ensures
        entry_lfh(e, force_zip64).len()
            == 39 + name_bytes(e.archive_path@).len() + (if lfh_zip64(e.data.spec_len(), force_zip64) { 20int } else { 0int }),
        entry_cdfh(e, offset, force_zip64).len()
            == 55 + name_bytes(e.archive_path@).len() + (if cdfh_zip64(e.data.spec_len(), offset, force_zip64) { 28int } else { 0int }),
{
    reveal(lfh_bytes);
    reveal(cdfh_bytes);
}

proof fn lemma_eocd_len(cd_offset: u64, cd_size: u64, num_entries: u64, force_zip64: bool)
    ensures
        eocd_bytes(cd_offset, cd_size, num_entries, force_zip64).len()
            == if eocd_zip64(cd_offset, cd_size, num_entries, force_zip64) { 98int } else { 22int },
{
    reveal(eocd_bytes);
}

proof fn lemma_eocd_signature(cd_offset: u64, cd_size: u64, num_entries: u64, force_zip64: bool)
    ensures
        eocd_bytes(cd_offset, cd_size, num_entries, force_zip64).subrange(0, 4) == le32(0x06064b50)
            <==> eocd_zip64(cd_offset, cd_size, num_entries, force_zip64),
{
    reveal(eocd_bytes);
    let b = eocd_bytes(cd_offset, cd_size, num_entries, force_zip64);
    if eocd_zip64(cd_offset, cd_size, num_entries, force_zip64) {
        assert(b.subrange(0, 4) =~= le32(0x06064b50));
    } else {
        assert(b.subrange(0, 4) =~= le32(0x06054b50));
        assert(le32(0x06054b50)[2] != le32(0x06064b50)[2]);
    }
}

proof fn lemma_offsets_grow<D: StreamRange>(es: Seq<ZipEntry<D>>, i: int, j: int, force_zip64: bool)
    requires
        0 <= i < j <= es.len(),
    ensures
        entry_offset(es, i, force_zip64) <= entry_offset(es, j, force_zip64),
        es[i].data.spec_len() <= entry_offset(es, j, force_zip64),
    decreases j - i,
{
    if j > i + 1 {
        lemma_offsets_grow(es, i, j - 1, force_zip64);
    }
}

proof fn lemma_zip64_headers<D: StreamRange>(es: Seq<ZipEntry<D>>, force_zip64: bool)
    ensures
        force_zip64 ==> forall|i: int| 0 <= i < es.len()
            ==> headers_are_zip64(#[trigger] es[i], entry_offset(es, i, force_zip64), force_zip64),
        !force_zip64 && entry_offset(es, es.len() as int, force_zip64) < zip32_limit() ==> forall|i: int| 0 <= i < es.len()
            ==> headers_are_zip32(#[trigger] es[i], entry_offset(es, i, force_zip64), force_zip64),
{
    let n = es.len() as int;
    assert forall|i: int| 0 <= i < es.len() && force_zip64
        implies headers_are_zip64(#[trigger] es[i], entry_offset(es, i, force_zip64), force_zip64) by {
        lemma_header_lens(es[i], entry_offset(es, i, force_zip64), force_zip64);
    }
    assert forall|i: int| 0 <= i < es.len() && !force_zip64 && entry_offset(es, n, force_zip64) < zip32_limit()
        implies headers_are_zip32(#[trigger] es[i], entry_offset(es, i, force_zip64), force_zip64) by {
        lemma_offsets_grow(es, i, n, force_zip64);
        lemma_header_lens(es[i], entry_offset(es, i, force_zip64), force_zip64);
    }
}

/// ZIP64 trigger. An entry of 2^32 bytes or more, or a central directory at an
/// offset of 2^32 or more, brings the ZIP64 trailer; with `force_zip64` every
/// header and the trailer use ZIP64. Without it, when the entries are fewer
/// than 2^16 and the central directory starts and measures under 2^32, no
/// ZIP64 record is emitted at all.
pub proof fn lemma_zip64_trigger<D: StreamRange>(es: Seq<ZipEntry<D>>, force_zip64: bool)
    requires
        es.len() <= u64::MAX,
    ensures
        (exists|i: int| 0 <= i < es.len() && #[trigger] es[i].data.spec_len() >= zip32_limit())
            ==> trailer_is_zip64(es, force_zip64),
        entry_offset(es, es.len() as int, force_zip64) >= zip32_limit() ==> trailer_is_zip64(es, force_zip64),
        force_zip64 ==> trailer_is_zip64(es, force_zip64),
        force_zip64 ==> forall|i: int| 0 <= i < es.len()
            ==> headers_are_zip64(#[trigger] es[i], entry_offset(es, i, force_zip64), force_zip64),
        !force_zip64 && es.len() < 0x1_0000 && entry_offset(es, es.len() as int, force_zip64) < zip32_limit()
            && cd_size_of(es, es.len() as int, force_zip64) < zip32_limit() ==> {
            &&& !trailer_is_zip64(es, force_zip64)
            &&& forall|i: int| 0 <= i < es.len()
                ==> headers_are_zip32(#[trigger] es[i], entry_offset(es, i, force_zip64), force_zip64)
        },
{
    let n = es.len() as int;
    lemma_eocd_signature(entry_offset(es, n, force_zip64), cd_size_of(es, n, force_zip64), n as u64, force_zip64);
    if exists|i: int| 0 <= i < es.len() && #[trigger] es[i].data.spec_len() >= zip32_limit() {
        let i = choose|i: int| 0 <= i < es.len() && #[trigger] es[i].data.spec_len() >= zip32_limit();
        lemma_offsets_grow(es, i, n, force_zip64);
    }
    lemma_zip64_headers(es, force_zip64);
}

proof fn lemma_entry_positions<D: StreamRange>(c: Concatenated<ZipPart<D>>, es: Seq<ZipEntry<D>>, force_zip64: bool, i: int)
    requires
        is_zip_layout(c.0@, es, force_zip64),
        forall|k: int| 0 <= k < es.len() ==> name_bytes(#[trigger] es[k].archive_path@).len() <= 0xFFFF,
        total_len(c.part_lens()) <= u64::MAX,
        0 <= i <= es.len(),
    ensures
        total_len(c.part_lens().take(2 * i)) == entry_offset(es, i, force_zip64),
    decreases i,
{
    let lens = c.part_lens();
    if i == 0 {
        assert(lens.take(0) =~= Seq::<nat>::empty());
    } else {
        let k = i - 1;
        lemma_entry_positions(c, es, force_zip64, k);
        lemma_total_len_take_step(lens, 2 * k);
        lemma_total_len_take_step(lens, 2 * k + 1);
        lemma_total_len_take_le(lens, 2 * i);
        lemma_header_lens(es[k], entry_offset(es, k, force_zip64), force_zip64);
        assert(is_header(c.0@[2 * k], entry_lfh(es[k], force_zip64)));
        assert(lens[2 * k] == entry_lfh(es[k], force_zip64).len());
        assert(lens[2 * k + 1] == es[k].data.spec_len());
    }
}

proof fn lemma_directory_positions<D: StreamRange>(c: Concatenated<ZipPart<D>>, es: Seq<ZipEntry<D>>, force_zip64: bool, j: int)
    requires
        is_zip_layout(c.0@, es, force_zip64),
        forall|k: int| 0 <= k < es.len() ==> name_bytes(#[trigger] es[k].archive_path@).len() <= 0xFFFF,
        total_len(c.part_lens()) <= u64::MAX,
        0 <= j <= es.len(),
    ensures
        total_len(c.part_lens().take(2 * es.len() + j))
            == entry_offset(es, es.len() as int, force_zip64) + cd_size_of(es, j, force_zip64),
    decreases j,
{
    let lens = c.part_lens();
    let n = es.len() as int;
    if j == 0 {
        lemma_entry_positions(c, es, force_zip64, n);
    } else {
        let k = j - 1;
        lemma_directory_positions(c, es, force_zip64, k);
        lemma_total_len_take_step(lens, 2 * n + k);
        lemma_total_len_take_le(lens, 2 * n + j);
        lemma_header_lens(es[k], entry_offset(es, k, force_zip64), force_zip64);
        assert(is_header(c.0@[2 * k], entry_lfh(es[k], force_zip64)));
        assert(is_header(c.0@[2 * n + k], entry_cdfh(es[k], entry_offset(es, k, force_zip64), force_zip64)));
        assert(lens[2 * n + k] == entry_cdfh(es[k], entry_offset(es, k, force_zip64), force_zip64).len());
    }
}

/// Positions in the archive. When its size fits in 64 bits, the local header
/// of entry `i` starts at `entry_offset(i)`, which is the offset that its
/// central directory header records; the central directory starts where the
/// trailer says, right after the last entry, and has the size the trailer
/// says; and the trailer ends the archive, whose length `len` reports.
pub proof fn lemma_zip_positions<D: StreamRange>(c: Concatenated<ZipPart<D>>, es: Seq<ZipEntry<D>>, force_zip64: bool)
    requires
        is_zip_layout(c.0@, es, force_zip64),
        forall|k: int| 0 <= k < es.len() ==> name_bytes(#[trigger] es[k].archive_path@).len() <= 0xFFFF,
        total_len(c.part_lens()) <= u64::MAX,
    ensures
        forall|i: int| 0 <= i <= es.len()
            ==> #[trigger] total_len(c.part_lens().take(2 * i)) == entry_offset(es, i, force_zip64),
        c.spec_len() == entry_offset(es, es.len() as int, force_zip64) + cd_size_of(es, es.len() as int, force_zip64)
            + eocd_bytes(
                entry_offset(es, es.len() as int, force_zip64),
                cd_size_of(es, es.len() as int, force_zip64),
                es.len() as u64,
                force_zip64,
            ).len(),
{
    let lens = c.part_lens();
    let n = es.len() as int;
    assert forall|i: int| 0 <= i <= es.len()
        implies #[trigger] total_len(c.part_lens().take(2 * i)) == entry_offset(es, i, force_zip64) by {
        lemma_entry_positions(c, es, force_zip64, i);
    }
    lemma_directory_positions(c, es, force_zip64, n);
    lemma_total_len_take_step(lens, 3 * n);
    lemma_eocd_len(entry_offset(es, n, force_zip64), cd_size_of(es, n, force_zip64), n as u64, force_zip64);
    assert(lens.take(3 * n + 1) =~= lens);
}

/// The two entries agree in everything their headers record: name, data
/// length, CRC and modification time.
pub open spec fn same_entry_fields<D: StreamRange>(x: ZipEntry<D>, y: ZipEntry<D>) -> bool {
    &&& x.archive_path@ == y.archive_path@
    &&& x.data.spec_len() == y.data.spec_len()
    &&& x.crc == y.crc
    &&& x.last_modified.spec_secs() == y.last_modified.spec_secs()
    &&& x.last_modified.spec_civil() == y.last_modified.spec_civil()
}

/// `contents` can be the bytes of `c`: one byte string per part, of the part's
/// length, and each header part's own bytes.
pub open spec fn holds_contents<D: StreamRange>(c: Concatenated<ZipPart<D>>, contents: Seq<Seq<u8>>) -> bool {
    &&& lens_of(contents) == c.part_lens()
    &&& forall|i: int| 0 <= i < contents.len() ==> (#[trigger] c.0@[i] matches ZipPart::Header(b) ==> contents[i] == bytes_content(b))
}

proof fn lemma_same_positions<D: StreamRange>(es1: Seq<ZipEntry<D>>, es2: Seq<ZipEntry<D>>, force_zip64: bool, i: int)
    requires
        es1.len() == es2.len(),
        forall|k: int| 0 <= k < es1.len() ==> same_entry_fields(#[trigger] es1[k], es2[k]),
        0 <= i <= es1.len(),
    ensures
        entry_offset(es1, i, force_zip64) == entry_offset(es2, i, force_zip64),
        cd_size_of(es1, i, force_zip64) == cd_size_of(es2, i, force_zip64),
    decreases i,
{
    if i > 0 {
        lemma_same_positions(es1, es2, force_zip64, i - 1);
        assert(same_entry_fields(es1[i - 1], es2[i - 1]));
        assert(entry_meta(es1[i - 1]) == entry_meta(es2[i - 1]));
    }
}

/// Determinism across builds: two archives built independently, from entries
/// that agree field by field and whose data hold the same bytes, have the same
/// parts' lengths and the same bytes, so every range reads the same.
pub proof fn lemma_builds_agree<D: StreamRange>(
    c1: Concatenated<ZipPart<D>>,
    es1: Seq<ZipEntry<D>>,
    contents1: Seq<Seq<u8>>,
    c2: Concatenated<ZipPart<D>>,
    es2: Seq<ZipEntry<D>>,
    contents2: Seq<Seq<u8>>,
    force_zip64: bool,
)
    requires
        is_zip_layout(c1.0@, es1, force_zip64),
        is_zip_layout(c2.0@, es2, force_zip64),
        es1.len() == es2.len(),
        forall|k: int| 0 <= k < es1.len() ==> same_entry_fields(#[trigger] es1[k], es2[k]),
        holds_contents(c1, contents1),
        holds_contents(c2, contents2),
        forall|k: int| 0 <= k < es1.len() ==> #[trigger] contents1[2 * k + 1] == contents2[2 * k + 1],
    ensures
        c1.part_lens() == c2.part_lens(),
        c1.spec_len() == c2.spec_len(),
        contents1 == contents2,
        forall|a: u64, b: u64| #[trigger] read_pieces(contents1, pieces(c1.part_lens(), 0, a, b))
            == read_pieces(contents2, pieces(c2.part_lens(), 0, a, b)),
{
    let n = es1.len() as int;
    assert(lens_of(contents1).len() == contents1.len() && c1.part_lens().len() == c1.0@.len());
    assert(lens_of(contents2).len() == contents2.len() && c2.part_lens().len() == c2.0@.len());
    lemma_same_positions(es1, es2, force_zip64, n);
    assert forall|i: int| 0 <= i < contents1.len() implies #[trigger] contents1[i] == contents2[i] by {
        if i < 2 * n {
            let k = i / 2;
            lemma_same_positions(es1, es2, force_zip64, k);
            assert(same_entry_fields(es1[k], es2[k]));
            assert(entry_meta(es1[k]) == entry_meta(es2[k]));
            assert(is_header(c1.0@[2 * k], entry_lfh(es1[k], force_zip64)));
            assert(is_header(c2.0@[2 * k], entry_lfh(es2[k], force_zip64)));
            if i % 2 == 1 {
                assert(i == 2 * k + 1);
            }
        } else if i < 3 * n {
            let k = i - 2 * n;
            lemma_same_positions(es1, es2, force_zip64, k);
            assert(same_entry_fields(es1[k], es2[k]));
            assert(entry_meta(es1[k]) == entry_meta(es2[k]));
            assert(is_header(c1.0@[2 * k], entry_lfh(es1[k], force_zip64)));
            assert(is_header(c2.0@[2 * k], entry_lfh(es2[k], force_zip64)));
        }
    }
    assert(contents1 =~= contents2);
    assert(c1.part_lens() =~= c2.part_lens()) by {
        assert forall|i: int| 0 <= i < c1.0@.len() implies c1.part_lens()[i] == c2.part_lens()[i] by {
            assert(lens_of(contents1)[i] == c1.part_lens()[i]);
            assert(lens_of(contents2)[i] == c2.part_lens()[i]);
        }
    }
}

/// Bytes taken by the first `i` entries, each a local header of 39 bytes
/// plus its name, 20 more with ZIP64, then its data.
pub open spec fn entries_len<D: StreamRange>(es: Seq<ZipEntry<D>>, i: int, force_zip64: bool) -> nat
    decreases i,
{
    if i <= 0 {
        0
    } else {
        let e = es[i - 1];
        entries_len(es, i - 1, force_zip64) + 39 + name_bytes(e.archive_path@).len()
            + (if lfh_zip64(e.data.spec_len(), force_zip64) { 20nat } else { 0nat }) + e.data.spec_len() as nat
    }
}

/// Bytes taken by the central directory headers of the first `i` entries,
/// each 55 bytes plus its name, 28 more with ZIP64.
pub open spec fn directory_len<D: StreamRange>(es: Seq<ZipEntry<D>>, i: int, force_zip64: bool) -> nat
    decreases i,
{
    if i <= 0 {
        0
    } else {
        let e = es[i - 1];
        directory_len(es, i - 1, force_zip64) + 55 + name_bytes(e.archive_path@).len()
            + (if cdfh_zip64(e.data.spec_len(), entries_len(es, i - 1, force_zip64) as u64, force_zip64) { 28nat } else { 0nat })
    }
}

proof fn lemma_entries_sum<D: StreamRange>(c: Concatenated<ZipPart<D>>, es: Seq<ZipEntry<D>>, force_zip64: bool, i: int)
    requires
        is_zip_layout(c.0@, es, force_zip64),
        forall|k: int| 0 <= k < es.len() ==> name_bytes(#[trigger] es[k].archive_path@).len() <= 0xFFFF,
        0 <= i <= es.len(),
    ensures
        total_len(c.part_lens().take(2 * i)) == entries_len(es, i, force_zip64),
    decreases i,
{
    let lens = c.part_lens();
    if i == 0 {
        assert(lens.take(0) =~= Seq::<nat>::empty());
    } else {
        let k = i - 1;
        lemma_entries_sum(c, es, force_zip64, k);
        lemma_total_len_take_step(lens, 2 * k);
        lemma_total_len_take_step(lens, 2 * k + 1);
        lemma_header_lens(es[k], 0, force_zip64);
        assert(is_header(c.0@[2 * k], entry_lfh(es[k], force_zip64)));
        assert(lens[2 * k] == entry_lfh(es[k], force_zip64).len());
        assert(lens[2 * k + 1] == es[k].data.spec_len());
    }
}

proof fn lemma_directory_sum<D: StreamRange>(c: Concatenated<ZipPart<D>>, es: Seq<ZipEntry<D>>, force_zip64: bool, j: int)
    requires
        is_zip_layout(c.0@, es, force_zip64),
        forall|k: int| 0 <= k < es.len() ==> name_bytes(#[trigger] es[k].archive_path@).len() <= 0xFFFF,
        total_len(c.part_lens()) <= u64::MAX,
        0 <= j <= es.len(),
    ensures
        total_len(c.part_lens().take(2 * es.len() + j))
            == total_len(c.part_lens().take(2 * es.len() as int)) + directory_len(es, j, force_zip64),
    decreases j,
{
    let lens = c.part_lens();
    let n = es.len() as int;
    if j > 0 {
        let k = j - 1;
        lemma_directory_sum(c, es, force_zip64, k);
        lemma_total_len_take_step(lens, 2 * n + k);
        lemma_zip_positions(c, es, force_zip64);
        lemma_entries_sum(c, es, force_zip64, k);
        assert(total_len(lens.take(2 * k)) == entry_offset(es, k, force_zip64));
        lemma_header_lens(es[k], entry_offset(es, k, force_zip64), force_zip64);
        assert(is_header(c.0@[2 * k], entry_lfh(es[k], force_zip64)));
        assert(is_header(c.0@[2 * n + k], entry_cdfh(es[k], entry_offset(es, k, force_zip64), force_zip64)));
        assert(lens[2 * n + k] == entry_cdfh(es[k], entry_offset(es, k, force_zip64), force_zip64).len());
    }
}

/// Length exactness, entry by entry: when the archive's size fits in 64 bits,
/// its length is the local headers (39 bytes plus the name, 20 more with ZIP64)
/// and data of every entry, their central directory headers (55 bytes plus the
/// name, 28 more with ZIP64), the ZIP64 end record and locator (76 bytes) when
/// they are emitted, and the 22-byte end record.
pub proof fn lemma_zip_length<D: StreamRange>(c: Concatenated<ZipPart<D>>, es: Seq<ZipEntry<D>>, force_zip64: bool)
    requires
        is_zip_layout(c.0@, es, force_zip64),
        forall|k: int| 0 <= k < es.len() ==> name_bytes(#[trigger] es[k].archive_path@).len() <= 0xFFFF,
        total_len(c.part_lens()) <= u64::MAX,
    ensures
        c.spec_len() == entries_len(es, es.len() as int, force_zip64) + directory_len(es, es.len() as int, force_zip64)
            + (if eocd_zip64(
                entries_len(es, es.len() as int, force_zip64) as u64,
                directory_len(es, es.len() as int, force_zip64) as u64,
                es.len() as u64,
                force_zip64,
            ) { 76nat } else { 0nat }) + 22,
{
    let lens = c.part_lens();
    let n = es.len() as int;
    lemma_zip_positions(c, es, force_zip64);
    lemma_entries_sum(c, es, force_zip64, n);
    lemma_directory_positions(c, es, force_zip64, n);
    lemma_directory_sum(c, es, force_zip64, n);
    lemma_total_len_take_le(lens, 3 * n);
    lemma_eocd_len(entry_offset(es, n, force_zip64), cd_size_of(es, n, force_zip64), n as u64, force_zip64);
}

} // verus!
