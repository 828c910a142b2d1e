use vstd::prelude::*;

use crate::bytes::{lower_byte, to_ascii_lower, bytes_eq};
use crate::types::CorpusError;

verus! {

// ----------------------------------------------------------------------------
// The archive entry locator: piz parses the central directory of a
// memory-mapped archive once, and single entries are decompressed directly,
// without touching any other entry.  The calls into piz stand behind trusted
// wrappers; everything around them — the extension predicates, the filtering,
// the indexing discipline — is verified.
// ----------------------------------------------------------------------------

/// How an entry is stored.
#[derive(Clone, Copy, PartialEq, Eq, Structural, Debug)]
pub enum CompressionKind {
    Stored,
    Deflate,
    Unsupported,
}

/// One central-directory entry: a locator only, owning none of the archive
/// bytes.  `index` is the entry's position in the archive's directory order.
pub struct EntryDescriptor {
    pub index: usize,
    pub size: usize,
    pub compressed_size: usize,
    pub crc32: u32,
    pub method: CompressionKind,
    pub encrypted: bool,
    pub is_file: bool,
    pub path: Vec<u8>,
}

// ----------------------------------------------------------------------------
// The preflight check.
//
// piz's parser reads fixed-size records with unchecked slicing and builds
// timestamps with constructors that reject invalid dates by panicking, so on
// malformed bytes it may panic rather than err.  The verified preflight below
// accepts only archives on which every record piz touches is in bounds, every
// MSDOS timestamp is a valid date and time, and none of the zip64 paths is
// taken; the trusted wrappers require it, and `open_piz` tests it first and
// reports the format error itself.  The check is conservative: bytes it
// rejects may still be archives piz could read.
// ----------------------------------------------------------------------------

/// The end-of-central-directory magic.
pub open spec fn eocd_magic() -> Seq<u8> {
    seq![80u8, 75u8, 5u8, 6u8]
}

/// The zip64 end-of-central-directory locator magic.
pub open spec fn zip64_locator_magic() -> Seq<u8> {
    seq![80u8, 75u8, 6u8, 7u8]
}

/// The local file header magic.
pub open spec fn local_magic() -> Seq<u8> {
    seq![80u8, 75u8, 3u8, 4u8]
}

/// The little-endian integer fields of the records.
pub open spec fn u16_le(bytes: Seq<u8>, pos: int) -> int {
    bytes[pos] + 256 * bytes[pos + 1]
}

pub open spec fn u32_le(bytes: Seq<u8>, pos: int) -> int {
    bytes[pos] + 256 * bytes[pos + 1] + 65536 * bytes[pos + 2] + 16777216 * bytes[pos + 3]
}

fn read_u16_le(data: &[u8], pos: usize) -> (r: u16)
    requires
        pos + 2 <= data@.len(),
    ensures
        r as int == u16_le(data@, pos as int),
{
    data[pos] as u16 + 256 * (data[pos + 1] as u16)
}

fn read_u32_le(data: &[u8], pos: usize) -> (r: u32)
    requires
        pos + 4 <= data@.len(),
    ensures
        r as int == u32_le(data@, pos as int),
{
    data[pos] as u32 + 256 * (data[pos + 1] as u32) + 65536 * (data[pos + 2] as u32)
        + 16777216 * (data[pos + 3] as u32)
}

/// The index of the last occurrence of `pat` in `data`.
pub open spec fn spec_rfind_sub(data: Seq<u8>, pat: Seq<u8>) -> Option<int>
    decreases data.len(),
    when 0 < pat.len()
{
    if data.len() < pat.len() {
        None
    } else if data.subrange(data.len() - pat.len(), data.len() as int) == pat {
        Some(data.len() - pat.len())
    } else {
        spec_rfind_sub(data.drop_last(), pat)
    }
}

fn rfind_sub(data: &[u8], pat: &[u8]) -> (r: Option<usize>)
    requires
        0 < pat.len(),
    ensures
        spec_rfind_sub(data@, pat@) == match r {
            Some(i) => Some(i as int),
            None => None::<int>,
        },
        r matches Some(i) ==> i + pat@.len() <= data@.len(),
{
    if data.len() < pat.len() {
        return None;
    }
    let mut i: usize = data.len() - pat.len();
    proof {
        assert(data@.take(data@.len() as int) =~= data@);
    }
    loop
        invariant
            0 < pat@.len() <= data@.len(),
            i + pat@.len() <= data@.len(),
            spec_rfind_sub(data@, pat@) == spec_rfind_sub(data@.take(i + pat@.len()), pat@),
        decreases i,
    {
        let dlen = data.len();
        proof {
            assert(i + pat@.len() <= dlen);
        }
        let window = vstd::slice::slice_subrange(data, i, i + pat.len());
        proof {
            assert(data@.take(i + pat@.len()).subrange(i as int, i + pat@.len()) =~= window@);
            assert(data@.take(i + pat@.len()).drop_last() =~= data@.take(i + pat@.len() - 1));
        }
        if bytes_eq(window, pat) {
            return Some(i);
        }
        if i == 0 {
            proof {
                lemma_rfind_none_short(data@.take(pat@.len() - 1), pat@);
            }
            return None;
        }
        i = i - 1;
    }
}

proof fn lemma_rfind_none_short(data: Seq<u8>, pat: Seq<u8>)
    requires
        data.len() < pat.len(),
    ensures
        spec_rfind_sub(data, pat) is None,
{
}

/// Days of a month of the proleptic Gregorian calendar, as the timestamp
/// library counts them.
pub open spec fn days_in_month(year: int, month: int) -> int {
    if month == 2 {
        if year % 4 == 0 && (year % 100 != 0 || year % 400 == 0) {
            29
        } else {
            28
        }
    } else if month == 4 || month == 6 || month == 9 || month == 11 {
        30
    } else {
        31
    }
}

/// An MSDOS time and date pair the timestamp constructors accept: hours,
/// minutes and doubled seconds in range, and a real calendar date.
pub open spec fn msdos_ok(time: int, date: int) -> bool {
    &&& time % 32 <= 29
    &&& (time / 32) % 64 <= 59
    &&& time / 2048 <= 23
    &&& 1 <= (date / 32) % 16 <= 12
    &&& 1 <= date % 32 <= days_in_month(date / 512 + 1980, (date / 32) % 16)
}

fn msdos_check(time: u16, date: u16) -> (r: bool)
    ensures
        r == msdos_ok(time as int, date as int),
{
    let sec2 = time % 32;
    let minute = (time / 32) % 64;
    let hour = time / 2048;
    let day = date % 32;
    let month = (date / 32) % 16;
    let year: u32 = date as u32 / 512 + 1980;
    let dim: u16 = if month == 2 {
        if year % 4 == 0 && (year % 100 != 0 || year % 400 == 0) {
            29
        } else {
            28
        }
    } else if month == 4 || month == 6 || month == 9 || month == 11 {
        30
    } else {
        31
    };
    sec2 <= 29 && minute <= 59 && hour <= 23 && 1 <= month && month <= 12 && 1 <= day && day
        <= dim
}

/// A well-formed extra field: a run of sub-fields, each a four-byte header
/// and a payload whose stated length stays in bounds and within the range of
/// the parser's signed counter.
pub open spec fn extra_ok(bytes: Seq<u8>, pos: int, end: int) -> bool
    decreases end - pos,
    when 0 <= pos && pos <= end <= bytes.len()
{
    if pos >= end {
        true
    } else if pos + 4 > end {
        false
    } else {
        let flen = u16_le(bytes, pos + 2);
        if flen > 32767 || pos + 4 + flen > end {
            false
        } else {
            extra_ok(bytes, pos + 4 + flen, end)
        }
    }
}

fn extra_check(data: &[u8], pos: usize, end: usize) -> (r: bool)
    requires
        pos <= end <= data@.len(),
    ensures
        r == extra_ok(data@, pos as int, end as int),
{
    let mut cur = pos;
    while cur < end
        invariant
            pos <= cur <= end <= data@.len(),
            extra_ok(data@, pos as int, end as int) == extra_ok(data@, cur as int, end as int),
        decreases end - cur,
    {
        if end - cur < 4 {
            return false;
        }
        let flen = read_u16_le(data, cur + 2);
        if flen > 32767 || flen as usize > end - cur - 4 {
            return false;
        }
        cur = cur + 4 + flen as usize;
    }
    true
}

/// A local file header piz can parse without leaving the mapping: in bounds,
/// the right magic, a valid timestamp, no zip64 size markers, and the entry's
/// compressed data (whose size the central directory gives) in bounds.
pub open spec fn local_ok(bytes: Seq<u8>, ho: int, csize: int) -> bool {
    &&& 0 <= ho
    &&& ho + 30 <= bytes.len()
    &&& bytes.subrange(ho, ho + 4) == local_magic()
    &&& msdos_ok(u16_le(bytes, ho + 10), u16_le(bytes, ho + 12))
    &&& u32_le(bytes, ho + 18) != 0xFFFFFFFF
    &&& u32_le(bytes, ho + 22) != 0xFFFFFFFF
    &&& ho + 30 + u16_le(bytes, ho + 26) + u16_le(bytes, ho + 28) + csize <= bytes.len()
    &&& extra_ok(
        bytes,
        ho + 30 + u16_le(bytes, ho + 26),
        ho + 30 + u16_le(bytes, ho + 26) + u16_le(bytes, ho + 28),
    )
}

fn local_check(data: &[u8], ho: usize, csize: usize) -> (r: bool)
    ensures
        r == local_ok(data@, ho as int, csize as int),
{
    let len = data.len();
    if ho > len || len - ho < 30 {
        return false;
    }
    if !(data[ho] == 80 && data[ho + 1] == 75 && data[ho + 2] == 3 && data[ho + 3] == 4) {
        proof {
            if data@.subrange(ho as int, ho + 4) == local_magic() {
                assert(data@[ho as int] == 80 && data@[ho + 1] == 75 && data@[ho + 2] == 3
                    && data@[ho + 3] == 4);
            }
        }
        return false;
    }
    proof {
        assert(data@.subrange(ho as int, ho + 4) =~= local_magic());
    }
    if !msdos_check(read_u16_le(data, ho + 10), read_u16_le(data, ho + 12)) {
        return false;
    }
    if read_u32_le(data, ho + 18) == 0xFFFFFFFF || read_u32_le(data, ho + 22) == 0xFFFFFFFF {
        return false;
    }
    let nlen = read_u16_le(data, ho + 26) as usize;
    let elen = read_u16_le(data, ho + 28) as usize;
    let mut rem = len - ho - 30;
    if nlen > rem {
        return false;
    }
    rem = rem - nlen;
    if elen > rem {
        return false;
    }
    rem = rem - elen;
    if csize > rem {
        return false;
    }
    extra_check(data, ho + 30 + nlen, ho + 30 + nlen + elen)
}

/// Where the central-directory entry at `pos` ends.
pub open spec fn cd_entry_end(bytes: Seq<u8>, pos: int) -> int {
    pos + 46 + u16_le(bytes, pos + 28) + u16_le(bytes, pos + 30) + u16_le(bytes, pos + 32)
}

/// A central-directory entry piz can parse and turn into metadata without
/// leaving the mapping or building an invalid timestamp, whose sizes carry no
/// zip64 markers, and whose local header passes the same checks.
pub open spec fn cd_entry_ok(bytes: Seq<u8>, pos: int) -> bool {
    &&& 0 <= pos
    &&& pos + 46 <= bytes.len()
    &&& msdos_ok(u16_le(bytes, pos + 12), u16_le(bytes, pos + 14))
    &&& u32_le(bytes, pos + 20) != 0xFFFFFFFF
    &&& u32_le(bytes, pos + 24) != 0xFFFFFFFF
    &&& u32_le(bytes, pos + 42) != 0xFFFFFFFF
    &&& cd_entry_end(bytes, pos) <= bytes.len()
    &&& extra_ok(
        bytes,
        pos + 46 + u16_le(bytes, pos + 28),
        pos + 46 + u16_le(bytes, pos + 28) + u16_le(bytes, pos + 30),
    )
    &&& local_ok(bytes, u32_le(bytes, pos + 42), u32_le(bytes, pos + 20))
}

/// Checks one central-directory entry; `Some` carries where the next starts.
fn cd_entry_check(data: &[u8], pos: usize) -> (r: Option<usize>)
    ensures
        match r {
            Some(next) => cd_entry_ok(data@, pos as int) && next == cd_entry_end(
                data@,
                pos as int,
            ) && pos < next <= data@.len(),
            None => !cd_entry_ok(data@, pos as int),
        },
{
    let len = data.len();
    if pos > len || len - pos < 46 {
        return None;
    }
    if !msdos_check(read_u16_le(data, pos + 12), read_u16_le(data, pos + 14)) {
        return None;
    }
    let csize = read_u32_le(data, pos + 20);
    if csize == 0xFFFFFFFF || read_u32_le(data, pos + 24) == 0xFFFFFFFF {
        return None;
    }
    let ho = read_u32_le(data, pos + 42);
    if ho == 0xFFFFFFFF {
        return None;
    }
    let nlen = read_u16_le(data, pos + 28) as usize;
    let elen = read_u16_le(data, pos + 30) as usize;
    let clen = read_u16_le(data, pos + 32) as usize;
    let mut rem = len - pos - 46;
    if nlen > rem {
        return None;
    }
    rem = rem - nlen;
    if elen > rem {
        return None;
    }
    rem = rem - elen;
    if clen > rem {
        return None;
    }
    if !extra_check(data, pos + 46 + nlen, pos + 46 + nlen + elen) {
        return None;
    }
    if !local_check(data, ho as usize, csize as usize) {
        return None;
    }
    Some(pos + 46 + nlen + elen + clen)
}

/// All `k` central-directory entries from `pos` on pass the check.
pub open spec fn cd_walk_ok(bytes: Seq<u8>, pos: int, k: int) -> bool
    decreases k,
{
    if k <= 0 {
        true
    } else if cd_entry_ok(bytes, pos) {
        cd_walk_ok(bytes, cd_entry_end(bytes, pos), k - 1)
    } else {
        false
    }
}

fn cd_walk_check(data: &[u8], pos: usize, k: usize) -> (r: bool)
    requires
        pos <= data@.len(),
    ensures
        r == cd_walk_ok(data@, pos as int, k as int),
{
    let mut cur = pos;
    let mut left = k;
    while left > 0
        invariant
            cur <= data@.len(),
            left <= k,
            cd_walk_ok(data@, pos as int, k as int) == cd_walk_ok(
                data@,
                cur as int,
                left as int,
            ),
        decreases left,
    {
        match cd_entry_check(data, cur) {
            Some(next) => {
                cur = next;
                left = left - 1;
            },
            None => {
                return false;
            },
        }
    }
    true
}

/// The archives the trusted wrappers admit: one end-of-central-directory
/// record in bounds, no zip64 locator, no prepended data (the directory ends
/// exactly where the end record starts), and every directory entry and local
/// header well formed as above.
pub open spec fn spec_zip_preflight(bytes: Seq<u8>) -> bool {
    match spec_rfind_sub(bytes, eocd_magic()) {
        None => false,
        Some(p) => {
            &&& p + 22 <= bytes.len()
            &&& p + 22 + u16_le(bytes, p + 20) <= bytes.len()
            &&& !(p >= 20 && bytes.subrange(p - 20, p - 16) == zip64_locator_magic())
            &&& u32_le(bytes, p + 16) + u32_le(bytes, p + 12) == p
            &&& cd_walk_ok(bytes, u32_le(bytes, p + 16), u16_le(bytes, p + 10))
        },
    }
}

/// The runtime test of the preflight: what `open_piz` asks before any call
/// into the archive reader.
pub fn zip_preflight(data: &[u8]) -> (r: bool)
    ensures
        r == spec_zip_preflight(data@),
{
    let mut magic: Vec<u8> = Vec::new();
    magic.push(80);
    magic.push(75);
    magic.push(5);
    magic.push(6);
    proof {
        assert(magic@ =~= eocd_magic());
    }
    let p = match rfind_sub(data, magic.as_slice()) {
        Some(p) => p,
        None => {
            return false;
        },
    };
    let len = data.len();
    if len - p < 22 {
        return false;
    }
    let comment_len = read_u16_le(data, p + 20) as usize;
    if comment_len > len - p - 22 {
        return false;
    }
    if p >= 20 {
        let is_loc = data[p - 20] == 80 && data[p - 19] == 75 && data[p - 18] == 6 && data[p
            - 17] == 7;
        proof {
            if is_loc {
                assert(data@.subrange(p - 20, p - 16) =~= zip64_locator_magic());
            }
            if data@.subrange(p - 20, p - 16) == zip64_locator_magic() {
                assert(data@[p - 20] == 80 && data@[p - 19] == 75 && data@[p - 18] == 6
                    && data@[p - 17] == 7);
            }
        }
        if is_loc {
            return false;
        }
    }
    let cd_size = read_u32_le(data, p + 12) as u64;
    let cd_off = read_u32_le(data, p + 16) as u64;
    if cd_off + cd_size != p as u64 {
        return false;
    }
    let n = read_u16_le(data, p + 10);
    cd_walk_check(data, cd_off as usize, n as usize)
}

#[verifier::external_type_specification]
#[verifier::external_body]
pub struct ExZipArchive<'a>(piz::read::ZipArchive<'a>);

/// Whether piz accepts these bytes as a ZIP archive: a function of the bytes
/// alone.
pub uninterp spec fn zip_parses(bytes: Seq<u8>) -> bool;

/// The entry list piz's central-directory parse yields for these bytes.
pub uninterp spec fn zip_entries_of(bytes: Seq<u8>) -> Seq<EntryDescriptor>;

/// The decompressed contents of entry `i` of these bytes.
pub uninterp spec fn zip_data_of(bytes: Seq<u8>, i: int) -> Seq<u8>;

/// What an open archive value holds: its directory entries.
pub uninterp spec fn zip_entry_list(ar: piz::read::ZipArchive) -> Seq<EntryDescriptor>;

/// The decompressed contents of entry `i` of an open archive value.
pub uninterp spec fn zip_entry_data(ar: piz::read::ZipArchive, i: int) -> Seq<u8>;

/// The mapped bytes an open archive value was parsed from.
pub uninterp spec fn zip_archive_bytes(ar: piz::read::ZipArchive) -> Seq<u8>;

/// Whether fully reading entry `i` of these bytes succeeds: decompression and
/// checksum validation are deterministic in the bytes and the index.
pub uninterp spec fn zip_read_ok(bytes: Seq<u8>, i: int) -> bool;

/// The CRC-32 checksum the reader computes over decompressed contents: a
/// function of the contents alone.
pub uninterp spec fn crc32_of(contents: Seq<u8>) -> u32;

/// Relies on piz's `ZipArchive::new`: parsing the central directory is a
/// deterministic function of the archive bytes, and succeeds exactly when the
/// bytes form an archive piz accepts.  The preflight in `requires` excludes
/// the inputs on which the parser would not return: truncated records,
/// invalid MSDOS timestamps, zip64 archives and prepended data.
#[verifier::external_body]
fn zip_open<'a>(bytes: &'a [u8]) -> (r: Result<piz::read::ZipArchive<'a>, String>)
    requires
        spec_zip_preflight(bytes@),
    ensures
        r is Ok <==> zip_parses(bytes@),
        match r {
            Ok(ar) => zip_archive_bytes(ar) == bytes@ && zip_entry_list(ar) == zip_entries_of(
                bytes@,
            ) && forall|i: int| zip_entry_data(ar, i) == #[trigger] zip_data_of(bytes@, i),
            Err(_) => true,
        },
{
    match piz::read::ZipArchive::new(bytes) {
        Ok(ar) => Ok(ar),
        Err(e) => Err(format!("{}", e)),
    }
}

/// Relies on piz's `ZipArchive::entries`: the central directory was scanned
/// once at open time, so its length is fixed.
#[verifier::external_body]
fn zip_len(ar: &piz::read::ZipArchive) -> (r: usize)
    ensures
        r == zip_entry_list(*ar).len(),
{
    ar.entries().len()
}

/// Relies on piz's `ZipArchive::entries`: the metadata of entry `i`, moved
/// field by field into the library's descriptor.
#[verifier::external_body]
fn zip_entry(ar: &piz::read::ZipArchive, i: usize) -> (r: EntryDescriptor)
    requires
        i < zip_entry_list(*ar).len(),
    ensures
        r == zip_entry_list(*ar)[i as int],
        r.index == i,
{
    let m = &ar.entries()[i];
    EntryDescriptor {
        index: i,
        size: m.size,
        compressed_size: m.compressed_size,
        crc32: m.crc32,
        method: match m.compression_method {
            piz::read::CompressionMethod::None => CompressionKind::Stored,
            piz::read::CompressionMethod::Deflate => CompressionKind::Deflate,
            piz::read::CompressionMethod::Unsupported(_) => CompressionKind::Unsupported,
        },
        encrypted: m.encrypted,
        is_file: m.is_file(),
        path: m.path.as_str().as_bytes().to_vec(),
    }
}

/// Relies on piz's `ZipArchive::read`: decompressing one entry reads only
/// that entry, and the reader checks the decompressed CRC-32 against the
/// central directory's stored checksum as it reads, erring on mismatch — so a
/// fully read entry matches its stored checksum, and both the contents and
/// whether the read succeeds are deterministic functions of the archive bytes
/// and the index.  The preflight in `requires` excludes the inputs on which
/// the local-header parse would not return.
#[verifier::external_body]
fn zip_read(ar: &piz::read::ZipArchive, i: usize) -> (r: Result<Vec<u8>, String>)
    requires
        spec_zip_preflight(zip_archive_bytes(*ar)),
        i < zip_entry_list(*ar).len(),
    ensures
        r is Ok <==> zip_read_ok(zip_archive_bytes(*ar), i as int),
        match r {
            Ok(v) => v@ == zip_entry_data(*ar, i as int) && crc32_of(v@) == zip_entry_list(
                *ar,
            )[i as int].crc32,
            Err(_) => true,
        },
{
    let run = || -> Result<Vec<u8>, piz::result::ZipError> {
        let mut reader = ar.read(&ar.entries()[i])?;
        let mut out = Vec::new();
        std::io::Read::read_to_end(&mut reader, &mut out)?;
        Ok(out)
    };
    run().map_err(|e| format!("{}", e))
}

// ----------------------------------------------------------------------------
// Extension predicates and filtering, verified.
// ----------------------------------------------------------------------------

/// The extension of a path: what follows the last `.` of its last component,
/// provided that dot is neither the component's first byte nor its last.
pub open spec fn spec_extension(path: Seq<u8>) -> Option<Seq<u8>> {
    let name_start = match last_of(path, 47u8) {
        Some(s) => s + 1,
        None => 0,
    };
    match last_of(path, 46u8) {
        Some(d) => if d > name_start && d + 1 < path.len() {
            Some(path.subrange(d + 1, path.len() as int))
        } else {
            None
        },
        None => None,
    }
}

/// The index of the last occurrence of `b`.
pub open spec fn last_of(path: Seq<u8>, b: u8) -> Option<int>
    decreases path.len(),
{
    if path.len() == 0 {
        None
    } else if path.last() == b {
        Some(path.len() - 1)
    } else {
        match last_of(path.drop_last(), b) {
            Some(i) => Some(i),
            None => None,
        }
    }
}

proof fn lemma_last_of(path: Seq<u8>, b: u8)
    ensures
        match last_of(path, b) {
            Some(i) => 0 <= i < path.len() && path[i] == b && forall|j: int|
                i < j < path.len() ==> path[j] != b,
            None => forall|j: int| 0 <= j < path.len() ==> path[j] != b,
        },
    decreases path.len(),
{
    if path.len() > 0 && path.last() != b {
        lemma_last_of(path.drop_last(), b);
        assert(forall|j: int| 0 <= j < path.len() - 1 ==> path[j] == path.drop_last()[j]);
    }
}

/// The last occurrence of `b` in `data`.
fn rfind_byte(data: &[u8], b: u8) -> (r: Option<usize>)
    ensures
        last_of(data@, b) == match r {
            Some(i) => Some(i as int),
            None => None::<int>,
        },
        r matches Some(i) ==> i < data@.len(),
{
    let mut i: usize = data.len();
    proof {
        assert(data@.take(data@.len() as int) =~= data@);
    }
    while i > 0
        invariant
            i <= data@.len(),
            last_of(data@, b) == last_of(data@.take(i as int), b),
        decreases i,
    {
        proof {
            lemma_last_of(data@.take(i as int), b);
            assert(data@.take(i as int).len() == i);
            assert(data@.take(i as int).last() == data@[i - 1]);
            assert(data@.take(i as int).drop_last() =~= data@.take(i - 1));
        }
        if data[i - 1] == b {
            return Some(i - 1);
        }
        i = i - 1;
    }
    proof {
        lemma_last_of(data@.take(0), b);
    }
    None
}

/// The extension of `path`, if any.
pub fn extension_of(path: &[u8]) -> (r: Option<&[u8]>)
    ensures
        match (r, spec_extension(path@)) {
            (Some(e), Some(s)) => e@ == s,
            (None, None) => true,
            _ => false,
        },
{
    proof {
        lemma_last_of(path@, 47u8);
        lemma_last_of(path@, 46u8);
    }
    let plen = path.len();
    let name_start: usize = match rfind_byte(path, 47) {
        Some(s) => {
            proof {
                assert(s < plen);
            }
            s + 1
        },
        None => 0,
    };
    match rfind_byte(path, 46) {
        Some(d) => {
            proof {
                assert(d < plen);
            }
            if d > name_start && d + 1 < path.len() {
                Some(vstd::slice::slice_subrange(path, d + 1, path.len()))
            } else {
                None
            }
        },
        None => None,
    }
}

/// Which entries a corpus format takes from the archive.
pub enum EntryFilter {
    Xml,
    Vrt,
}

pub open spec fn xml_ext() -> Seq<u8> {
    seq![120u8, 109u8, 108u8]
}

pub open spec fn vrt_ext() -> Seq<u8> {
    seq![118u8, 114u8, 116u8]
}

/// Whether an entry belongs to the corpus: a file whose extension is `xml`
/// (exactly), or whose extension lowercases to `vrt`.
pub open spec fn entry_matches(f: EntryFilter, e: EntryDescriptor) -> bool {
    match f {
        EntryFilter::Xml => e.is_file && spec_extension(e.path@) == Some(xml_ext()),
        EntryFilter::Vrt => e.is_file && match spec_extension(e.path@) {
            Some(x) => x.map_values(|b: u8| lower_byte(b)) == vrt_ext(),
            None => false,
        },
    }
}

/// An archive member holding a subtitle document.
pub fn is_xml_file(e: &EntryDescriptor) -> (r: bool)
    ensures
        r == entry_matches(EntryFilter::Xml, *e),
{
    if !e.is_file {
        return false;
    }
    match extension_of(e.path.as_slice()) {
        Some(ext) => {
            let r = ext.len() == 3 && ext[0] == 120 && ext[1] == 109 && ext[2] == 108;
            proof {
                if r {
                    assert(ext@ =~= xml_ext());
                }
                if ext@ == xml_ext() {
                    assert(ext@.len() == 3 && ext@[0] == 120 && ext@[1] == 109 && ext@[2]
                        == 108);
                }
            }
            r
        },
        None => false,
    }
}

/// An archive member holding a nested-tag document file, extension matched
/// case-insensitively.
pub fn is_vrt_file(e: &EntryDescriptor) -> (r: bool)
    ensures
        r == entry_matches(EntryFilter::Vrt, *e),
{
    if !e.is_file {
        return false;
    }
    match extension_of(e.path.as_slice()) {
        Some(ext) => {
            let low = to_ascii_lower(ext);
            let r = low.len() == 3 && low[0] == 118 && low[1] == 114 && low[2] == 116;
            proof {
                let lv = ext@.map_values(|b: u8| lower_byte(b));
                assert(low@ == lv);
                if r {
                    assert(lv =~= vrt_ext());
                }
                if lv == vrt_ext() {
                    assert(lv.len() == 3 && lv[0] == 118 && lv[1] == 114 && lv[2] == 116);
                }
            }
            r
        },
        None => false,
    }
}

pub fn entry_matches_exec(f: &EntryFilter, e: &EntryDescriptor) -> (r: bool)
    ensures
        r == entry_matches(*f, *e),
{
    match f {
        EntryFilter::Xml => is_xml_file(e),
        EntryFilter::Vrt => is_vrt_file(e),
    }
}

/// The entries that match, in directory order.
pub open spec fn spec_filtered(s: Seq<EntryDescriptor>, f: EntryFilter) -> Seq<
    EntryDescriptor,
>
    decreases s.len(),
{
    if s.len() == 0 {
        Seq::empty()
    } else {
        spec_filtered(s.drop_last(), f) + (if entry_matches(f, s.last()) {
            seq![s.last()]
        } else {
            Seq::empty()
        })
    }
}

/// Keeps the matching entries, in order.
pub fn filter_zip_entries(entries: Vec<EntryDescriptor>, pred: &EntryFilter) -> (r: Vec<
    EntryDescriptor,
>)
    ensures
        r@ == spec_filtered(entries@, *pred),
{
    let ghost orig = entries@;
    let mut out: Vec<EntryDescriptor> = Vec::new();
    let mut rest = entries;
    let ghost mut consumed: int = 0;
    proof {
        assert(orig.take(0) =~= Seq::<EntryDescriptor>::empty());
    }
    while rest.len() > 0
        invariant
            0 <= consumed <= orig.len(),
            rest@ =~= orig.skip(consumed),
            out@ == spec_filtered(orig.take(consumed), *pred),
        decreases rest@.len(),
    {
        let e = rest.remove(0);
        proof {
            assert(e == orig[consumed]);
            assert(rest@ =~= orig.skip(consumed + 1));
            assert(orig.take(consumed + 1).drop_last() =~= orig.take(consumed));
            assert(orig.take(consumed + 1).last() == orig[consumed]);
        }
        let keep = entry_matches_exec(pred, &e);
        let ghost out_old = out@;
        if keep {
            out.push(e);
            proof {
                assert(out@ =~= out_old + seq![orig[consumed]]);
            }
        } else {
            proof {
                assert(out@ =~= out_old + Seq::<EntryDescriptor>::empty());
            }
        }
        proof {
            consumed = consumed + 1;
        }
    }
    proof {
        assert(orig.take(consumed) =~= orig);
    }
    out
}

/// Opens an archive: one central-directory scan, then the matching entries.
/// Fails with the format error when the bytes are no valid archive, and with
/// a configuration error when no entry matches — every downstream pass would
/// be vacuous.
pub fn open_piz<'a>(bytes: &'a [u8], pred: &EntryFilter) -> (r: Result<
    (piz::read::ZipArchive<'a>, Vec<EntryDescriptor>),
    CorpusError,
>)
    ensures
        match r {
            Ok((ar, v)) => {
                &&& spec_zip_preflight(bytes@)
                &&& zip_parses(bytes@)
                &&& zip_archive_bytes(ar) == bytes@
                &&& zip_entry_list(ar) == zip_entries_of(bytes@)
                &&& forall|i: int| zip_entry_data(ar, i) == #[trigger] zip_data_of(bytes@, i)
                &&& v@ == spec_filtered(zip_entries_of(bytes@), *pred)
                &&& v@.len() > 0
                &&& forall|j: int|
                    0 <= j < v@.len() ==> (#[trigger] v@[j].index) < zip_entries_of(
                        bytes@,
                    ).len() && zip_entries_of(bytes@)[v@[j].index as int] == v@[j]
            },
            Err(CorpusError::Format { .. }) => !spec_zip_preflight(bytes@) || !zip_parses(
                bytes@,
            ),
            Err(CorpusError::Config { .. }) => spec_zip_preflight(bytes@) && zip_parses(bytes@)
                && spec_filtered(zip_entries_of(bytes@), *pred).len() == 0,
            Err(_) => false,
        },
{
    if !zip_preflight(bytes) {
        return Err(CorpusError::Format { offset: 0 });
    }
    let ar = match zip_open(bytes) {
        Ok(ar) => ar,
        Err(_) => {
            return Err(CorpusError::Format { offset: 0 });
        },
    };
    let n = zip_len(&ar);
    let mut all: Vec<EntryDescriptor> = Vec::new();
    let mut i: usize = 0;
    while i < n
        invariant
            i <= n == zip_entry_list(ar).len(),
            all@.len() == i,
            forall|j: int|
                0 <= j < i ==> (#[trigger] all@[j]) == zip_entry_list(ar)[j] && all@[j].index
                    == j,
        decreases n - i,
    {
        let e = zip_entry(&ar, i);
        all.push(e);
        i = i + 1;
    }
    let ghost list = zip_entry_list(ar);
    proof {
        assert(all@ =~= list);
    }
    let filtered = filter_zip_entries(all, pred);
    if filtered.len() == 0 {
        return Err(
            CorpusError::Config { detail: String::from_str("no matching archive entries") },
        );
    }
    proof {
        lemma_filtered_membership(list, *pred);
        assert forall|j: int|
            0 <= j < filtered@.len() implies (#[trigger] filtered@[j].index) < list.len()
                && list[filtered@[j].index as int] == filtered@[j] by {
            assert(exists|w: int|
                0 <= w < list.len() && list[w] == #[trigger] spec_filtered(list, *pred)[j]);
            let w = choose|w: int| 0 <= w < list.len() && list[w] == filtered@[j];
            assert(list[w].index == w);
        }
    }
    Ok((ar, filtered))
}

/// Every filtered entry stands somewhere in the original list.
proof fn lemma_filtered_membership(s: Seq<EntryDescriptor>, f: EntryFilter)
    ensures
        forall|j: int|
            0 <= j < spec_filtered(s, f).len() ==> exists|w: int|
                0 <= w < s.len() && s[w] == #[trigger] spec_filtered(s, f)[j],
    decreases s.len(),
{
    if s.len() > 0 {
        lemma_filtered_membership(s.drop_last(), f);
        let fd = spec_filtered(s.drop_last(), f);
        assert forall|j: int|
            0 <= j < spec_filtered(s, f).len() implies exists|w: int|
                0 <= w < s.len() && s[w] == #[trigger] spec_filtered(s, f)[j] by {
            if j < fd.len() {
                assert(spec_filtered(s, f)[j] == fd[j]);
                let w = choose|w: int| 0 <= w < s.drop_last().len() && s.drop_last()[w] == fd[j];
                assert(s[w] == spec_filtered(s, f)[j]);
            } else {
                assert(spec_filtered(s, f)[j] == s.last());
                assert(s[s.len() - 1] == spec_filtered(s, f)[j]);
            }
        }
    }
}

/// Some entry of the filtered list carries the index `entry` and cannot be
/// fully read from these bytes: how an integrity failure is pinned to its
/// entry in the passes' contracts.
#[verifier::opaque]
pub open spec fn read_fails_at(
    bytes: Seq<u8>,
    f: Seq<EntryDescriptor>,
    entry: int,
) -> bool {
    exists|j: int|
        0 <= j < f.len() && (#[trigger] f[j]).index == entry && !zip_read_ok(bytes, entry)
}

/// Extracts one located entry from the mapped bytes it was located in.
/// Succeeds exactly when decompressing and checksum-validating that entry of
/// those bytes succeeds.
pub fn read_entry(ar: &piz::read::ZipArchive, e: &EntryDescriptor) -> (r: Result<
    Vec<u8>,
    CorpusError,
>)
    requires
        spec_zip_preflight(zip_archive_bytes(*ar)),
        e.index < zip_entry_list(*ar).len(),
    ensures
        r is Ok <==> zip_read_ok(zip_archive_bytes(*ar), e.index as int),
        match r {
            Ok(v) => v@ == zip_entry_data(*ar, e.index as int) && crc32_of(v@)
                == zip_entry_list(*ar)[e.index as int].crc32,
            Err(CorpusError::Integrity { entry, .. }) => entry == e.index,
            Err(_) => false,
        },
{
    match zip_read(ar, e.index) {
        Ok(v) => Ok(v),
        Err(detail) => Err(CorpusError::Integrity { entry: e.index, detail }),
    }
}

} // verus!
