use wordfreak::opensubs18::OpenSubs18Corpus;
use wordfreak::vrt::VrtCorpus;
use wordfreak::types::CorpusError;
use wordfreak::vocab::VocabMap;

/// CRC-32 (IEEE), bit by bit: only used to stamp the hand-built archives.
fn crc32(data: &[u8]) -> u32 {
    let mut crc: u32 = 0xFFFF_FFFF;
    for &b in data {
        crc ^= b as u32;
        for _ in 0..8 {
            if crc & 1 != 0 {
                crc = (crc >> 1) ^ 0xEDB8_8320;
            } else {
                crc >>= 1;
            }
        }
    }
    !crc
}

/// A raw DEFLATE stream of one stored (uncompressed) block.
fn deflate_stored(data: &[u8]) -> Vec<u8> {
    let len = data.len() as u16;
    let mut out = vec![0x01];
    out.extend_from_slice(&len.to_le_bytes());
    out.extend_from_slice(&(!len).to_le_bytes());
    out.extend_from_slice(data);
    out
}

struct ZipEntrySpec<'a> {
    name: &'a str,
    contents: &'a [u8],
    deflate: bool,
}

/// Builds a minimal ZIP archive: local headers, central directory, end
/// record.
fn build_zip(entries: &[ZipEntrySpec]) -> Vec<u8> {
    let mut out: Vec<u8> = Vec::new();
    let mut centrals: Vec<u8> = Vec::new();
    for e in entries {
        let offset = out.len() as u32;
        let crc = crc32(e.contents);
        let stored;
        let (method, payload): (u16, &[u8]) = if e.deflate {
            stored = deflate_stored(e.contents);
            (8, stored.as_slice())
        } else {
            (0, e.contents)
        };
        let csize = payload.len() as u32;
        let usize_ = e.contents.len() as u32;
        // local file header
        out.extend_from_slice(&[0x50, 0x4B, 0x03, 0x04]);
        out.extend_from_slice(&20u16.to_le_bytes()); // version needed
        out.extend_from_slice(&0u16.to_le_bytes()); // flags
        out.extend_from_slice(&method.to_le_bytes());
        out.extend_from_slice(&0u16.to_le_bytes()); // time
        out.extend_from_slice(&0x21u16.to_le_bytes()); // date
        out.extend_from_slice(&crc.to_le_bytes());
        out.extend_from_slice(&csize.to_le_bytes());
        out.extend_from_slice(&usize_.to_le_bytes());
        out.extend_from_slice(&(e.name.len() as u16).to_le_bytes());
        out.extend_from_slice(&0u16.to_le_bytes()); // extra len
        out.extend_from_slice(e.name.as_bytes());
        out.extend_from_slice(payload);
        // central directory entry
        centrals.extend_from_slice(&[0x50, 0x4B, 0x01, 0x02]);
        centrals.extend_from_slice(&20u16.to_le_bytes()); // made by
        centrals.extend_from_slice(&20u16.to_le_bytes()); // needed
        centrals.extend_from_slice(&0u16.to_le_bytes()); // flags
        centrals.extend_from_slice(&method.to_le_bytes());
        centrals.extend_from_slice(&0u16.to_le_bytes()); // time
        centrals.extend_from_slice(&0x21u16.to_le_bytes()); // date
        centrals.extend_from_slice(&crc.to_le_bytes());
        centrals.extend_from_slice(&csize.to_le_bytes());
        centrals.extend_from_slice(&usize_.to_le_bytes());
        centrals.extend_from_slice(&(e.name.len() as u16).to_le_bytes());
        centrals.extend_from_slice(&0u16.to_le_bytes()); // extra
        centrals.extend_from_slice(&0u16.to_le_bytes()); // comment
        centrals.extend_from_slice(&0u16.to_le_bytes()); // disk
        centrals.extend_from_slice(&0u16.to_le_bytes()); // internal attrs
        centrals.extend_from_slice(&0u32.to_le_bytes()); // external attrs
        centrals.extend_from_slice(&offset.to_le_bytes());
        centrals.extend_from_slice(e.name.as_bytes());
    }
    let cd_offset = out.len() as u32;
    let cd_size = centrals.len() as u32;
    out.extend_from_slice(&centrals);
    out.extend_from_slice(&[0x50, 0x4B, 0x05, 0x06]);
    out.extend_from_slice(&0u16.to_le_bytes()); // disk
    out.extend_from_slice(&0u16.to_le_bytes()); // cd disk
    out.extend_from_slice(&(entries.len() as u16).to_le_bytes());
    out.extend_from_slice(&(entries.len() as u16).to_le_bytes());
    out.extend_from_slice(&cd_size.to_le_bytes());
    out.extend_from_slice(&cd_offset.to_le_bytes());
    out.extend_from_slice(&0u16.to_le_bytes()); // comment
    out
}

#[test]
fn subtitle_archive_counts_across_entries() {
    let doc1 = b"<s><w lemma=\"cat\">Cat</w><w lemma=\"sat\">sat</w></s>";
    let doc2 = b"<s><w lemma=\"cat\">cat</w></s>";
    let zip = build_zip(&[
        ZipEntrySpec { name: "a/one.xml", contents: doc1, deflate: false },
        ZipEntrySpec { name: "a/skip.txt", contents: b"not xml", deflate: false },
        ZipEntrySpec { name: "a/two.xml", contents: doc2, deflate: true },
    ]);
    let corpus = OpenSubs18Corpus::new(b"lemma");
    let (builder, docs) = corpus.count_words(&zip).unwrap();
    assert_eq!(docs, 2);
    let (vocab, counts, total) = builder.build();
    assert_eq!(total, 3);
    assert_eq!(vocab.get(b"cat"), Some(0));
    assert_eq!(vocab.get(b"sat"), Some(1));
    assert_eq!(counts, vec![2, 1]);

    let bows = corpus.gen_doc_bows(&zip, &vocab).unwrap();
    assert_eq!(bows.len(), 2);
    assert_eq!(bows[0].total(), 2);
    assert_eq!(bows[0].entries().as_slice(), &[(0, 1), (1, 1)]);
    assert_eq!(bows[1].total(), 1);
    assert_eq!(bows[1].entries().as_slice(), &[(0, 1)]);
}

#[test]
fn vrt_archive_counts_and_warns() {
    let whole = b"<text>\n<sentence>\na\tA\tcat\n</sentence>\n</text>\n";
    let cut = b"<text>\n<sentence>\nb\tB\tdog\n";
    let zip = build_zip(&[
        ZipEntrySpec { name: "x/one.VRT", contents: whole, deflate: false },
        ZipEntrySpec { name: "x/two.vrt", contents: cut, deflate: true },
    ]);
    let corpus = VrtCorpus::new();
    let (builder, docs, warnings) = corpus.count_words(&zip).unwrap();
    assert_eq!(docs, 2);
    assert_eq!(warnings, 1);
    let (vocab, counts, total) = builder.build();
    assert_eq!(total, 1);
    assert_eq!(counts, vec![1]);
    assert!(vocab.get(b"cat\n").is_some());
    assert!(vocab.get(b"dog\n").is_none());

    let mut vocab2 = VocabMap::new();
    vocab2.insert(b"cat\n", 0);
    let (bows, warnings2) = corpus.gen_doc_bows(&zip, &vocab2).unwrap();
    assert_eq!(warnings2, 1);
    assert_eq!(bows.len(), 1);
    assert_eq!(bows[0].entries().as_slice(), &[(0, 1)]);
}

#[test]
fn invalid_archive_is_a_format_error() {
    let corpus = OpenSubs18Corpus::new(b"lemma");
    match corpus.count_words(b"not a zip archive at all") {
        Err(CorpusError::Format { .. }) => {},
        other => panic!("expected a format error, got {:?}", other.is_ok()),
    }
}

#[test]
fn no_matching_entries_is_a_config_error() {
    let zip = build_zip(&[ZipEntrySpec { name: "readme.txt", contents: b"hi", deflate: false }]);
    let corpus = OpenSubs18Corpus::new(b"lemma");
    match corpus.count_words(&zip) {
        Err(CorpusError::Config { .. }) => {},
        other => panic!("expected a configuration error, got {:?}", other.is_ok()),
    }
}

#[test]
fn corrupted_entry_is_an_integrity_error() {
    let doc = b"<s><w lemma=\"cat\">Cat</w></s>";
    let mut zip = build_zip(&[ZipEntrySpec { name: "one.xml", contents: doc, deflate: false }]);
    // flip a byte of the stored contents so the checksum no longer matches
    let pos = 30 + "one.xml".len() + 5;
    zip[pos] ^= 0xFF;
    let corpus = OpenSubs18Corpus::new(b"lemma");
    match corpus.count_words(&zip) {
        Err(CorpusError::Integrity { entry, .. }) => assert_eq!(entry, 0),
        other => panic!("expected an integrity error, got {:?}", other.is_ok()),
    }
}

#[test]
fn malformed_markup_reports_its_offset() {
    let doc = b"<s><w lemma=\"cat\">Cat</w><broken";
    let zip = build_zip(&[ZipEntrySpec { name: "one.xml", contents: doc, deflate: false }]);
    let corpus = OpenSubs18Corpus::new(b"lemma");
    match corpus.count_words(&zip) {
        Err(CorpusError::Format { offset }) => assert_eq!(offset, 25),
        other => panic!("expected a format error, got {:?}", other.is_ok()),
    }
}

#[test]
fn bare_end_record_magic_is_a_format_error() {
    // nothing but the end-record magic: too short for the record itself
    let corpus = OpenSubs18Corpus::new(b"lemma");
    match corpus.count_words(b"PK\x05\x06") {
        Err(CorpusError::Format { .. }) => {},
        other => panic!("expected a format error, got {:?}", other.is_ok()),
    }
}

#[test]
fn zeroed_timestamp_is_a_format_error() {
    // an MSDOS date of zero has month zero and day zero: no valid timestamp
    // can be built from it, so the archive is turned away up front
    let doc = b"<s><w lemma=\"cat\">Cat</w></s>";
    let mut zip = build_zip(&[ZipEntrySpec { name: "one.xml", contents: doc, deflate: false }]);
    let local_len = 30 + "one.xml".len() + doc.len();
    // zero the date field of the local header and of the central entry
    zip[12] = 0;
    zip[13] = 0;
    zip[local_len + 14] = 0;
    zip[local_len + 15] = 0;
    let corpus = OpenSubs18Corpus::new(b"lemma");
    match corpus.count_words(&zip) {
        Err(CorpusError::Format { .. }) => {},
        other => panic!("expected a format error, got {:?}", other.is_ok()),
    }
}

#[test]
fn truncated_end_record_is_a_format_error() {
    // a whole archive cut off in the middle of its end record
    let doc = b"<s><w lemma=\"cat\">Cat</w></s>";
    let zip = build_zip(&[ZipEntrySpec { name: "one.xml", contents: doc, deflate: false }]);
    let cut = &zip[..zip.len() - 10];
    let corpus = OpenSubs18Corpus::new(b"lemma");
    match corpus.count_words(cut) {
        Err(CorpusError::Format { .. }) => {},
        other => panic!("expected a format error, got {:?}", other.is_ok()),
    }
}
