use vstd::prelude::*;

use crate::markup::{XmlEvent, XmlEventE, next_event, lemma_next_event_advances, scan_event,
    spec_name_end, name_end, AttrScan, AttrScanE, attr_lookup, attr_scan, spec_unescape,
    unescape_bytes};
use crate::vocab::{VocabBuilder, token_counts, spec_merged};
use crate::types::{CorpusError, DocBow, bow_counts, bow_total};
use crate::zip::{EntryDescriptor, EntryFilter, spec_filtered, zip_parses, zip_entries_of,
    zip_data_of, zip_entry_list, zip_entry_data, zip_archive_bytes, spec_zip_preflight,
    read_fails_at};

verus! {

// ----------------------------------------------------------------------------
// Tag-attribute corpora (subtitle archives): every start tag named `w` is
// scanned for a configured attribute key, and the attribute's unescaped value
// is the token.  One archive entry is one document.  Malformed markup is
// fatal, with the byte offset reported.
// ----------------------------------------------------------------------------

/// The token-bearing tag name `w`.
pub open spec fn w_name() -> Seq<u8> {
    seq![119u8]
}

/// The next token at or after `pos`: its unescaped bytes and the position
/// after its tag, the end of the entry, or the offset of malformed markup.
pub enum WTok {
    Tok { token: Seq<u8>, next: int },
    End,
    Fail { at: int },
}

pub open spec fn next_w_token(data: Seq<u8>, pos: int, key: Seq<u8>) -> WTok
    decreases data.len() - pos,
    when 0 <= pos <= data.len()
    via next_w_token_decreases
{
    match next_event(data, pos) {
        XmlEvent::Eof => WTok::End,
        XmlEvent::Fail { at } => WTok::Fail { at },
        XmlEvent::Text { end, .. } => next_w_token(data, end, key),
        XmlEvent::Skip { next } => next_w_token(data, next, key),
        XmlEvent::End { next, .. } => next_w_token(data, next, key),
        XmlEvent::Start { inner_start, inner_end, next, empty } => {
            if empty {
                next_w_token(data, next, key)
            } else {
                let ne = spec_name_end(data, inner_start, inner_end);
                if data.subrange(inner_start, ne) == w_name() {
                    match attr_lookup(data, ne, inner_end, key) {
                        AttrScan::Found { vstart, vend } => match spec_unescape(
                            data.subrange(vstart, vend),
                            0,
                        ) {
                            Some(t) => WTok::Tok { token: t, next },
                            None => WTok::Fail { at: pos },
                        },
                        AttrScan::Absent => next_w_token(data, next, key),
                        AttrScan::Malformed => WTok::Fail { at: pos },
                    }
                } else {
                    next_w_token(data, next, key)
                }
            }
        },
    }
}

#[via_fn]
proof fn next_w_token_decreases(data: Seq<u8>, pos: int, key: Seq<u8>) {
    lemma_next_event_advances(data, pos);
}

pub proof fn lemma_next_w_token_advances(data: Seq<u8>, pos: int, key: Seq<u8>)
    requires
        0 <= pos <= data.len(),
    ensures
        match next_w_token(data, pos, key) {
            WTok::Tok { next, .. } => pos < next <= data.len(),
            WTok::End => true,
            WTok::Fail { .. } => true,
        },
    decreases data.len() - pos,
{
    lemma_next_event_advances(data, pos);
    match next_event(data, pos) {
        XmlEvent::Text { end, .. } => {
            lemma_next_w_token_advances(data, end, key);
        },
        XmlEvent::Skip { next } => {
            lemma_next_w_token_advances(data, next, key);
        },
        XmlEvent::End { next, .. } => {
            lemma_next_w_token_advances(data, next, key);
        },
        XmlEvent::Start { next, .. } => {
            lemma_next_w_token_advances(data, next, key);
        },
        _ => {},
    }
}

/// All tokens of one entry, or the offset of the first malformed construct.
pub enum WScan {
    Tokens { tokens: Seq<Seq<u8>> },
    Fail { at: int },
}

pub open spec fn w_scan(data: Seq<u8>, pos: int, key: Seq<u8>) -> WScan
    decreases data.len() - pos,
    when 0 <= pos <= data.len()
    via w_scan_decreases
{
    match next_w_token(data, pos, key) {
        WTok::Tok { token, next } => match w_scan(data, next, key) {
            WScan::Tokens { tokens } => WScan::Tokens { tokens: seq![token] + tokens },
            WScan::Fail { at } => WScan::Fail { at },
        },
        WTok::End => WScan::Tokens { tokens: Seq::empty() },
        WTok::Fail { at } => WScan::Fail { at },
    }
}

#[via_fn]
proof fn w_scan_decreases(data: Seq<u8>, pos: int, key: Seq<u8>) {
    lemma_next_w_token_advances(data, pos, key);
}

/// A cursor over one entry of a tag-attribute corpus.
pub struct OpenSubsDoc {
    pub pos: usize,
    pub target_attr_key: Vec<u8>,
}

impl OpenSubsDoc {
    pub closed spec fn key(self) -> Seq<u8> {
        self.target_attr_key@
    }

    pub fn new(target_attr_key: &[u8]) -> (r: OpenSubsDoc)
        ensures
            r.pos == 0,
            r.key() == target_attr_key@,
    {
        OpenSubsDoc { pos: 0, target_attr_key: vstd::slice::slice_to_vec(target_attr_key) }
    }

    /// The next token of the entry, `Ok(None)` at its end, or the offset of
    /// the first malformed construct.
    pub fn next_token(&mut self, data: &[u8]) -> (r: Result<Option<Vec<u8>>, CorpusError>)
        requires
            old(self).pos <= data@.len(),
        ensures
            final(self).pos <= data@.len(),
            final(self).key() == old(self).key(),
            match next_w_token(data@, old(self).pos as int, old(self).key()) {
                WTok::Tok { token, next } => (match r {
                    Ok(Some(v)) => v@ == token,
                    _ => false,
                }) && final(self).pos == next,
                WTok::End => (r matches Ok(None)) && final(self).pos == data@.len(),
                WTok::Fail { at } => match r {
                    Err(CorpusError::Format { offset }) => offset == at,
                    _ => false,
                },
            },
    {
        let ghost pos0 = self.pos as int;
        let ghost k = self.key();
        while self.pos < data.len()
            invariant
                pos0 == old(self).pos as int,
                0 <= pos0 <= data@.len(),
                k == old(self).key(),
                self.key() == k,
                self.pos <= data@.len(),
                next_w_token(data@, pos0, k) == next_w_token(data@, self.pos as int, k),
            decreases data@.len() - self.pos,
        {
            let cur = self.pos;
            proof {
                lemma_next_event_advances(data@, cur as int);
            }
            match scan_event(data, cur) {
                XmlEventE::Eof => {
                    // unreachable: the cursor is strictly inside the input
                    proof {
                        assert(false);
                    }
                },
                XmlEventE::Fail { at } => {
                    return Err(CorpusError::Format { offset: at });
                },
                XmlEventE::Text { end, .. } => {
                    self.pos = end;
                },
                XmlEventE::Skip { next } => {
                    self.pos = next;
                },
                XmlEventE::End { next, .. } => {
                    self.pos = next;
                },
                XmlEventE::Start { inner_start, inner_end, next, empty } => {
                    if empty {
                        self.pos = next;
                    } else {
                        let ne = name_end(data, inner_start, inner_end);
                        let name = vstd::slice::slice_subrange(data, inner_start, ne);
                        let is_w = name.len() == 1 && name[0] == 119;
                        proof {
                            if is_w {
                                assert(name@ =~= w_name());
                            }
                            if name@ == w_name() {
                                assert(name@[0] == 119 && name@.len() == 1);
                            }
                        }
                        if is_w {
                            match attr_scan(data, ne, inner_end, self.target_attr_key.as_slice()) {
                                AttrScanE::Found { vstart, vend } => {
                                    let raw = vstd::slice::slice_subrange(data, vstart, vend);
                                    match unescape_bytes(raw) {
                                        Some(tok) => {
                                            self.pos = next;
                                            return Ok(Some(tok));
                                        },
                                        None => {
                                            return Err(CorpusError::Format { offset: cur });
                                        },
                                    }
                                },
                                AttrScanE::Absent => {
                                    self.pos = next;
                                },
                                AttrScanE::Malformed => {
                                    return Err(CorpusError::Format { offset: cur });
                                },
                            }
                        } else {
                            self.pos = next;
                        }
                    }
                },
            }
        }
        Ok(None)
    }
}

/// Counts every token of one entry into `builder`.
pub fn count_words(data: &[u8], target_attr_key: &[u8], builder: &mut VocabBuilder) -> (r:
    Result<(), CorpusError>)
    requires
        old(builder).wf(),
    ensures
        final(builder).wf(),
        match w_scan(data@, 0, target_attr_key@) {
            WScan::Tokens { tokens } => r is Ok && final(builder)@ == spec_merged(
                old(builder)@,
                token_counts(tokens),
            ),
            WScan::Fail { at } => match r {
                Err(CorpusError::Format { offset }) => offset == at,
                _ => false,
            },
        },
{
    let mut doc = OpenSubsDoc::new(target_attr_key);
    let ghost mut processed: Seq<Seq<u8>> = Seq::empty();
    proof {
        assert(spec_merged(old(builder)@, token_counts(processed)) =~= old(builder)@);
    }
    loop
        invariant
            doc.pos <= data@.len(),
            doc.key() == target_attr_key@,
            builder.wf(),
            builder@ == spec_merged(old(builder)@, token_counts(processed)),
            w_scan(data@, 0, target_attr_key@) == (match w_scan(
                data@,
                doc.pos as int,
                target_attr_key@,
            ) {
                WScan::Tokens { tokens } => WScan::Tokens { tokens: processed + tokens },
                WScan::Fail { at } => WScan::Fail { at },
            }),
        decreases data@.len() - doc.pos,
    {
        let ghost pos_before = doc.pos as int;
        proof {
            lemma_next_w_token_advances(data@, pos_before, target_attr_key@);
        }
        match doc.next_token(data) {
            Ok(Some(v)) => {
                let ghost step = next_w_token(data@, pos_before, target_attr_key@);
                proof {
                    assert(step is Tok);
                }
                builder.add(v.as_slice());
                proof {
                    let token = step->Tok_token;
                    crate::vocab::lemma_inc_merged(
                        old(builder)@,
                        token_counts(processed),
                        token,
                        1,
                    );
                    assert(processed.push(token).drop_last() =~= processed);
                    assert(builder@ == spec_merged(
                        old(builder)@,
                        token_counts(processed.push(token)),
                    ));
                    assert(w_scan(data@, 0, target_attr_key@) == (match w_scan(
                        data@,
                        doc.pos as int,
                        target_attr_key@,
                    ) {
                        WScan::Tokens { tokens } => WScan::Tokens {
                            tokens: processed.push(token) + tokens,
                        },
                        WScan::Fail { at } => WScan::Fail { at },
                    })) by {
                        match w_scan(data@, doc.pos as int, target_attr_key@) {
                            WScan::Tokens { tokens } => {
                                assert(processed + (seq![token] + tokens) =~= processed.push(
                                    token,
                                ) + tokens);
                            },
                            WScan::Fail { .. } => {},
                        }
                    }
                    processed = processed.push(token);
                }
            },
            Ok(None) => {
                proof {
                    assert(next_w_token(data@, pos_before, target_attr_key@) is End);
                    assert(processed + Seq::<Seq<u8>>::empty() =~= processed);
                }
                return Ok(());
            },
            Err(e) => {
                return Err(e);
            },
        }
    }
}

/// One entry turned into its bag-of-words against `vocab`: tokens outside the
/// vocabulary are dropped, from the counts and from the total.
pub fn xml_to_doc_bow(data: &[u8], vocab: &crate::vocab::VocabMap, target_attr_key: &[u8]) -> (r:
    Result<DocBow, CorpusError>)
    requires
        vocab.wf(),
    ensures
        match w_scan(data@, 0, target_attr_key@) {
            WScan::Tokens { tokens } => match r {
                Ok(bow) => bow.wf() && bow@ == bow_counts(tokens, vocab@) && bow.spec_total()
                    == bow_total(tokens, vocab@),
                _ => false,
            },
            WScan::Fail { at } => match r {
                Err(CorpusError::Format { offset }) => offset == at,
                _ => false,
            },
        },
{
    let mut doc = OpenSubsDoc::new(target_attr_key);
    let mut bow = DocBow::new();
    let ghost mut processed: Seq<Seq<u8>> = Seq::empty();
    loop
        invariant
            doc.pos <= data@.len(),
            doc.key() == target_attr_key@,
            vocab.wf(),
            bow.wf(),
            bow@ == bow_counts(processed, vocab@),
            bow.spec_total() == bow_total(processed, vocab@),
            w_scan(data@, 0, target_attr_key@) == (match w_scan(
                data@,
                doc.pos as int,
                target_attr_key@,
            ) {
                WScan::Tokens { tokens } => WScan::Tokens { tokens: processed + tokens },
                WScan::Fail { at } => WScan::Fail { at },
            }),
        decreases data@.len() - doc.pos,
    {
        let ghost pos_before = doc.pos as int;
        proof {
            lemma_next_w_token_advances(data@, pos_before, target_attr_key@);
        }
        match doc.next_token(data) {
            Ok(Some(v)) => {
                let ghost step = next_w_token(data@, pos_before, target_attr_key@);
                proof {
                    assert(step is Tok);
                }
                match vocab.get(v.as_slice()) {
                    Some(id) => {
                        bow.add(id);
                    },
                    None => {},
                }
                proof {
                    let token = step->Tok_token;
                    assert(processed.push(token).drop_last() =~= processed);
                    assert(bow@ == bow_counts(processed.push(token), vocab@));
                    assert(bow.spec_total() == bow_total(processed.push(token), vocab@));
                    assert(w_scan(data@, 0, target_attr_key@) == (match w_scan(
                        data@,
                        doc.pos as int,
                        target_attr_key@,
                    ) {
                        WScan::Tokens { tokens } => WScan::Tokens {
                            tokens: processed.push(token) + tokens,
                        },
                        WScan::Fail { at } => WScan::Fail { at },
                    })) by {
                        match w_scan(data@, doc.pos as int, target_attr_key@) {
                            WScan::Tokens { tokens } => {
                                assert(processed + (seq![token] + tokens) =~= processed.push(
                                    token,
                                ) + tokens);
                            },
                            WScan::Fail { .. } => {},
                        }
                    }
                    processed = processed.push(token);
                }
            },
            Ok(None) => {
                proof {
                    assert(next_w_token(data@, pos_before, target_attr_key@) is End);
                    assert(processed + Seq::<Seq<u8>>::empty() =~= processed);
                }
                return Ok(bow);
            },
            Err(e) => {
                return Err(e);
            },
        }
    }
}

// ----------------------------------------------------------------------------
// The whole-archive passes.
// ----------------------------------------------------------------------------

/// The token scan of one located entry of the archive.
pub open spec fn ost_entry_scan(bytes: Seq<u8>, e: EntryDescriptor, key: Seq<u8>) -> WScan {
    w_scan(zip_data_of(bytes, e.index as int), 0, key)
}

/// The tokens of a list of entries, in directory order.  An entry whose scan
/// fails contributes nothing; the passes stop at the first such entry anyway.
pub open spec fn ost_concat_tokens(
    bytes: Seq<u8>,
    entries: Seq<EntryDescriptor>,
    key: Seq<u8>,
) -> Seq<Seq<u8>>
    decreases entries.len(),
{
    if entries.len() == 0 {
        Seq::empty()
    } else {
        ost_concat_tokens(bytes, entries.drop_last(), key) + (match ost_entry_scan(
            bytes,
            entries.last(),
            key,
        ) {
            WScan::Tokens { tokens } => tokens,
            WScan::Fail { .. } => Seq::empty(),
        })
    }
}


/// Some matching entry's scan fails at `offset`.
#[verifier::opaque]
pub open spec fn ost_fails_at(
    bytes: Seq<u8>,
    f: Seq<EntryDescriptor>,
    key: Seq<u8>,
    offset: int,
) -> bool {
    exists|j: int|
        0 <= j < f.len() && (ost_entry_scan(bytes, #[trigger] f[j], key) matches WScan::Fail {
            at,
        } && at == offset)
}

/// The number of entries, capped at the counter's range.
pub open spec fn len_as_u32(n: int) -> u32 {
    if n > u32::MAX {
        u32::MAX
    } else {
        n as u32
    }
}

/// The bag-of-words `bow` is what entry `e` denotes against `vocab`.
#[verifier::opaque]
pub open spec fn bow_matches_entry(
    bytes: Seq<u8>,
    e: EntryDescriptor,
    key: Seq<u8>,
    bow: DocBow,
    vocab: Map<Seq<u8>, u32>,
) -> bool {
    match ost_entry_scan(bytes, e, key) {
        WScan::Tokens { tokens } => bow.wf() && bow@ == bow_counts(tokens, vocab)
            && bow.spec_total() == bow_total(tokens, vocab),
        WScan::Fail { .. } => false,
    }
}

/// A tag-attribute corpus: a compressed archive whose `xml` members each hold
/// one document.  The caller owns the mapping of the archive bytes.
pub struct OpenSubs18Corpus {
    pub target_attr_key: Vec<u8>,
}

impl OpenSubs18Corpus {
    pub open spec fn key(self) -> Seq<u8> {
        self.target_attr_key@
    }

    pub fn new(target_attr_key: &[u8]) -> (r: OpenSubs18Corpus)
        ensures
            r.key() == target_attr_key@,
    {
        OpenSubs18Corpus { target_attr_key: vstd::slice::slice_to_vec(target_attr_key) }
    }

    /// One full pass over the archive: every token of every matching entry
    /// counted into a fresh builder, and the number of documents, which for
    /// this format is the number of matching entries.
    pub fn count_words(&self, archive: &[u8]) -> (r: Result<(VocabBuilder, u32), CorpusError>)
        ensures
            ({
                let f = spec_filtered(zip_entries_of(archive@), EntryFilter::Xml);
                match r {
                    Ok((b, n)) => {
                        &&& spec_zip_preflight(archive@)
                        &&& zip_parses(archive@)
                        &&& f.len() > 0
                        &&& forall|j: int|
                            0 <= j < f.len() ==> ost_entry_scan(
                                archive@,
                                #[trigger] f[j],
                                self.key(),
                            ) is Tokens
                        &&& b.wf()
                        &&& b@ == token_counts(ost_concat_tokens(archive@, f, self.key()))
                        &&& n == len_as_u32(f.len() as int)
                    },
                    Err(CorpusError::Format { offset }) => !spec_zip_preflight(archive@)
                        || !zip_parses(archive@)
                        || ost_fails_at(archive@, f, self.key(), offset as int),
                    Err(CorpusError::Config { .. }) => spec_zip_preflight(archive@) && zip_parses(
                        archive@,
                    ) && f.len() == 0,
                    Err(CorpusError::Integrity { entry, .. }) => read_fails_at(
                        archive@,
                        f,
                        entry as int,
                    ),
                }
            }),
    {
        let (ar, entries) = match crate::zip::open_piz(archive, &EntryFilter::Xml) {
            Ok(p) => p,
            Err(e) => {
                return Err(e);
            },
        };
        let ghost f = spec_filtered(zip_entries_of(archive@), EntryFilter::Xml);
        let mut builder = VocabBuilder::new();
        let mut j: usize = 0;
        proof {
            assert(token_counts(ost_concat_tokens(archive@, f.take(0), self.key()))
                =~= Map::<Seq<u8>, u32>::empty());
        }
        while j < entries.len()
            invariant
                j <= entries@.len(),
                f == spec_filtered(zip_entries_of(archive@), EntryFilter::Xml),
                entries@ == f,
                spec_zip_preflight(archive@),
                zip_parses(archive@),
                zip_archive_bytes(ar) == archive@,
                zip_entry_list(ar) == zip_entries_of(archive@),
                forall|i: int| zip_entry_data(ar, i) == #[trigger] zip_data_of(archive@, i),
                forall|w: int|
                    0 <= w < f.len() ==> (#[trigger] f[w].index) < zip_entries_of(
                        archive@,
                    ).len(),
                builder.wf(),
                builder@ == token_counts(ost_concat_tokens(archive@, f.take(j as int), self.key())),
                forall|w: int|
                    0 <= w < j ==> ost_entry_scan(archive@, #[trigger] f[w], self.key())
                        is Tokens,
                self.key() == self.target_attr_key@,
            decreases entries@.len() - j,
        {
            let data = match crate::zip::read_entry(&ar, &entries[j]) {
                Ok(d) => d,
                Err(e) => {
                    proof {
                        let idx = f[j as int].index;
                        assert(e matches CorpusError::Integrity { entry, .. } && entry == idx);
                        assert(!crate::zip::zip_read_ok(archive@, idx as int));
                        assert(read_fails_at(archive@, f, idx as int)) by {
                            reveal(read_fails_at);
                            assert(0 <= j < f.len() && f[j as int].index == idx
                                && !crate::zip::zip_read_ok(archive@, idx as int));
                        }
                    }
                    return Err(e);
                },
            };
            match count_words(data.as_slice(), self.target_attr_key.as_slice(), &mut builder) {
                Ok(()) => {},
                Err(e) => {
                    proof {
                        assert(data@ == zip_data_of(archive@, f[j as int].index as int));
                        let scan_j = ost_entry_scan(archive@, f[j as int], self.key());
                        assert(scan_j is Fail);
                        assert(e matches CorpusError::Format { offset } && offset
                            == scan_j->Fail_at);
                        assert(ost_fails_at(archive@, f, self.key(), scan_j->Fail_at)) by {
                            reveal(ost_fails_at);
                            assert(0 <= j < f.len() && (ost_entry_scan(
                                archive@,
                                f[j as int],
                                self.key(),
                            ) matches WScan::Fail { at } && at == scan_j->Fail_at));
                        }
                    }
                    return Err(e);
                },
            }
            proof {
                let scan_j = ost_entry_scan(archive@, f[j as int], self.key());
                assert(data@ == zip_data_of(archive@, f[j as int].index as int));
                assert(scan_j is Tokens);
                let toks_j = scan_j->Tokens_tokens;
                let pre = ost_concat_tokens(archive@, f.take(j as int), self.key());
                crate::vocab::lemma_counts_concat(pre, toks_j);
                assert(f.take(j + 1).drop_last() =~= f.take(j as int));
                assert(f.take(j + 1).last() == f[j as int]);
                assert(ost_concat_tokens(archive@, f.take(j + 1), self.key()) =~= pre + toks_j);
            }
            j = j + 1;
        }
        proof {
            assert(f.take(f.len() as int) =~= f);
        }
        let n: u32 = if entries.len() >= u32::MAX as usize {
            u32::MAX
        } else {
            entries.len() as u32
        };
        Ok((builder, n))
    }

    /// The second full pass: one bag-of-words per matching entry, in
    /// directory order, tokens filtered through `vocab`.
    pub fn gen_doc_bows(&self, archive: &[u8], vocab: &crate::vocab::VocabMap) -> (r: Result<
        Vec<DocBow>,
        CorpusError,
    >)
        requires
            vocab.wf(),
        ensures
            ({
                let f = spec_filtered(zip_entries_of(archive@), EntryFilter::Xml);
                match r {
                    Ok(bows) => {
                        &&& spec_zip_preflight(archive@)
                        &&& zip_parses(archive@)
                        &&& f.len() > 0
                        &&& bows@.len() == f.len()
                        &&& forall|j: int|
                            0 <= j < f.len() ==> #[trigger] bow_matches_entry(
                                archive@,
                                f[j],
                                self.key(),
                                bows@[j],
                                vocab@,
                            )
                    },
                    Err(CorpusError::Format { offset }) => !spec_zip_preflight(archive@)
                        || !zip_parses(archive@)
                        || ost_fails_at(archive@, f, self.key(), offset as int),
                    Err(CorpusError::Config { .. }) => spec_zip_preflight(archive@) && zip_parses(
                        archive@,
                    ) && f.len() == 0,
                    Err(CorpusError::Integrity { entry, .. }) => read_fails_at(
                        archive@,
                        f,
                        entry as int,
                    ),
                }
            }),
    {
        let (ar, entries) = match crate::zip::open_piz(archive, &EntryFilter::Xml) {
            Ok(p) => p,
            Err(e) => {
                return Err(e);
            },
        };
        let ghost f = spec_filtered(zip_entries_of(archive@), EntryFilter::Xml);
        let mut bows: Vec<DocBow> = Vec::new();
        let mut j: usize = 0;
        while j < entries.len()
            invariant
                j <= entries@.len(),
                f == spec_filtered(zip_entries_of(archive@), EntryFilter::Xml),
                entries@ == f,
                spec_zip_preflight(archive@),
                zip_parses(archive@),
                zip_archive_bytes(ar) == archive@,
                zip_entry_list(ar) == zip_entries_of(archive@),
                forall|i: int| zip_entry_data(ar, i) == #[trigger] zip_data_of(archive@, i),
                forall|w: int|
                    0 <= w < f.len() ==> (#[trigger] f[w].index) < zip_entries_of(
                        archive@,
                    ).len(),
                vocab.wf(),
                bows@.len() == j,
                forall|w: int|
                    0 <= w < j ==> #[trigger] bow_matches_entry(
                        archive@,
                        f[w],
                        self.key(),
                        bows@[w],
                        vocab@,
                    ),
                self.key() == self.target_attr_key@,
            decreases entries@.len() - j,
        {
            let data = match crate::zip::read_entry(&ar, &entries[j]) {
                Ok(d) => d,
                Err(e) => {
                    proof {
                        let idx = f[j as int].index;
                        assert(e matches CorpusError::Integrity { entry, .. } && entry == idx);
                        assert(!crate::zip::zip_read_ok(archive@, idx as int));
                        assert(read_fails_at(archive@, f, idx as int)) by {
                            reveal(read_fails_at);
                            assert(0 <= j < f.len() && f[j as int].index == idx
                                && !crate::zip::zip_read_ok(archive@, idx as int));
                        }
                    }
                    return Err(e);
                },
            };
            match xml_to_doc_bow(data.as_slice(), vocab, self.target_attr_key.as_slice()) {
                Ok(bow) => {
                    proof {
                        assert(data@ == zip_data_of(archive@, f[j as int].index as int));
                    }
                    let ghost bows_old = bows@;
                    bows.push(bow);
                    proof {
                        assert(bows@[j as int] == bow);
                        assert(bow_matches_entry(archive@, f[j as int], self.key(), bow, vocab@))
                            by {
                            reveal(bow_matches_entry);
                            assert(ost_entry_scan(archive@, f[j as int], self.key()) is Tokens);
                        }
                        assert forall|w: int|
                            0 <= w < j + 1 implies #[trigger] bow_matches_entry(
                            archive@,
                            f[w],
                            self.key(),
                            bows@[w],
                            vocab@,
                        ) by {
                            if w < j {
                                assert(bows@[w] == bows_old[w]);
                            } else {
                                assert(bows@[w] == bow);
                            }
                        }
                    }
                },
                Err(e) => {
                    proof {
                        assert(data@ == zip_data_of(archive@, f[j as int].index as int));
                        let scan_j = ost_entry_scan(archive@, f[j as int], self.key());
                        assert(scan_j is Fail);
                        assert(e matches CorpusError::Format { offset } && offset
                            == scan_j->Fail_at);
                        assert(ost_fails_at(archive@, f, self.key(), scan_j->Fail_at)) by {
                            reveal(ost_fails_at);
                            assert(0 <= j < f.len() && (ost_entry_scan(
                                archive@,
                                f[j as int],
                                self.key(),
                            ) matches WScan::Fail { at } && at == scan_j->Fail_at));
                        }
                    }
                    return Err(e);
                },
            }
            j = j + 1;
        }
        Ok(bows)
    }
}

} // verus!
