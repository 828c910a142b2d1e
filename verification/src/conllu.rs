use vstd::prelude::*;

use crate::bytes::{spec_find, lemma_spec_find, find_byte};
use crate::vocab::{VocabBuilder, VocabMap, token_counts};
use crate::types::{CorpusError, DocBow, bow_counts, bow_total};

verus! {

// ----------------------------------------------------------------------------
// Tab-separated annotated corpora, one token row per line.
//
// A line equal to the sentinel comment `# newdoc` (with its newline) starts a
// new document; other lines starting with `#`, and empty lines, carry
// nothing; every remaining line is tab-split and its third field is the
// lemma.  A content line with fewer than three fields is malformed.
// ----------------------------------------------------------------------------

pub const TAB: u8 = 9;
pub const NL: u8 = 10;
pub const HASH: u8 = 35;

/// The document-boundary sentinel line, newline included.
pub open spec fn newdoc_sentinel() -> Seq<u8> {
    seq![35u8, 32u8, 110u8, 101u8, 119u8, 100u8, 111u8, 99u8, 10u8]
}

/// One past the end of the line starting at `pos`: just after its newline,
/// or the end of the input for an unterminated final line.
pub open spec fn line_end(data: Seq<u8>, pos: int) -> int {
    match spec_find(data, pos, NL) {
        Some(i) => i + 1,
        None => data.len() as int,
    }
}

pub proof fn lemma_line_end(data: Seq<u8>, pos: int)
    requires
        0 <= pos < data.len(),
    ensures
        pos < line_end(data, pos) <= data.len(),
{
    lemma_spec_find(data, pos, NL);
}

/// The lemma field of a token line: the third tab-separated field, up to the
/// next tab or the end of the line.  `None` when the line has fewer than
/// three fields.
pub open spec fn conllu_lemma(line: Seq<u8>) -> Option<Seq<u8>> {
    match spec_find(line, 0, TAB) {
        None => None,
        Some(t1) => match spec_find(line, t1 + 1, TAB) {
            None => None,
            Some(t2) => Some(
                line.subrange(
                    t2 + 1,
                    match spec_find(line, t2 + 1, TAB) {
                        Some(t3) => t3,
                        None => line.len() as int,
                    },
                ),
            ),
        },
    }
}

/// The third tab-separated field of a token line.
pub fn grab_lemma(line: &[u8]) -> (r: &[u8])
    requires
        conllu_lemma(line@) is Some,
    ensures
        r@ == conllu_lemma(line@).unwrap(),
{
    proof {
        lemma_spec_find(line@, 0, TAB);
    }
    let n = line.len();
    let t1 = find_byte(line, 0, TAB).unwrap();
    proof {
        assert(spec_find(line@, 0, TAB) == Some(t1 as int));
        assert(t1 < n);
        lemma_spec_find(line@, t1 + 1, TAB);
    }
    let t2 = find_byte(line, t1 + 1, TAB).unwrap();
    proof {
        assert(t2 < n);
        lemma_spec_find(line@, t2 + 1, TAB);
    }
    let end = match find_byte(line, t2 + 1, TAB) {
        Some(t3) => t3,
        None => line.len(),
    };
    vstd::slice::slice_subrange(line, t2 + 1, end)
}

/// What scanning from a line boundary yields next: a token (with the
/// position after its line and the number of sentinels passed on the way),
/// the end of the input, or a malformed line.
pub enum FlatNext {
    Token { lemma: Seq<u8>, pos: int, docs: int },
    End { docs: int },
    Fail { at: int, docs: int },
}

/// The same outcome with `d` more sentinels already passed.
pub open spec fn add_docs(o: FlatNext, d: int) -> FlatNext {
    match o {
        FlatNext::Token { lemma, pos, docs } => FlatNext::Token { lemma, pos, docs: docs + d },
        FlatNext::End { docs } => FlatNext::End { docs: docs + d },
        FlatNext::Fail { at, docs } => FlatNext::Fail { at, docs: docs + d },
    }
}

/// The next token at or after the line boundary `pos`.
pub open spec fn flat_next(data: Seq<u8>, pos: int) -> FlatNext
    decreases data.len() - pos,
    when 0 <= pos <= data.len()
    via flat_next_decreases
{
    if pos >= data.len() {
        FlatNext::End { docs: 0 }
    } else {
        let e = line_end(data, pos);
        let line = data.subrange(pos, e);
        if line == newdoc_sentinel() {
            add_docs(flat_next(data, e), 1)
        } else if data[pos] == HASH || data[pos] == NL {
            flat_next(data, e)
        } else {
            match conllu_lemma(line) {
                Some(lem) => FlatNext::Token { lemma: lem, pos: e, docs: 0 },
                None => FlatNext::Fail { at: pos, docs: 0 },
            }
        }
    }
}

#[via_fn]
proof fn flat_next_decreases(data: Seq<u8>, pos: int) {
    if pos < data.len() {
        lemma_line_end(data, pos);
    }
}

/// A scan never stops before the position it started from, and stops within
/// the input.
pub proof fn lemma_flat_next_advances(data: Seq<u8>, pos: int)
    requires
        0 <= pos <= data.len(),
    ensures
        match flat_next(data, pos) {
            FlatNext::Token { pos: p, docs, .. } => pos < p <= data.len() && docs >= 0,
            FlatNext::End { docs } => docs >= 0,
            FlatNext::Fail { at, docs } => pos <= at < data.len() && docs >= 0,
        },
    decreases data.len() - pos,
{
    if pos < data.len() {
        lemma_line_end(data, pos);
        let e = line_end(data, pos);
        let line = data.subrange(pos, e);
        if line == newdoc_sentinel() || data[pos] == HASH || data[pos] == NL {
            lemma_flat_next_advances(data, e);
        }
    }
}

/// Saturating add of a mathematical count onto a `u32` counter.
pub open spec fn sat_add_int(a: u32, d: int) -> u32 {
    if a + d > u32::MAX {
        u32::MAX
    } else {
        (a + d) as u32
    }
}

/// The token stream of the whole input from `pos`, with the total number of
/// sentinel lines, or the offset of the first malformed line.
pub enum FlatScan {
    Tokens { tokens: Seq<Seq<u8>>, docs: int },
    Fail { at: int, docs: int },
}

pub open spec fn flat_scan(data: Seq<u8>, pos: int) -> FlatScan
    decreases data.len() - pos,
    when 0 <= pos <= data.len()
    via flat_scan_decreases
{
    match flat_next(data, pos) {
        FlatNext::Token { lemma, pos: p, docs } => match flat_scan(data, p) {
            FlatScan::Tokens { tokens, docs: d2 } => FlatScan::Tokens {
                tokens: seq![lemma] + tokens,
                docs: docs + d2,
            },
            FlatScan::Fail { at, docs: d2 } => FlatScan::Fail { at, docs: docs + d2 },
        },
        FlatNext::End { docs } => FlatScan::Tokens { tokens: Seq::empty(), docs },
        FlatNext::Fail { at, docs } => FlatScan::Fail { at, docs },
    }
}

#[via_fn]
proof fn flat_scan_decreases(data: Seq<u8>, pos: int) {
    lemma_flat_next_advances(data, pos);
}

/// A full scan with `pre` tokens and `d` sentinels already behind it.
pub open spec fn scan_prepend(pre: Seq<Seq<u8>>, d: int, s: FlatScan) -> FlatScan {
    match s {
        FlatScan::Tokens { tokens, docs } => FlatScan::Tokens {
            tokens: pre + tokens,
            docs: d + docs,
        },
        FlatScan::Fail { at, docs } => FlatScan::Fail { at, docs: d + docs },
    }
}

/// The sentinel total of a full scan is never negative.
pub proof fn lemma_flat_scan_docs(data: Seq<u8>, pos: int)
    requires
        0 <= pos <= data.len(),
    ensures
        match flat_scan(data, pos) {
            FlatScan::Tokens { docs, .. } => docs >= 0,
            FlatScan::Fail { docs, .. } => docs >= 0,
        },
    decreases data.len() - pos,
{
    lemma_flat_next_advances(data, pos);
    match flat_next(data, pos) {
        FlatNext::Token { pos: p, .. } => {
            lemma_flat_scan_docs(data, p);
        },
        _ => {},
    }
}

/// Equal to the sentinel line `# newdoc` with its newline?
fn is_newdoc(line: &[u8]) -> (r: bool)
    ensures
        r <==> line@ == newdoc_sentinel(),
{
    if line.len() != 9 {
        return false;
    }
    let r = line[0] == 35 && line[1] == 32 && line[2] == 110 && line[3] == 101 && line[4]
        == 119 && line[5] == 100 && line[6] == 111 && line[7] == 99 && line[8] == 10;
    proof {
        if r {
            assert(line@ =~= newdoc_sentinel());
        }
        if line@ == newdoc_sentinel() {
            assert(line@[0] == 35 && line@[1] == 32 && line@[2] == 110 && line@[3] == 101
                && line@[4] == 119 && line@[5] == 100 && line@[6] == 111 && line@[7] == 99
                && line@[8] == 10);
        }
    }
    r
}

/// A cursor over a tab-separated input that hands out one lemma at a time
/// and counts the document sentinels it passes.
pub struct FlatTokenIter {
    pub pos: usize,
    pub doc_count: u32,
}

impl FlatTokenIter {
    pub fn new() -> (r: FlatTokenIter)
        ensures
            r.pos == 0,
            r.doc_count == 0,
    {
        FlatTokenIter { pos: 0, doc_count: 0 }
    }

    /// The next lemma of the input, `Ok(None)` at its end, or the offset of
    /// the first malformed content line.
    pub fn next_token(&mut self, data: &[u8]) -> (r: Result<Option<Vec<u8>>, CorpusError>)
        requires
            old(self).pos <= data@.len(),
        ensures
            final(self).pos <= data@.len(),
            match flat_next(data@, old(self).pos as int) {
                FlatNext::Token { lemma, pos, docs } => {
                    &&& match r {
                        Ok(Some(v)) => v@ == lemma,
                        _ => false,
                    }
                    &&& final(self).pos == pos
                    &&& final(self).doc_count == sat_add_int(old(self).doc_count, docs)
                },
                FlatNext::End { docs } => {
                    &&& r matches Ok(None)
                    &&& final(self).pos == data@.len()
                    &&& final(self).doc_count == sat_add_int(old(self).doc_count, docs)
                },
                FlatNext::Fail { at, docs } => {
                    &&& match r {
                        Err(CorpusError::Format { offset }) => offset == at,
                        _ => false,
                    }
                    &&& final(self).doc_count == sat_add_int(old(self).doc_count, docs)
                },
            },
    {
        let ghost pos0 = self.pos as int;
        let ghost dc0 = self.doc_count;
        let ghost mut docs_seen: int = 0;
        while self.pos < data.len()
            invariant
                pos0 == old(self).pos as int,
                dc0 == old(self).doc_count,
                0 <= pos0 <= data@.len(),
                self.pos <= data@.len(),
                0 <= docs_seen,
                flat_next(data@, pos0) == add_docs(
                    flat_next(data@, self.pos as int),
                    docs_seen,
                ),
                self.doc_count == sat_add_int(dc0, docs_seen),
            decreases data@.len() - self.pos,
        {
            let cur = self.pos;
            proof {
                lemma_line_end(data@, cur as int);
            }
            let e: usize = match find_byte(data, cur, NL) {
                Some(i) => i + 1,
                None => data.len(),
            };
            proof {
                assert(e as int == line_end(data@, cur as int));
            }
            let line = vstd::slice::slice_subrange(data, cur, e);
            proof {
                assert(line@ == data@.subrange(cur as int, e as int));
            }
            if is_newdoc(line) {
                self.doc_count = crate::vocab::sat_add32(self.doc_count, 1);
                self.pos = e;
                proof {
                    docs_seen = docs_seen + 1;
                }
            } else if line[0] == HASH || line[0] == NL {
                proof {
                    assert(data@[cur as int] == line@[0]);
                }
                self.pos = e;
            } else {
                proof {
                    assert(data@[cur as int] == line@[0]);
                    assert(data@[cur as int] != HASH && data@[cur as int] != NL);
                }
                proof {
                    lemma_spec_find(line@, 0, TAB);
                }
                let t1 = match find_byte(line, 0, TAB) {
                    Some(t) => t,
                    None => {
                        return Err(CorpusError::Format { offset: cur });
                    },
                };
                proof {
                    lemma_spec_find(line@, t1 + 1, TAB);
                }
                match find_byte(line, t1 + 1, TAB) {
                    Some(_) => {},
                    None => {
                        return Err(CorpusError::Format { offset: cur });
                    },
                };
                let lemma = grab_lemma(line);
                self.pos = e;
                return Ok(Some(vstd::slice::slice_to_vec(lemma)));
            }
        }
        Ok(None)
    }
}

/// A tab-separated corpus at a filesystem path.  The caller owns the file
/// handling and hands the raw bytes to the pass functions.
pub struct ConlluCorpus {
    pub path: String,
}

impl ConlluCorpus {
    pub fn new(path: &str) -> (r: ConlluCorpus)
        ensures
            r.path@ == path@,
    {
        ConlluCorpus { path: path.to_owned() }
    }

    /// One full pass: every lemma of the input counted into a fresh builder,
    /// together with the number of document sentinels seen, or the offset of
    /// the first malformed line.
    pub fn count_words(&self, data: &[u8]) -> (r: Result<(VocabBuilder, u32), CorpusError>)
        ensures
            match flat_scan(data@, 0) {
                FlatScan::Tokens { tokens, docs } => match r {
                    Ok((b, n)) => b.wf() && b@ == token_counts(tokens) && n == sat_add_int(
                        0,
                        docs,
                    ),
                    _ => false,
                },
                FlatScan::Fail { at, .. } => match r {
                    Err(CorpusError::Format { offset }) => offset == at,
                    _ => false,
                },
            },
    {
        let mut iter = FlatTokenIter::new();
        let mut builder = VocabBuilder::new();
        let ghost mut processed: Seq<Seq<u8>> = Seq::empty();
        let ghost mut docs_so_far: int = 0;
        proof {
            assert(Seq::<Seq<u8>>::empty() + Seq::<Seq<u8>>::empty()
                =~= Seq::<Seq<u8>>::empty());
        }
        loop
            invariant
                iter.pos <= data@.len(),
                builder.wf(),
                builder@ == token_counts(processed),
                0 <= docs_so_far,
                iter.doc_count == sat_add_int(0, docs_so_far),
                flat_scan(data@, 0) == scan_prepend(
                    processed,
                    docs_so_far,
                    flat_scan(data@, iter.pos as int),
                ),
            decreases data@.len() - iter.pos,
        {
            let ghost pos_before = iter.pos as int;
            let ghost count_before = iter.doc_count;
            proof {
                lemma_flat_next_advances(data@, pos_before);
            }
            match iter.next_token(data) {
                Ok(Some(v)) => {
                    let ghost step = flat_next(data@, pos_before);
                    proof {
                        assert(step is Token);
                    }
                    builder.add(v.as_slice());
                    proof {
                        let lemma = step->Token_lemma;
                        let docs = step->Token_docs;
                        lemma_flat_scan_docs(data@, iter.pos as int);
                        assert(processed.push(lemma).drop_last() =~= processed);
                        assert(builder@ == token_counts(processed.push(lemma)));
                        assert(flat_scan(data@, 0) == scan_prepend(
                            processed.push(lemma),
                            docs_so_far + docs,
                            flat_scan(data@, iter.pos as int),
                        )) by {
                            match flat_scan(data@, iter.pos as int) {
                                FlatScan::Tokens { tokens, docs: d2 } => {
                                    assert(processed + (seq![lemma] + tokens)
                                        =~= processed.push(lemma) + tokens);
                                },
                                FlatScan::Fail { .. } => {},
                            }
                        }
                        processed = processed.push(lemma);
                        docs_so_far = docs_so_far + docs;
                    }
                },
                Ok(None) => {
                    let ghost step = flat_next(data@, pos_before);
                    proof {
                        assert(step is End);
                        assert(flat_scan(data@, pos_before) == FlatScan::Tokens {
                            tokens: Seq::empty(),
                            docs: step->End_docs,
                        });
                        assert(processed + Seq::<Seq<u8>>::empty() =~= processed);
                    }
                    return Ok((builder, iter.doc_count));
                },
                Err(e) => {
                    let ghost step = flat_next(data@, pos_before);
                    proof {
                        assert(step is Fail);
                    }
                    return Err(e);
                },
            }
        }
    }
}

// ----------------------------------------------------------------------------
// Per-document scanning: the same line discipline, but tokens are grouped
// into documents at the sentinel boundaries.  The first sentinel is consumed
// without ending an (empty) prior document; the end of the input ends the
// open document.
// ----------------------------------------------------------------------------

/// The next document boundary event: a finished document's lemmas (with the
/// position after it, and whether the input was exhausted), the end of an
/// input that never opened a document, or a malformed line.
pub enum BowNext {
    Doc { lemmas: Seq<Seq<u8>>, pos: int, exhausted: bool },
    Done,
    Fail { at: int },
}

pub open spec fn cons_lemma(l: Seq<u8>, o: BowNext) -> BowNext {
    match o {
        BowNext::Doc { lemmas, pos, exhausted } => BowNext::Doc {
            lemmas: seq![l] + lemmas,
            pos,
            exhausted,
        },
        BowNext::Done => BowNext::Done,
        BowNext::Fail { at } => BowNext::Fail { at },
    }
}

/// The next document of the input from the line boundary `pos`; `first` is
/// true until the first sentinel has been consumed.
pub open spec fn flat_bow_next(data: Seq<u8>, pos: int, first: bool) -> BowNext
    decreases data.len() - pos,
    when 0 <= pos <= data.len()
    via flat_bow_next_decreases
{
    if pos >= data.len() {
        if first {
            BowNext::Done
        } else {
            BowNext::Doc { lemmas: Seq::empty(), pos, exhausted: true }
        }
    } else {
        let e = line_end(data, pos);
        let line = data.subrange(pos, e);
        if line == newdoc_sentinel() {
            if first {
                flat_bow_next(data, e, false)
            } else {
                BowNext::Doc { lemmas: Seq::empty(), pos: e, exhausted: false }
            }
        } else if data[pos] == HASH || data[pos] == NL {
            flat_bow_next(data, e, first)
        } else {
            match conllu_lemma(line) {
                Some(lem) => cons_lemma(lem, flat_bow_next(data, e, first)),
                None => BowNext::Fail { at: pos },
            }
        }
    }
}

#[via_fn]
proof fn flat_bow_next_decreases(data: Seq<u8>, pos: int, first: bool) {
    if pos < data.len() {
        lemma_line_end(data, pos);
    }
}

pub proof fn lemma_flat_bow_next_advances(data: Seq<u8>, pos: int, first: bool)
    requires
        0 <= pos <= data.len(),
    ensures
        match flat_bow_next(data, pos, first) {
            BowNext::Doc { pos: p, exhausted, .. } => (if exhausted {
                p == data.len()
            } else {
                pos < p <= data.len()
            }),
            BowNext::Done => true,
            BowNext::Fail { at } => pos <= at < data.len(),
        },
    decreases data.len() - pos,
{
    if pos < data.len() {
        lemma_line_end(data, pos);
        let e = line_end(data, pos);
        let line = data.subrange(pos, e);
        if line == newdoc_sentinel() {
            if first {
                lemma_flat_bow_next_advances(data, e, false);
            }
        } else if data[pos] == HASH || data[pos] == NL {
            lemma_flat_bow_next_advances(data, e, first);
        } else {
            lemma_flat_bow_next_advances(data, e, first);
        }
    }
}

/// All documents of the input, or the offset of the first malformed line.
pub enum FlatDocs {
    Docs { docs: Seq<Seq<Seq<u8>>> },
    Fail { at: int },
}

pub open spec fn flat_docs(data: Seq<u8>, pos: int, first: bool) -> FlatDocs
    decreases data.len() - pos,
    when 0 <= pos <= data.len()
    via flat_docs_decreases
{
    match flat_bow_next(data, pos, first) {
        BowNext::Doc { lemmas, pos: p, exhausted } => if exhausted {
            FlatDocs::Docs { docs: seq![lemmas] }
        } else {
            match flat_docs(data, p, false) {
                FlatDocs::Docs { docs } => FlatDocs::Docs { docs: seq![lemmas] + docs },
                FlatDocs::Fail { at } => FlatDocs::Fail { at },
            }
        },
        BowNext::Done => FlatDocs::Docs { docs: Seq::empty() },
        BowNext::Fail { at } => FlatDocs::Fail { at },
    }
}

#[via_fn]
proof fn flat_docs_decreases(data: Seq<u8>, pos: int, first: bool) {
    lemma_flat_bow_next_advances(data, pos, first);
}

pub open spec fn bow_prepend(pre: Seq<Seq<u8>>, o: BowNext) -> BowNext {
    match o {
        BowNext::Doc { lemmas, pos, exhausted } => BowNext::Doc {
            lemmas: pre + lemmas,
            pos,
            exhausted,
        },
        BowNext::Done => BowNext::Done,
        BowNext::Fail { at } => BowNext::Fail { at },
    }
}

pub open spec fn docs_prepend(pre: Seq<Seq<Seq<u8>>>, o: FlatDocs) -> FlatDocs {
    match o {
        FlatDocs::Docs { docs } => FlatDocs::Docs { docs: pre + docs },
        FlatDocs::Fail { at } => FlatDocs::Fail { at },
    }
}

/// A cursor over a tab-separated input that hands out one document's
/// bag-of-words at a time, filtered through a vocabulary.
pub struct DocBowIter {
    pub pos: usize,
    pub is_first: bool,
    pub done: bool,
}

impl DocBowIter {
    pub fn new() -> (r: DocBowIter)
        ensures
            r.pos == 0,
            r.is_first,
            !r.done,
    {
        DocBowIter { pos: 0, is_first: true, done: false }
    }

    /// The next document's bag-of-words, `Ok(None)` when no further document
    /// opens, or the offset of the first malformed line.
    pub fn next(&mut self, data: &[u8], vocab: &VocabMap) -> (r: Result<
        Option<DocBow>,
        CorpusError,
    >)
        requires
            old(self).pos <= data@.len(),
            vocab.wf(),
        ensures
            final(self).pos <= data@.len(),
            old(self).done ==> (r matches Ok(None)) && *final(self) == *old(self),
            !old(self).done ==> match flat_bow_next(
                data@,
                old(self).pos as int,
                old(self).is_first,
            ) {
                BowNext::Doc { lemmas, pos, exhausted } => {
                    &&& match r {
                        Ok(Some(bow)) => bow.wf() && bow@ == bow_counts(lemmas, vocab@)
                            && bow.spec_total() == bow_total(lemmas, vocab@),
                        _ => false,
                    }
                    &&& final(self).pos == pos
                    &&& final(self).done == exhausted
                    &&& !final(self).is_first
                },
                BowNext::Done => r matches Ok(None) && final(self).done,
                BowNext::Fail { at } => match r {
                    Err(CorpusError::Format { offset }) => offset == at,
                    _ => false,
                },
            },
    {
        if self.done {
            return Ok(None);
        }
        let mut bow = DocBow::new();
        let ghost pos0 = self.pos as int;
        let ghost first0 = self.is_first;
        let ghost mut processed: Seq<Seq<u8>> = Seq::empty();
        proof {
            assert(bow_prepend(
                Seq::<Seq<u8>>::empty(),
                flat_bow_next(data@, pos0, first0),
            ) == flat_bow_next(data@, pos0, first0)) by {
                match flat_bow_next(data@, pos0, first0) {
                    BowNext::Doc { lemmas, .. } => {
                        assert(Seq::<Seq<u8>>::empty() + lemmas =~= lemmas);
                    },
                    _ => {},
                }
            }
        }
        while self.pos < data.len()
            invariant
                pos0 == old(self).pos as int,
                first0 == old(self).is_first,
                !old(self).done,
                vocab.wf(),
                self.pos <= data@.len(),
                !self.done,
                bow.wf(),
                bow@ == bow_counts(processed, vocab@),
                bow.spec_total() == bow_total(processed, vocab@),
                flat_bow_next(data@, pos0, first0) == bow_prepend(
                    processed,
                    flat_bow_next(data@, self.pos as int, self.is_first),
                ),
            decreases data@.len() - self.pos,
        {
            let cur = self.pos;
            proof {
                lemma_line_end(data@, cur as int);
            }
            let e: usize = match find_byte(data, cur, NL) {
                Some(i) => i + 1,
                None => data.len(),
            };
            proof {
                assert(e as int == line_end(data@, cur as int));
            }
            let line = vstd::slice::slice_subrange(data, cur, e);
            proof {
                assert(line@ == data@.subrange(cur as int, e as int));
            }
            if is_newdoc(line) {
                if self.is_first {
                    self.is_first = false;
                    self.pos = e;
                } else {
                    self.pos = e;
                    proof {
                        assert(flat_bow_next(data@, cur as int, false) == BowNext::Doc {
                            lemmas: Seq::<Seq<u8>>::empty(),
                            pos: e as int,
                            exhausted: false,
                        });
                        assert(processed + Seq::<Seq<u8>>::empty() =~= processed);
                    }
                    return Ok(Some(bow));
                }
            } else if line[0] == HASH || line[0] == NL {
                proof {
                    assert(data@[cur as int] == line@[0]);
                }
                self.pos = e;
            } else {
                proof {
                    assert(data@[cur as int] == line@[0]);
                    assert(data@[cur as int] != HASH && data@[cur as int] != NL);
                    lemma_spec_find(line@, 0, TAB);
                }
                let t1 = match find_byte(line, 0, TAB) {
                    Some(t) => t,
                    None => {
                        return Err(CorpusError::Format { offset: cur });
                    },
                };
                proof {
                    assert(t1 < line@.len());
                    lemma_spec_find(line@, t1 + 1, TAB);
                }
                match find_byte(line, t1 + 1, TAB) {
                    Some(_) => {},
                    None => {
                        return Err(CorpusError::Format { offset: cur });
                    },
                };
                let lemma = grab_lemma(line);
                let ghost lem = conllu_lemma(line@).unwrap();
                match vocab.get(lemma) {
                    Some(id) => {
                        bow.add(id);
                    },
                    None => {},
                }
                proof {
                    assert(processed.push(lem).drop_last() =~= processed);
                    assert(bow@ == bow_counts(processed.push(lem), vocab@));
                    assert(bow.spec_total() == bow_total(processed.push(lem), vocab@));
                    assert(flat_bow_next(data@, pos0, first0) == bow_prepend(
                        processed.push(lem),
                        flat_bow_next(data@, e as int, self.is_first),
                    )) by {
                        match flat_bow_next(data@, e as int, self.is_first) {
                            BowNext::Doc { lemmas, .. } => {
                                assert(processed + (seq![lem] + lemmas) =~= processed.push(
                                    lem,
                                ) + lemmas);
                            },
                            _ => {},
                        }
                    }
                    processed = processed.push(lem);
                }
                self.pos = e;
            }
        }
        // end of input
        if self.is_first {
            self.done = true;
            Ok(None)
        } else {
            self.done = true;
            proof {
                assert(flat_bow_next(data@, self.pos as int, false) == BowNext::Doc {
                    lemmas: Seq::<Seq<u8>>::empty(),
                    pos: self.pos as int,
                    exhausted: true,
                });
                assert(processed + Seq::<Seq<u8>>::empty() =~= processed);
            }
            Ok(Some(bow))
        }
    }
}

impl ConlluCorpus {
    /// The second full pass: one bag-of-words per document, tokens filtered
    /// through `vocab`, or the offset of the first malformed line.
    pub fn gen_doc_bows(&self, data: &[u8], vocab: &VocabMap) -> (r: Result<
        Vec<DocBow>,
        CorpusError,
    >)
        requires
            vocab.wf(),
        ensures
            match flat_docs(data@, 0, true) {
                FlatDocs::Docs { docs } => match r {
                    Ok(bows) => bows@.len() == docs.len() && forall|i: int|
                        0 <= i < docs.len() ==> (#[trigger] bows@[i]).wf() && bows@[i]@
                            == bow_counts(docs[i], vocab@) && bows@[i].spec_total()
                            == bow_total(docs[i], vocab@),
                    _ => false,
                },
                FlatDocs::Fail { at } => match r {
                    Err(CorpusError::Format { offset }) => offset == at,
                    _ => false,
                },
            },
    {
        let mut iter = DocBowIter::new();
        let mut bows: Vec<DocBow> = Vec::new();
        let ghost mut pdocs: Seq<Seq<Seq<u8>>> = Seq::empty();
        proof {
            assert(docs_prepend(Seq::<Seq<Seq<u8>>>::empty(), flat_docs(data@, 0, true))
                == flat_docs(data@, 0, true)) by {
                match flat_docs(data@, 0, true) {
                    FlatDocs::Docs { docs } => {
                        assert(Seq::<Seq<Seq<u8>>>::empty() + docs =~= docs);
                    },
                    _ => {},
                }
            }
        }
        loop
            invariant
                vocab.wf(),
                iter.pos <= data@.len(),
                !iter.done,
                bows@.len() == pdocs.len(),
                forall|i: int|
                    0 <= i < pdocs.len() ==> (#[trigger] bows@[i]).wf() && bows@[i]@
                        == bow_counts(pdocs[i], vocab@) && bows@[i].spec_total() == bow_total(
                        pdocs[i],
                        vocab@,
                    ),
                flat_docs(data@, 0, true) == docs_prepend(
                    pdocs,
                    flat_docs(data@, iter.pos as int, iter.is_first),
                ),
            decreases data@.len() - iter.pos,
        {
            let ghost pos_before = iter.pos as int;
            let ghost first_before = iter.is_first;
            proof {
                lemma_flat_bow_next_advances(data@, pos_before, first_before);
            }
            match iter.next(data, vocab) {
                Ok(Some(bow)) => {
                    let ghost step = flat_bow_next(data@, pos_before, first_before);
                    proof {
                        assert(step is Doc);
                    }
                    bows.push(bow);
                    if iter.done {
                        proof {
                            assert(flat_docs(data@, pos_before, first_before)
                                == FlatDocs::Docs { docs: seq![step->Doc_lemmas] });
                            assert(pdocs + seq![step->Doc_lemmas] =~= pdocs.push(
                                step->Doc_lemmas,
                            ));
                            pdocs = pdocs.push(step->Doc_lemmas);
                        }
                        return Ok(bows);
                    }
                    proof {
                        let lemmas = step->Doc_lemmas;
                        assert(flat_docs(data@, 0, true) == docs_prepend(
                            pdocs.push(lemmas),
                            flat_docs(data@, iter.pos as int, iter.is_first),
                        )) by {
                            match flat_docs(data@, iter.pos as int, iter.is_first) {
                                FlatDocs::Docs { docs } => {
                                    assert(pdocs + (seq![lemmas] + docs) =~= pdocs.push(
                                        lemmas,
                                    ) + docs);
                                },
                                _ => {},
                            }
                        }
                        pdocs = pdocs.push(lemmas);
                    }
                },
                Ok(None) => {
                    proof {
                        assert(flat_bow_next(data@, pos_before, first_before) is Done);
                        assert(flat_docs(data@, pos_before, first_before)
                            == FlatDocs::Docs { docs: Seq::<Seq<Seq<u8>>>::empty() });
                        assert(pdocs + Seq::<Seq<Seq<u8>>>::empty() =~= pdocs);
                    }
                    return Ok(bows);
                },
                Err(e) => {
                    return Err(e);
                },
            }
        }
    }
}

} // verus!
