use vstd::prelude::*;

use crate::markup::{XmlEvent, XmlEventE, next_event, lemma_next_event_advances, scan_event,
    spec_name_end, name_end, spec_unescape, unescape_bytes};
use crate::bytes::{lemma_spec_find, find_byte};
use crate::conllu::{conllu_lemma, grab_lemma, TAB};
use crate::vocab::{VocabBuilder, token_counts, spec_merged};
use crate::types::{CorpusError, DocBow, bow_counts, bow_total};
use crate::zip::{EntryDescriptor, EntryFilter, spec_filtered, zip_parses, zip_entries_of,
    zip_data_of, zip_entry_list, zip_entry_data, zip_archive_bytes, spec_zip_preflight,
    read_fails_at};
use crate::conllu::sat_add_int;
use crate::opensubs18::len_as_u32;

verus! {

// ----------------------------------------------------------------------------
// Nested-tag corpora: a `<text>` element is one document; within it, text
// runs are token rows only while inside a `<sentence>` element, and each
// run's third tab-separated field is the lemma.  An input that ends inside an
// open `<text>` is recoverable: the partial document is handed back marked
// truncated, and the caller drops it from every total.
// ----------------------------------------------------------------------------

pub open spec fn text_name() -> Seq<u8> {
    seq![116u8, 101u8, 120u8, 116u8]
}

pub open spec fn sentence_name() -> Seq<u8> {
    seq![115u8, 101u8, 110u8, 116u8, 101u8, 110u8, 99u8, 101u8]
}

/// Scanning the inside of one `<text>` element: its lemmas and the position
/// after its end tag, or the lemmas seen before the input ran out, or the
/// offset of malformed markup.
pub enum VrtDocStep {
    Closed { lemmas: Seq<Seq<u8>>, pos: int },
    Truncated { lemmas: Seq<Seq<u8>> },
    Fail { at: int },
}

pub open spec fn vrt_cons(l: Seq<u8>, o: VrtDocStep) -> VrtDocStep {
    match o {
        VrtDocStep::Closed { lemmas, pos } => VrtDocStep::Closed { lemmas: seq![l] + lemmas, pos },
        VrtDocStep::Truncated { lemmas } => VrtDocStep::Truncated { lemmas: seq![l] + lemmas },
        VrtDocStep::Fail { at } => VrtDocStep::Fail { at },
    }
}

pub open spec fn vrt_text_scan(data: Seq<u8>, pos: int, in_sent: bool) -> VrtDocStep
    decreases data.len() - pos,
    when 0 <= pos <= data.len()
    via vrt_text_scan_decreases
{
    match next_event(data, pos) {
        XmlEvent::Eof => VrtDocStep::Truncated { lemmas: Seq::empty() },
        XmlEvent::Fail { at } => VrtDocStep::Fail { at },
        XmlEvent::Text { start, end } => {
            if in_sent {
                match spec_unescape(data.subrange(start, end), 0) {
                    None => VrtDocStep::Fail { at: pos },
                    Some(u) => match conllu_lemma(u) {
                        None => VrtDocStep::Fail { at: pos },
                        Some(lem) => vrt_cons(lem, vrt_text_scan(data, end, in_sent)),
                    },
                }
            } else {
                vrt_text_scan(data, end, in_sent)
            }
        },
        XmlEvent::Start { inner_start, inner_end, next, empty } => {
            if !empty && data.subrange(inner_start, spec_name_end(data, inner_start, inner_end))
                == sentence_name() {
                vrt_text_scan(data, next, true)
            } else {
                vrt_text_scan(data, next, in_sent)
            }
        },
        XmlEvent::End { name_start, name_end, next } => {
            if data.subrange(name_start, name_end) == text_name() {
                VrtDocStep::Closed { lemmas: Seq::empty(), pos: next }
            } else if data.subrange(name_start, name_end) == sentence_name() {
                vrt_text_scan(data, next, false)
            } else {
                vrt_text_scan(data, next, in_sent)
            }
        },
        XmlEvent::Skip { next } => vrt_text_scan(data, next, in_sent),
    }
}

#[via_fn]
proof fn vrt_text_scan_decreases(data: Seq<u8>, pos: int, in_sent: bool) {
    lemma_next_event_advances(data, pos);
}

pub proof fn lemma_vrt_text_scan_advances(data: Seq<u8>, pos: int, in_sent: bool)
    requires
        0 <= pos <= data.len(),
    ensures
        match vrt_text_scan(data, pos, in_sent) {
            VrtDocStep::Closed { pos: p, .. } => pos < p <= data.len(),
            VrtDocStep::Truncated { .. } => true,
            VrtDocStep::Fail { .. } => true,
        },
    decreases data.len() - pos,
{
    lemma_next_event_advances(data, pos);
    match next_event(data, pos) {
        XmlEvent::Text { end, .. } => {
            lemma_vrt_text_scan_advances(data, end, in_sent);
        },
        XmlEvent::Start { next, .. } => {
            lemma_vrt_text_scan_advances(data, next, true);
            lemma_vrt_text_scan_advances(data, next, in_sent);
        },
        XmlEvent::End { next, .. } => {
            lemma_vrt_text_scan_advances(data, next, false);
            lemma_vrt_text_scan_advances(data, next, in_sent);
        },
        XmlEvent::Skip { next } => {
            lemma_vrt_text_scan_advances(data, next, in_sent);
        },
        _ => {},
    }
}

/// The next document of the entry at or after `pos`.
pub enum VrtNextDoc {
    Doc { lemmas: Seq<Seq<u8>>, pos: int, truncated: bool },
    End,
    Fail { at: int },
}

pub open spec fn vrt_next_doc(data: Seq<u8>, pos: int) -> VrtNextDoc
    decreases data.len() - pos,
    when 0 <= pos <= data.len()
    via vrt_next_doc_decreases
{
    match next_event(data, pos) {
        XmlEvent::Eof => VrtNextDoc::End,
        XmlEvent::Fail { at } => VrtNextDoc::Fail { at },
        XmlEvent::Text { end, .. } => vrt_next_doc(data, end),
        XmlEvent::Skip { next } => vrt_next_doc(data, next),
        XmlEvent::End { next, .. } => vrt_next_doc(data, next),
        XmlEvent::Start { inner_start, inner_end, next, empty } => {
            if !empty && data.subrange(inner_start, spec_name_end(data, inner_start, inner_end))
                == text_name() {
                match vrt_text_scan(data, next, false) {
                    VrtDocStep::Closed { lemmas, pos: p } => VrtNextDoc::Doc {
                        lemmas,
                        pos: p,
                        truncated: false,
                    },
                    VrtDocStep::Truncated { lemmas } => VrtNextDoc::Doc {
                        lemmas,
                        pos: data.len() as int,
                        truncated: true,
                    },
                    VrtDocStep::Fail { at } => VrtNextDoc::Fail { at },
                }
            } else {
                vrt_next_doc(data, next)
            }
        },
    }
}

#[via_fn]
proof fn vrt_next_doc_decreases(data: Seq<u8>, pos: int) {
    lemma_next_event_advances(data, pos);
}

pub proof fn lemma_vrt_next_doc_advances(data: Seq<u8>, pos: int)
    requires
        0 <= pos <= data.len(),
    ensures
        match vrt_next_doc(data, pos) {
            VrtNextDoc::Doc { pos: p, .. } => pos < p <= data.len(),
            VrtNextDoc::End => true,
            VrtNextDoc::Fail { .. } => true,
        },
    decreases data.len() - pos,
{
    lemma_next_event_advances(data, pos);
    match next_event(data, pos) {
        XmlEvent::Text { end, .. } => {
            lemma_vrt_next_doc_advances(data, end);
        },
        XmlEvent::Skip { next } => {
            lemma_vrt_next_doc_advances(data, next);
        },
        XmlEvent::End { next, .. } => {
            lemma_vrt_next_doc_advances(data, next);
        },
        XmlEvent::Start { next, .. } => {
            lemma_vrt_text_scan_advances(data, next, false);
            lemma_vrt_next_doc_advances(data, next);
        },
        _ => {},
    }
}

/// All documents of one entry, each with its truncation mark, or the offset
/// of the first malformed construct.
pub enum VrtScan {
    Docs { docs: Seq<(Seq<Seq<u8>>, bool)> },
    Fail { at: int },
}

pub open spec fn vrt_scan(data: Seq<u8>, pos: int) -> VrtScan
    decreases data.len() - pos,
    when 0 <= pos <= data.len()
    via vrt_scan_decreases
{
    match vrt_next_doc(data, pos) {
        VrtNextDoc::Doc { lemmas, pos: p, truncated } => match vrt_scan(data, p) {
            VrtScan::Docs { docs } => VrtScan::Docs { docs: seq![(lemmas, truncated)] + docs },
            VrtScan::Fail { at } => VrtScan::Fail { at },
        },
        VrtNextDoc::End => VrtScan::Docs { docs: Seq::empty() },
        VrtNextDoc::Fail { at } => VrtScan::Fail { at },
    }
}

#[via_fn]
proof fn vrt_scan_decreases(data: Seq<u8>, pos: int) {
    lemma_vrt_next_doc_advances(data, pos);
}

/// The tokens of the documents that survive: truncated documents contribute
/// nothing to the vocabulary or the statistics.
pub open spec fn vrt_kept_tokens(docs: Seq<(Seq<Seq<u8>>, bool)>) -> Seq<Seq<u8>>
    decreases docs.len(),
{
    if docs.len() == 0 {
        Seq::empty()
    } else {
        vrt_kept_tokens(docs.drop_last()) + (if docs.last().1 {
            Seq::empty()
        } else {
            docs.last().0
        })
    }
}

/// How many documents were dropped as truncated.
pub open spec fn vrt_truncated_count(docs: Seq<(Seq<Seq<u8>>, bool)>) -> int
    decreases docs.len(),
{
    if docs.len() == 0 {
        0
    } else {
        vrt_truncated_count(docs.drop_last()) + (if docs.last().1 {
            1int
        } else {
            0int
        })
    }
}

/// The view of an owned token list.
pub open spec fn toks_view(ts: Seq<Vec<u8>>) -> Seq<Seq<u8>> {
    ts.map_values(|t: Vec<u8>| t@)
}

/// A cursor over one entry of a nested-tag corpus, handing out one document's
/// owned token list at a time, with its truncation mark.
pub struct VrtFile {
    pub pos: usize,
}

impl VrtFile {
    pub fn new() -> (r: VrtFile)
        ensures
            r.pos == 0,
    {
        VrtFile { pos: 0 }
    }

    /// The next document of the entry, `Ok(None)` at its end, or the offset
    /// of the first malformed construct.
    pub fn next(&mut self, data: &[u8]) -> (r: Result<Option<(Vec<Vec<u8>>, bool)>, CorpusError>)
        requires
            old(self).pos <= data@.len(),
        ensures
            final(self).pos <= data@.len(),
            match vrt_next_doc(data@, old(self).pos as int) {
                VrtNextDoc::Doc { lemmas, pos, truncated } => (match r {
                    Ok(Some((toks, tr))) => toks_view(toks@) == lemmas && tr == truncated,
                    _ => false,
                }) && final(self).pos == pos,
                VrtNextDoc::End => (r matches Ok(None)) && final(self).pos == data@.len(),
                VrtNextDoc::Fail { at } => match r {
                    Err(CorpusError::Format { offset }) => offset == at,
                    _ => false,
                },
            },
    {
        let ghost pos0 = self.pos as int;
        // scan to the next `<text>` start tag
        while self.pos < data.len()
            invariant
                pos0 == old(self).pos as int,
                0 <= pos0 <= data@.len(),
                self.pos <= data@.len(),
                vrt_next_doc(data@, pos0) == vrt_next_doc(data@, self.pos as int),
            decreases data@.len() - self.pos,
        {
            let cur = self.pos;
            proof {
                lemma_next_event_advances(data@, cur as int);
            }
            match scan_event(data, cur) {
                XmlEventE::Eof => {
                    // unreachable: the cursor is strictly inside the input
                    proof {
                        assert(false);
                    }
                },
                XmlEventE::Fail { at } => {
                    return Err(CorpusError::Format { offset: at });
                },
                XmlEventE::Text { end, .. } => {
                    self.pos = end;
                },
                XmlEventE::Skip { next } => {
                    self.pos = next;
                },
                XmlEventE::End { next, .. } => {
                    self.pos = next;
                },
                XmlEventE::Start { inner_start, inner_end, next, empty } => {
                    let ne = name_end(data, inner_start, inner_end);
                    let name = vstd::slice::slice_subrange(data, inner_start, ne);
                    let is_text = !empty && name.len() == 4 && name[0] == 116 && name[1] == 101
                        && name[2] == 120 && name[3] == 116;
                    proof {
                        if !empty {
                            if name.len() == 4 && name@[0] == 116 && name@[1] == 101
                                && name@[2] == 120 && name@[3] == 116 {
                                assert(name@ =~= text_name());
                            }
                            if name@ == text_name() {
                                assert(name@.len() == 4 && name@[0] == 116 && name@[1] == 101
                                    && name@[2] == 120 && name@[3] == 116);
                            }
                        }
                    }
                    if is_text {
                        // inside the document
                        return self.read_doc(data, next);
                    } else {
                        self.pos = next;
                    }
                },
            }
        }
        Ok(None)
    }

    /// Reads one document's body, `start` pointing just past its start tag.
    #[verifier::rlimit(50)]
    fn read_doc(&mut self, data: &[u8], start: usize) -> (r: Result<
        Option<(Vec<Vec<u8>>, bool)>, CorpusError,
    >)
        requires
            old(self).pos <= data@.len(),
            start <= data@.len(),
        ensures
            final(self).pos <= data@.len(),
            match vrt_text_scan(data@, start as int, false) {
                VrtDocStep::Closed { lemmas, pos } => (match r {
                    Ok(Some((toks, tr))) => toks_view(toks@) == lemmas && !tr,
                    _ => false,
                }) && final(self).pos == pos,
                VrtDocStep::Truncated { lemmas } => (match r {
                    Ok(Some((toks, tr))) => toks_view(toks@) == lemmas && tr,
                    _ => false,
                }) && final(self).pos == data@.len(),
                VrtDocStep::Fail { at } => match r {
                    Err(CorpusError::Format { offset }) => offset == at,
                    _ => false,
                },
            },
    {
        let mut toks: Vec<Vec<u8>> = Vec::new();
        let mut in_sent = false;
        let mut cur = start;
        let ghost mut processed: Seq<Seq<u8>> = Seq::empty();
        proof {
            assert(toks_view(toks@) =~= processed);
        }
        while cur < data.len()
            invariant
                start <= data@.len(),
                cur <= data@.len(),
                self.pos <= data@.len(),
                toks_view(toks@) == processed,
                vrt_text_scan(data@, start as int, false) == (match vrt_text_scan(
                    data@,
                    cur as int,
                    in_sent,
                ) {
                    VrtDocStep::Closed { lemmas, pos } => VrtDocStep::Closed {
                        lemmas: processed + lemmas,
                        pos,
                    },
                    VrtDocStep::Truncated { lemmas } => VrtDocStep::Truncated {
                        lemmas: processed + lemmas,
                    },
                    VrtDocStep::Fail { at } => VrtDocStep::Fail { at },
                }),
            decreases data@.len() - cur,
        {
            proof {
                lemma_next_event_advances(data@, cur as int);
            }
            match scan_event(data, cur) {
                XmlEventE::Eof => {
                    // unreachable: the cursor is strictly inside the input
                    proof {
                        assert(false);
                    }
                },
                XmlEventE::Fail { at } => {
                    return Err(CorpusError::Format { offset: at });
                },
                XmlEventE::Text { start: ts, end } => {
                    if in_sent {
                        let run = vstd::slice::slice_subrange(data, ts, end);
                        let u = match unescape_bytes(run) {
                            Some(u) => u,
                            None => {
                                return Err(CorpusError::Format { offset: cur });
                            },
                        };
                        let un = u.len();
                        proof {
                            lemma_spec_find(u@, 0, TAB);
                        }
                        let t1 = match find_byte(u.as_slice(), 0, TAB) {
                            Some(t) => t,
                            None => {
                                return Err(CorpusError::Format { offset: cur });
                            },
                        };
                        proof {
                            assert(t1 < un);
                            lemma_spec_find(u@, t1 + 1, TAB);
                        }
                        match find_byte(u.as_slice(), t1 + 1, TAB) {
                            Some(_) => {},
                            None => {
                                return Err(CorpusError::Format { offset: cur });
                            },
                        };
                        let lemma = grab_lemma(u.as_slice());
                        let owned = vstd::slice::slice_to_vec(lemma);
                        let ghost lem = conllu_lemma(u@).unwrap();
                        let ghost toks_old = toks@;
                        toks.push(owned);
                        proof {
                            assert(toks_view(toks@) =~= processed.push(lem));
                            assert(vrt_text_scan(data@, start as int, false) == (
                            match vrt_text_scan(data@, end as int, in_sent) {
                                VrtDocStep::Closed { lemmas, pos } => VrtDocStep::Closed {
                                    lemmas: processed.push(lem) + lemmas,
                                    pos,
                                },
                                VrtDocStep::Truncated { lemmas } => VrtDocStep::Truncated {
                                    lemmas: processed.push(lem) + lemmas,
                                },
                                VrtDocStep::Fail { at } => VrtDocStep::Fail { at },
                            })) by {
                                match vrt_text_scan(data@, end as int, in_sent) {
                                    VrtDocStep::Closed { lemmas, .. } => {
                                        assert(processed + (seq![lem] + lemmas)
                                            =~= processed.push(lem) + lemmas);
                                    },
                                    VrtDocStep::Truncated { lemmas } => {
                                        assert(processed + (seq![lem] + lemmas)
                                            =~= processed.push(lem) + lemmas);
                                    },
                                    _ => {},
                                }
                            }
                            processed = processed.push(lem);
                        }
                        cur = end;
                    } else {
                        cur = end;
                    }
                },
                XmlEventE::Skip { next } => {
                    cur = next;
                },
                XmlEventE::Start { inner_start, inner_end, next, empty } => {
                    let ne = name_end(data, inner_start, inner_end);
                    let name = vstd::slice::slice_subrange(data, inner_start, ne);
                    let is_sent = !empty && name.len() == 8 && name[0] == 115 && name[1] == 101
                        && name[2] == 110 && name[3] == 116 && name[4] == 101 && name[5] == 110
                        && name[6] == 99 && name[7] == 101;
                    proof {
                        if !empty {
                            if is_sent {
                                assert(name@ =~= sentence_name());
                            }
                            if name@ == sentence_name() {
                                assert(name@.len() == 8 && name@[0] == 115 && name@[1] == 101
                                    && name@[2] == 110 && name@[3] == 116 && name@[4] == 101
                                    && name@[5] == 110 && name@[6] == 99 && name@[7] == 101);
                            }
                        }
                    }
                    if is_sent {
                        in_sent = true;
                    }
                    cur = next;
                },
                XmlEventE::End { name_start, name_end: nend, next } => {
                    let name = vstd::slice::slice_subrange(data, name_start, nend);
                    let is_text = name.len() == 4 && name[0] == 116 && name[1] == 101 && name[2]
                        == 120 && name[3] == 116;
                    let is_sent = name.len() == 8 && name[0] == 115 && name[1] == 101 && name[2]
                        == 110 && name[3] == 116 && name[4] == 101 && name[5] == 110 && name[6]
                        == 99 && name[7] == 101;
                    proof {
                        if is_text {
                            assert(name@ =~= text_name());
                        }
                        if name@ == text_name() {
                            assert(name@.len() == 4 && name@[0] == 116 && name@[1] == 101
                                && name@[2] == 120 && name@[3] == 116);
                        }
                        if is_sent {
                            assert(name@ =~= sentence_name());
                        }
                        if name@ == sentence_name() {
                            assert(name@.len() == 8 && name@[0] == 115 && name@[1] == 101
                                && name@[2] == 110 && name@[3] == 116 && name@[4] == 101
                                && name@[5] == 110 && name@[6] == 99 && name@[7] == 101);
                        }
                    }
                    if is_text {
                        self.pos = next;
                        proof {
                            assert(processed + Seq::<Seq<u8>>::empty() =~= processed);
                        }
                        return Ok(Some((toks, false)));
                    } else if is_sent {
                        in_sent = false;
                        cur = next;
                    } else {
                        cur = next;
                    }
                },
            }
        }
        // the input ran out inside the open document
        self.pos = data.len();
        proof {
            assert(processed + Seq::<Seq<u8>>::empty() =~= processed);
        }
        Ok(Some((toks, true)))
    }
}

/// The per-document lemma lists of the documents that survive, in order.
pub open spec fn vrt_kept_docs(docs: Seq<(Seq<Seq<u8>>, bool)>) -> Seq<Seq<Seq<u8>>>
    decreases docs.len(),
{
    if docs.len() == 0 {
        Seq::empty()
    } else {
        vrt_kept_docs(docs.drop_last()) + (if docs.last().1 {
            Seq::empty()
        } else {
            seq![docs.last().0]
        })
    }
}

/// One entry's worth of counting: every token of every whole document added
/// to `builder`; truncated documents are dropped, and their number returned
/// as the count of warnings to report.
pub fn count_words(data: &[u8], builder: &mut VocabBuilder) -> (r: Result<u32, CorpusError>)
    requires
        old(builder).wf(),
    ensures
        final(builder).wf(),
        match vrt_scan(data@, 0) {
            VrtScan::Docs { docs } => match r {
                Ok(w) => final(builder)@ == spec_merged(
                    old(builder)@,
                    token_counts(vrt_kept_tokens(docs)),
                ) && w == crate::conllu::sat_add_int(0, vrt_truncated_count(docs)),
                _ => false,
            },
            VrtScan::Fail { at } => match r {
                Err(CorpusError::Format { offset }) => offset == at,
                _ => false,
            },
        },
{
    let mut file = VrtFile::new();
    let mut warn: u32 = 0;
    let ghost mut pdocs: Seq<(Seq<Seq<u8>>, bool)> = Seq::empty();
    let ghost mut trunc: int = 0;
    proof {
        assert(spec_merged(old(builder)@, token_counts(vrt_kept_tokens(pdocs))) =~= old(
            builder,
        )@);
    }
    loop
        invariant
            file.pos <= data@.len(),
            builder.wf(),
            0 <= trunc == vrt_truncated_count(pdocs),
            warn == crate::conllu::sat_add_int(0, trunc),
            builder@ == spec_merged(old(builder)@, token_counts(vrt_kept_tokens(pdocs))),
            vrt_scan(data@, 0) == (match vrt_scan(data@, file.pos as int) {
                VrtScan::Docs { docs } => VrtScan::Docs { docs: pdocs + docs },
                VrtScan::Fail { at } => VrtScan::Fail { at },
            }),
        decreases data@.len() - file.pos,
    {
        let ghost pos_before = file.pos as int;
        proof {
            lemma_vrt_next_doc_advances(data@, pos_before);
        }
        match file.next(data) {
            Ok(Some((toks, truncated))) => {
                let ghost step = vrt_next_doc(data@, pos_before);
                proof {
                    assert(step is Doc);
                }
                let ghost lemmas = step->Doc_lemmas;
                let ghost entry = (lemmas, truncated);
                if !truncated {
                    // fold the document's tokens into the builder
                    let mut j: usize = 0;
                    let ghost kept0 = vrt_kept_tokens(pdocs);
                    while j < toks.len()
                        invariant
                            j <= toks@.len(),
                            builder.wf(),
                            toks_view(toks@) == lemmas,
                            builder@ == spec_merged(
                                old(builder)@,
                                token_counts(kept0 + lemmas.take(j as int)),
                            ),
                        decreases toks@.len() - j,
                    {
                        builder.add(toks[j].as_slice());
                        proof {
                            let pre = kept0 + lemmas.take(j as int);
                            let post = kept0 + lemmas.take(j + 1);
                            assert(post.drop_last() =~= pre);
                            assert(post.last() == lemmas[j as int]);
                            crate::vocab::lemma_inc_merged(
                                old(builder)@,
                                token_counts(pre),
                                lemmas[j as int],
                                1,
                            );
                            assert(toks@[j as int]@ == lemmas[j as int]);
                        }
                        j = j + 1;
                    }
                    proof {
                        assert(lemmas.take(lemmas.len() as int) =~= lemmas);
                        assert(vrt_kept_tokens(pdocs.push(entry)) =~= kept0 + lemmas) by {
                            assert(pdocs.push(entry).drop_last() =~= pdocs);
                        }
                    }
                } else {
                    warn = crate::vocab::sat_add32(warn, 1);
                    proof {
                        assert(pdocs.push(entry).drop_last() =~= pdocs);
                        assert(vrt_kept_tokens(pdocs.push(entry)) =~= vrt_kept_tokens(pdocs));
                    }
                }
                proof {
                    assert(pdocs.push(entry).drop_last() =~= pdocs);
                    assert(vrt_scan(data@, 0) == (match vrt_scan(data@, file.pos as int) {
                        VrtScan::Docs { docs } => VrtScan::Docs {
                            docs: pdocs.push(entry) + docs,
                        },
                        VrtScan::Fail { at } => VrtScan::Fail { at },
                    })) by {
                        match vrt_scan(data@, file.pos as int) {
                            VrtScan::Docs { docs } => {
                                assert(pdocs + (seq![entry] + docs) =~= pdocs.push(entry)
                                    + docs);
                            },
                            _ => {},
                        }
                    }
                    pdocs = pdocs.push(entry);
                    trunc = vrt_truncated_count(pdocs);
                }
            },
            Ok(None) => {
                proof {
                    assert(vrt_next_doc(data@, pos_before) is End);
                    assert(pdocs + Seq::<(Seq<Seq<u8>>, bool)>::empty() =~= pdocs);
                }
                return Ok(warn);
            },
            Err(e) => {
                return Err(e);
            },
        }
    }
}

/// Builds one document's bag-of-words from its owned token list.
fn bow_from_tokens(toks: &Vec<Vec<u8>>, vocab: &crate::vocab::VocabMap) -> (bow: DocBow)
    requires
        vocab.wf(),
    ensures
        bow.wf(),
        bow@ == bow_counts(toks_view(toks@), vocab@),
        bow.spec_total() == bow_total(toks_view(toks@), vocab@),
{
    let mut bow = DocBow::new();
    let mut j: usize = 0;
    while j < toks.len()
        invariant
            j <= toks@.len(),
            vocab.wf(),
            bow.wf(),
            bow@ == bow_counts(toks_view(toks@).take(j as int), vocab@),
            bow.spec_total() == bow_total(toks_view(toks@).take(j as int), vocab@),
        decreases toks@.len() - j,
    {
        match vocab.get(toks[j].as_slice()) {
            Some(id) => {
                bow.add(id);
            },
            None => {},
        }
        proof {
            let tv = toks_view(toks@);
            assert(tv.take(j + 1).drop_last() =~= tv.take(j as int));
            assert(tv.take(j + 1).last() == toks@[j as int]@);
        }
        j = j + 1;
    }
    proof {
        assert(toks_view(toks@).take(toks@.len() as int) =~= toks_view(toks@));
    }
    bow
}

/// One entry's worth of bags-of-words: one per whole document, in document
/// order; truncated documents are dropped, their number returned beside the
/// bags.
pub fn make_doc_bows(data: &[u8], vocab: &crate::vocab::VocabMap) -> (r: Result<
    (Vec<DocBow>, u32),
    CorpusError,
>)
    requires
        vocab.wf(),
    ensures
        match vrt_scan(data@, 0) {
            VrtScan::Docs { docs } => match r {
                Ok((bows, w)) => {
                    let kept = vrt_kept_docs(docs);
                    &&& bows@.len() == kept.len()
                    &&& forall|i: int|
                        0 <= i < kept.len() ==> (#[trigger] bows@[i]).wf() && bows@[i]@
                            == bow_counts(kept[i], vocab@) && bows@[i].spec_total()
                            == bow_total(kept[i], vocab@)
                    &&& w == crate::conllu::sat_add_int(0, vrt_truncated_count(docs))
                },
                _ => false,
            },
            VrtScan::Fail { at } => match r {
                Err(CorpusError::Format { offset }) => offset == at,
                _ => false,
            },
        },
{
    let mut file = VrtFile::new();
    let mut bows: Vec<DocBow> = Vec::new();
    let mut warn: u32 = 0;
    let ghost mut pdocs: Seq<(Seq<Seq<u8>>, bool)> = Seq::empty();
    let ghost mut trunc: int = 0;
    loop
        invariant
            file.pos <= data@.len(),
            vocab.wf(),
            0 <= trunc == vrt_truncated_count(pdocs),
            warn == crate::conllu::sat_add_int(0, trunc),
            bows@.len() == vrt_kept_docs(pdocs).len(),
            forall|i: int|
                0 <= i < vrt_kept_docs(pdocs).len() ==> (#[trigger] bows@[i]).wf() && bows@[i]@
                    == bow_counts(vrt_kept_docs(pdocs)[i], vocab@) && bows@[i].spec_total()
                    == bow_total(vrt_kept_docs(pdocs)[i], vocab@),
            vrt_scan(data@, 0) == (match vrt_scan(data@, file.pos as int) {
                VrtScan::Docs { docs } => VrtScan::Docs { docs: pdocs + docs },
                VrtScan::Fail { at } => VrtScan::Fail { at },
            }),
        decreases data@.len() - file.pos,
    {
        let ghost pos_before = file.pos as int;
        proof {
            lemma_vrt_next_doc_advances(data@, pos_before);
        }
        match file.next(data) {
            Ok(Some((toks, truncated))) => {
                let ghost step = vrt_next_doc(data@, pos_before);
                proof {
                    assert(step is Doc);
                }
                let ghost lemmas = step->Doc_lemmas;
                let ghost entry = (lemmas, truncated);
                if !truncated {
                    let bow = bow_from_tokens(&toks, vocab);
                    bows.push(bow);
                    proof {
                        assert(pdocs.push(entry).drop_last() =~= pdocs);
                        assert(vrt_kept_docs(pdocs.push(entry)) =~= vrt_kept_docs(pdocs).push(
                            lemmas,
                        ));
                    }
                } else {
                    warn = crate::vocab::sat_add32(warn, 1);
                    proof {
                        assert(pdocs.push(entry).drop_last() =~= pdocs);
                        assert(vrt_kept_docs(pdocs.push(entry)) =~= vrt_kept_docs(pdocs));
                    }
                }
                proof {
                    assert(vrt_scan(data@, 0) == (match vrt_scan(data@, file.pos as int) {
                        VrtScan::Docs { docs } => VrtScan::Docs {
                            docs: pdocs.push(entry) + docs,
                        },
                        VrtScan::Fail { at } => VrtScan::Fail { at },
                    })) by {
                        match vrt_scan(data@, file.pos as int) {
                            VrtScan::Docs { docs } => {
                                assert(pdocs + (seq![entry] + docs) =~= pdocs.push(entry)
                                    + docs);
                            },
                            _ => {},
                        }
                    }
                    pdocs = pdocs.push(entry);
                    trunc = vrt_truncated_count(pdocs);
                }
            },
            Ok(None) => {
                proof {
                    assert(vrt_next_doc(data@, pos_before) is End);
                    assert(pdocs + Seq::<(Seq<Seq<u8>>, bool)>::empty() =~= pdocs);
                }
                return Ok((bows, warn));
            },
            Err(e) => {
                return Err(e);
            },
        }
    }
}

// ----------------------------------------------------------------------------
// The whole-archive passes.
// ----------------------------------------------------------------------------

/// The document scan of one located entry of the archive.
pub open spec fn vrt_entry_scan(bytes: Seq<u8>, e: EntryDescriptor) -> VrtScan {
    vrt_scan(zip_data_of(bytes, e.index as int), 0)
}

/// The surviving tokens of a list of entries, in directory order.
pub open spec fn vrt_concat_kept(bytes: Seq<u8>, entries: Seq<EntryDescriptor>) -> Seq<
    Seq<u8>,
>
    decreases entries.len(),
{
    if entries.len() == 0 {
        Seq::empty()
    } else {
        vrt_concat_kept(bytes, entries.drop_last()) + (match vrt_entry_scan(
            bytes,
            entries.last(),
        ) {
            VrtScan::Docs { docs } => vrt_kept_tokens(docs),
            VrtScan::Fail { .. } => Seq::empty(),
        })
    }
}

/// The surviving documents of a list of entries, in directory order.
pub open spec fn vrt_concat_docs(bytes: Seq<u8>, entries: Seq<EntryDescriptor>) -> Seq<
    Seq<Seq<u8>>,
>
    decreases entries.len(),
{
    if entries.len() == 0 {
        Seq::empty()
    } else {
        vrt_concat_docs(bytes, entries.drop_last()) + (match vrt_entry_scan(
            bytes,
            entries.last(),
        ) {
            VrtScan::Docs { docs } => vrt_kept_docs(docs),
            VrtScan::Fail { .. } => Seq::empty(),
        })
    }
}

/// How many documents were dropped as truncated, over a list of entries.
pub open spec fn vrt_concat_trunc(bytes: Seq<u8>, entries: Seq<EntryDescriptor>) -> int
    decreases entries.len(),
{
    if entries.len() == 0 {
        0
    } else {
        vrt_concat_trunc(bytes, entries.drop_last()) + (match vrt_entry_scan(
            bytes,
            entries.last(),
        ) {
            VrtScan::Docs { docs } => vrt_truncated_count(docs),
            VrtScan::Fail { .. } => 0,
        })
    }
}

pub proof fn lemma_vrt_trunc_nonneg(docs: Seq<(Seq<Seq<u8>>, bool)>)
    ensures
        vrt_truncated_count(docs) >= 0,
    decreases docs.len(),
{
    if docs.len() > 0 {
        lemma_vrt_trunc_nonneg(docs.drop_last());
    }
}

/// Some matching entry's scan fails at `offset`.
#[verifier::opaque]
pub open spec fn vrt_fails_at(bytes: Seq<u8>, f: Seq<EntryDescriptor>, offset: int) -> bool {
    exists|j: int|
        0 <= j < f.len() && (vrt_entry_scan(bytes, #[trigger] f[j]) matches VrtScan::Fail {
            at,
        } && at == offset)
}

/// The bag-of-words `bow` is what the document `doc` denotes against `vocab`.
#[verifier::opaque]
pub open spec fn bow_matches_doc(bow: DocBow, doc: Seq<Seq<u8>>, vocab: Map<Seq<u8>, u32>) -> bool {
    bow.wf() && bow@ == bow_counts(doc, vocab) && bow.spec_total() == bow_total(doc, vocab)
}

/// A nested-tag corpus: a compressed archive whose `vrt` members each hold a
/// run of `<text>` documents.  The caller owns the mapping of the archive
/// bytes.
pub struct VrtCorpus {
}

impl VrtCorpus {
    pub fn new() -> (r: VrtCorpus) {
        VrtCorpus {  }
    }

    /// One full pass over the archive: every surviving token counted into a
    /// fresh builder; returns beside it the document count — for this format
    /// the number of matching entries — and the count of truncated documents
    /// that were dropped, to be reported as warnings.
    pub fn count_words(&self, archive: &[u8]) -> (r: Result<
        (VocabBuilder, u32, u32),
        CorpusError,
    >)
        ensures
            ({
                let f = spec_filtered(zip_entries_of(archive@), EntryFilter::Vrt);
                match r {
                    Ok((b, n, w)) => {
                        &&& spec_zip_preflight(archive@)
                        &&& zip_parses(archive@)
                        &&& f.len() > 0
                        &&& forall|j: int|
                            0 <= j < f.len() ==> vrt_entry_scan(archive@, #[trigger] f[j])
                                is Docs
                        &&& b.wf()
                        &&& b@ == token_counts(vrt_concat_kept(archive@, f))
                        &&& n == len_as_u32(f.len() as int)
                        &&& w == sat_add_int(0, vrt_concat_trunc(archive@, f))
                    },
                    Err(CorpusError::Format { offset }) => !spec_zip_preflight(archive@)
                        || !zip_parses(archive@)
                        || vrt_fails_at(archive@, f, offset as int),
                    Err(CorpusError::Config { .. }) => spec_zip_preflight(archive@) && zip_parses(
                        archive@,
                    ) && f.len() == 0,
                    Err(CorpusError::Integrity { entry, .. }) => read_fails_at(
                        archive@,
                        f,
                        entry as int,
                    ),
                }
            }),
    {
        let (ar, entries) = match crate::zip::open_piz(archive, &EntryFilter::Vrt) {
            Ok(p) => p,
            Err(e) => {
                return Err(e);
            },
        };
        let ghost f = spec_filtered(zip_entries_of(archive@), EntryFilter::Vrt);
        let mut builder = VocabBuilder::new();
        let mut warn: u32 = 0;
        let ghost mut trunc: int = 0;
        let mut j: usize = 0;
        proof {
            assert(token_counts(vrt_concat_kept(archive@, f.take(0))) =~= Map::<
                Seq<u8>,
                u32,
            >::empty());
        }
        while j < entries.len()
            invariant
                j <= entries@.len(),
                f == spec_filtered(zip_entries_of(archive@), EntryFilter::Vrt),
                entries@ == f,
                spec_zip_preflight(archive@),
                zip_parses(archive@),
                zip_archive_bytes(ar) == archive@,
                zip_entry_list(ar) == zip_entries_of(archive@),
                forall|i: int| zip_entry_data(ar, i) == #[trigger] zip_data_of(archive@, i),
                forall|w: int|
                    0 <= w < f.len() ==> (#[trigger] f[w].index) < zip_entries_of(
                        archive@,
                    ).len(),
                builder.wf(),
                builder@ == token_counts(vrt_concat_kept(archive@, f.take(j as int))),
                0 <= trunc == vrt_concat_trunc(archive@, f.take(j as int)),
                warn == sat_add_int(0, trunc),
                forall|w: int|
                    0 <= w < j ==> vrt_entry_scan(archive@, #[trigger] f[w]) is Docs,
            decreases entries@.len() - j,
        {
            let data = match crate::zip::read_entry(&ar, &entries[j]) {
                Ok(d) => d,
                Err(e) => {
                    proof {
                        let idx = f[j as int].index;
                        assert(e matches CorpusError::Integrity { entry, .. } && entry == idx);
                        assert(!crate::zip::zip_read_ok(archive@, idx as int));
                        assert(read_fails_at(archive@, f, idx as int)) by {
                            reveal(read_fails_at);
                            assert(0 <= j < f.len() && f[j as int].index == idx
                                && !crate::zip::zip_read_ok(archive@, idx as int));
                        }
                    }
                    return Err(e);
                },
            };
            let w_j = match count_words(data.as_slice(), &mut builder) {
                Ok(w) => w,
                Err(e) => {
                    proof {
                        assert(data@ == zip_data_of(archive@, f[j as int].index as int));
                        let scan_j = vrt_entry_scan(archive@, f[j as int]);
                        assert(scan_j is Fail);
                        assert(e matches CorpusError::Format { offset } && offset
                            == scan_j->Fail_at);
                        assert(vrt_fails_at(archive@, f, scan_j->Fail_at)) by {
                            reveal(vrt_fails_at);
                            assert(0 <= j < f.len() && (vrt_entry_scan(archive@, f[j as int])
                                matches VrtScan::Fail { at } && at == scan_j->Fail_at));
                        }
                    }
                    return Err(e);
                },
            };
            warn = crate::vocab::sat_add32(warn, w_j);
            proof {
                let scan_j = vrt_entry_scan(archive@, f[j as int]);
                assert(data@ == zip_data_of(archive@, f[j as int].index as int));
                assert(scan_j is Docs);
                let docs_j = scan_j->Docs_docs;
                lemma_vrt_trunc_nonneg(docs_j);
                let kept_j = vrt_kept_tokens(docs_j);
                let pre = vrt_concat_kept(archive@, f.take(j as int));
                crate::vocab::lemma_counts_concat(pre, kept_j);
                assert(f.take(j + 1).drop_last() =~= f.take(j as int));
                assert(f.take(j + 1).last() == f[j as int]);
                assert(vrt_concat_kept(archive@, f.take(j + 1)) =~= pre + kept_j);
                trunc = trunc + vrt_truncated_count(docs_j);
            }
            j = j + 1;
        }
        proof {
            assert(f.take(f.len() as int) =~= f);
        }
        let n: u32 = if entries.len() >= u32::MAX as usize {
            u32::MAX
        } else {
            entries.len() as u32
        };
        Ok((builder, n, warn))
    }

    /// The second full pass: one bag-of-words per surviving document across
    /// the archive, in directory and document order, and the count of
    /// truncated documents dropped on the way.
    pub fn gen_doc_bows(&self, archive: &[u8], vocab: &crate::vocab::VocabMap) -> (r: Result<
        (Vec<DocBow>, u32),
        CorpusError,
    >)
        requires
            vocab.wf(),
        ensures
            ({
                let f = spec_filtered(zip_entries_of(archive@), EntryFilter::Vrt);
                match r {
                    Ok((bows, w)) => {
                        &&& spec_zip_preflight(archive@)
                        &&& zip_parses(archive@)
                        &&& f.len() > 0
                        &&& bows@.len() == vrt_concat_docs(archive@, f).len()
                        &&& forall|i: int|
                            0 <= i < bows@.len() ==> #[trigger] bow_matches_doc(
                                bows@[i],
                                vrt_concat_docs(archive@, f)[i],
                                vocab@,
                            )
                        &&& w == sat_add_int(0, vrt_concat_trunc(archive@, f))
                    },
                    Err(CorpusError::Format { offset }) => !spec_zip_preflight(archive@)
                        || !zip_parses(archive@)
                        || vrt_fails_at(archive@, f, offset as int),
                    Err(CorpusError::Config { .. }) => spec_zip_preflight(archive@) && zip_parses(
                        archive@,
                    ) && f.len() == 0,
                    Err(CorpusError::Integrity { entry, .. }) => read_fails_at(
                        archive@,
                        f,
                        entry as int,
                    ),
                }
            }),
    {
        let (ar, entries) = match crate::zip::open_piz(archive, &EntryFilter::Vrt) {
            Ok(p) => p,
            Err(e) => {
                return Err(e);
            },
        };
        let ghost f = spec_filtered(zip_entries_of(archive@), EntryFilter::Vrt);
        let mut bows: Vec<DocBow> = Vec::new();
        let mut warn: u32 = 0;
        let ghost mut trunc: int = 0;
        let mut j: usize = 0;
        while j < entries.len()
            invariant
                j <= entries@.len(),
                f == spec_filtered(zip_entries_of(archive@), EntryFilter::Vrt),
                entries@ == f,
                spec_zip_preflight(archive@),
                zip_parses(archive@),
                zip_archive_bytes(ar) == archive@,
                zip_entry_list(ar) == zip_entries_of(archive@),
                forall|i: int| zip_entry_data(ar, i) == #[trigger] zip_data_of(archive@, i),
                forall|w: int|
                    0 <= w < f.len() ==> (#[trigger] f[w].index) < zip_entries_of(
                        archive@,
                    ).len(),
                vocab.wf(),
                bows@.len() == vrt_concat_docs(archive@, f.take(j as int)).len(),
                forall|i: int|
                    0 <= i < bows@.len() ==> #[trigger] bow_matches_doc(
                        bows@[i],
                        vrt_concat_docs(archive@, f.take(j as int))[i],
                        vocab@,
                    ),
                0 <= trunc == vrt_concat_trunc(archive@, f.take(j as int)),
                warn == sat_add_int(0, trunc),
            decreases entries@.len() - j,
        {
            let data = match crate::zip::read_entry(&ar, &entries[j]) {
                Ok(d) => d,
                Err(e) => {
                    proof {
                        let idx = f[j as int].index;
                        assert(e matches CorpusError::Integrity { entry, .. } && entry == idx);
                        assert(!crate::zip::zip_read_ok(archive@, idx as int));
                        assert(read_fails_at(archive@, f, idx as int)) by {
                            reveal(read_fails_at);
                            assert(0 <= j < f.len() && f[j as int].index == idx
                                && !crate::zip::zip_read_ok(archive@, idx as int));
                        }
                    }
                    return Err(e);
                },
            };
            let (mut ebows, w_j) = match make_doc_bows(data.as_slice(), vocab) {
                Ok(p) => p,
                Err(e) => {
                    proof {
                        assert(data@ == zip_data_of(archive@, f[j as int].index as int));
                        let scan_j = vrt_entry_scan(archive@, f[j as int]);
                        assert(scan_j is Fail);
                        assert(e matches CorpusError::Format { offset } && offset
                            == scan_j->Fail_at);
                        assert(vrt_fails_at(archive@, f, scan_j->Fail_at)) by {
                            reveal(vrt_fails_at);
                            assert(0 <= j < f.len() && (vrt_entry_scan(archive@, f[j as int])
                                matches VrtScan::Fail { at } && at == scan_j->Fail_at));
                        }
                    }
                    return Err(e);
                },
            };
            let ghost bows_old = bows@;
            let ghost ebows_snap = ebows@;
            bows.append(&mut ebows);
            warn = crate::vocab::sat_add32(warn, w_j);
            proof {
                let scan_j = vrt_entry_scan(archive@, f[j as int]);
                assert(data@ == zip_data_of(archive@, f[j as int].index as int));
                assert(scan_j is Docs);
                let docs_j = scan_j->Docs_docs;
                lemma_vrt_trunc_nonneg(docs_j);
                let kept_j = vrt_kept_docs(docs_j);
                assert(f.take(j + 1).drop_last() =~= f.take(j as int));
                assert(f.take(j + 1).last() == f[j as int]);
                let all_pre = vrt_concat_docs(archive@, f.take(j as int));
                let all_post = vrt_concat_docs(archive@, f.take(j + 1));
                assert(all_post =~= all_pre + kept_j);
                assert(bows@ =~= bows_old + ebows_snap);
                assert forall|i: int|
                    0 <= i < bows@.len() implies #[trigger] bow_matches_doc(
                    bows@[i],
                    all_post[i],
                    vocab@,
                ) by {
                    if i < bows_old.len() {
                        assert(bows@[i] == bows_old[i]);
                        assert(all_post[i] == all_pre[i]);
                    } else {
                        assert(bows@[i] == ebows_snap[i - bows_old.len()]);
                        assert(all_post[i] == kept_j[i - bows_old.len()]);
                        assert(bow_matches_doc(
                            ebows_snap[i - bows_old.len()],
                            kept_j[i - bows_old.len()],
                            vocab@,
                        )) by {
                            reveal(bow_matches_doc);
                        }
                    }
                }
                trunc = trunc + vrt_truncated_count(docs_j);
            }
            j = j + 1;
        }
        proof {
            assert(f.take(f.len() as int) =~= f);
        }
        Ok((bows, warn))
    }
}

} // verus!
