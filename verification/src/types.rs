use vstd::prelude::*;

use crate::vocab::{sat_add, sat_add32};

verus! {

// ----------------------------------------------------------------------------
// Per-document bag-of-words vectors.
//
// A `DocBow` maps vocabulary ids to in-document occurrence counts, stored as
// a sparse vector sorted by ascending id — the order the term-document matrix
// writer relies on — together with the total of all matched tokens.
// ----------------------------------------------------------------------------

/// How a pass over corpus bytes fails.  Path and mapping failures live with
/// the caller that owns the file handling; truncated documents are not an
/// error at all — they are dropped at document granularity and reported
/// through warning counters.
#[derive(Debug)]
pub enum CorpusError {
    /// Malformed archive directory or malformed markup, with the byte offset.
    Format { offset: usize },
    /// A decompressed entry did not match its stored checksum.
    Integrity { entry: usize, detail: String },
    /// An invalid corpus configuration, such as no matching archive entries.
    Config { detail: String },
}

/// Entry ids strictly ascending.
pub open spec fn ids_sorted(s: Seq<(u32, u32)>) -> bool {
    forall|i: int, j: int| 0 <= i < j < s.len() ==> s[i].0 < s[j].0
}

/// The count map a sorted sparse vector denotes.
pub open spec fn ids_as_map(s: Seq<(u32, u32)>) -> Map<u32, u32>
    decreases s.len(),
{
    if s.len() == 0 {
        Map::empty()
    } else {
        ids_as_map(s.drop_last()).insert(s.last().0, s.last().1)
    }
}

pub open spec fn ids_distinct(s: Seq<(u32, u32)>) -> bool {
    forall|i: int, j: int| 0 <= i < j < s.len() ==> s[i].0 != s[j].0
}

pub proof fn lemma_ids_sorted_distinct(s: Seq<(u32, u32)>)
    requires
        ids_sorted(s),
    ensures
        ids_distinct(s),
{
}

pub proof fn lemma_ids_as_map(s: Seq<(u32, u32)>)
    requires
        ids_distinct(s),
    ensures
        ids_as_map(s).dom().finite(),
        ids_as_map(s).dom().len() == s.len(),
        forall|i: int|
            0 <= i < s.len() ==> ids_as_map(s).dom().contains(#[trigger] s[i].0)
                && ids_as_map(s)[s[i].0] == s[i].1,
        forall|k: u32|
            ids_as_map(s).dom().contains(k) ==> exists|i: int|
                0 <= i < s.len() && #[trigger] s[i].0 == k,
    decreases s.len(),
{
    if s.len() > 0 {
        let d = s.drop_last();
        assert(ids_distinct(d)) by {
            assert(forall|i: int, j: int|
                0 <= i < j < d.len() ==> d[i] == s[i] && d[j] == s[j]);
        }
        lemma_ids_as_map(d);
        assert(!ids_as_map(d).dom().contains(s.last().0)) by {
            if ids_as_map(d).dom().contains(s.last().0) {
                let i = choose|i: int| 0 <= i < d.len() && #[trigger] d[i].0 == s.last().0;
                assert(s[i].0 == s[s.len() - 1].0);
            }
        }
        assert forall|i: int|
            0 <= i < s.len() implies ids_as_map(s).dom().contains(#[trigger] s[i].0)
                && ids_as_map(s)[s[i].0] == s[i].1 by {
            if i < s.len() - 1 {
                assert(d[i] == s[i]);
                assert(s[i].0 != s.last().0);
            }
        }
        assert forall|k: u32|
            ids_as_map(s).dom().contains(k) implies exists|i: int|
                0 <= i < s.len() && #[trigger] s[i].0 == k by {
            if k == s.last().0 {
                assert(s[s.len() - 1].0 == k);
            } else {
                let i = choose|i: int| 0 <= i < d.len() && #[trigger] d[i].0 == k;
                assert(s[i].0 == k);
            }
        }
    }
}

proof fn lemma_ids_as_map_insert(s: Seq<(u32, u32)>, p: int, e: (u32, u32))
    requires
        0 <= p <= s.len(),
        forall|i: int| 0 <= i < s.len() ==> #[trigger] s[i].0 != e.0,
    ensures
        ids_as_map(s.insert(p, e)) == ids_as_map(s).insert(e.0, e.1),
    decreases s.len(),
{
    let t = s.insert(p, e);
    if p == s.len() {
        assert(t =~= s.push(e));
        assert(t.drop_last() =~= s);
    } else {
        assert(t.len() == s.len() + 1);
        assert(t.last() == s.last());
        assert(t.drop_last() =~= s.drop_last().insert(p, e));
        assert(forall|i: int| 0 <= i < s.len() - 1 ==> #[trigger] s.drop_last()[i].0 == s[i].0);
        lemma_ids_as_map_insert(s.drop_last(), p, e);
        assert(ids_as_map(s.drop_last()).insert(e.0, e.1).insert(s.last().0, s.last().1)
            =~= ids_as_map(s.drop_last()).insert(s.last().0, s.last().1).insert(e.0, e.1));
    }
}

proof fn lemma_ids_as_map_update(s: Seq<(u32, u32)>, i: int, e: (u32, u32))
    requires
        0 <= i < s.len(),
        ids_distinct(s),
        e.0 == s[i].0,
    ensures
        ids_as_map(s.update(i, e)) == ids_as_map(s).insert(e.0, e.1),
    decreases s.len(),
{
    let t = s.update(i, e);
    if i == s.len() - 1 {
        assert(t.drop_last() =~= s.drop_last());
        assert(t.last() == e);
        assert(ids_as_map(s.drop_last()).insert(s.last().0, s.last().1).insert(e.0, e.1)
            =~= ids_as_map(s.drop_last()).insert(e.0, e.1));
    } else {
        assert(t.last() == s.last());
        assert(t.drop_last() =~= s.drop_last().update(i, e));
        assert(ids_distinct(s.drop_last())) by {
            assert(forall|a: int, b: int|
                0 <= a < b < s.len() - 1 ==> s.drop_last()[a] == s[a] && s.drop_last()[b]
                    == s[b]);
        }
        assert(s.drop_last()[i] == s[i]);
        lemma_ids_as_map_update(s.drop_last(), i, e);
        assert(e.0 != s.last().0);
        assert(ids_as_map(s.drop_last()).insert(e.0, e.1).insert(s.last().0, s.last().1)
            =~= ids_as_map(s.drop_last()).insert(s.last().0, s.last().1).insert(e.0, e.1));
    }
}

/// One per-document sparse bag-of-words row.
pub struct DocBow {
    total: u32,
    counts: Vec<(u32, u32)>,
}

impl View for DocBow {
    type V = Map<u32, u32>;

    closed spec fn view(&self) -> Map<u32, u32> {
        ids_as_map(self.counts@)
    }
}

impl DocBow {
    pub closed spec fn wf(self) -> bool {
        ids_sorted(self.counts@)
    }

    /// The total of matched tokens in the document.
    pub closed spec fn spec_total(self) -> u32 {
        self.total
    }

    pub fn new() -> (r: DocBow)
        ensures
            r.wf(),
            r@ == Map::<u32, u32>::empty(),
            r.spec_total() == 0,
    {
        DocBow { total: 0, counts: Vec::new() }
    }

    pub fn total(&self) -> (t: u32)
        ensures
            t == self.spec_total(),
    {
        self.total
    }

    /// The sparse row, ids strictly ascending.
    pub fn entries(&self) -> (r: &Vec<(u32, u32)>)
        requires
            self.wf(),
        ensures
            r@ == self.entry_seq(),
            ids_sorted(r@),
            ids_as_map(r@) == self@,
    {
        &self.counts
    }

    pub closed spec fn entry_seq(self) -> Seq<(u32, u32)> {
        self.counts@
    }

    /// Counts one more occurrence of the word with vocabulary id `id`.
    #[verifier::rlimit(50)]
    pub fn add(&mut self, id: u32)
        requires
            old(self).wf(),
        ensures
            final(self).wf(),
            final(self)@ == old(self)@.insert(
                id,
                sat_add(
                    if old(self)@.dom().contains(id) {
                        old(self)@[id]
                    } else {
                        0
                    },
                    1,
                ),
            ),
            final(self).spec_total() == sat_add(old(self).spec_total(), 1),
    {
        proof {
            lemma_ids_sorted_distinct(self.counts@);
            lemma_ids_as_map(self.counts@);
        }
        self.total = sat_add32(self.total, 1);
        // binary search for the id
        let mut lo: usize = 0;
        let mut hi: usize = self.counts.len();
        while lo < hi
            invariant
                lo <= hi <= self.counts@.len(),
                self.counts@ == old(self).counts@,
                self.total == sat_add(old(self).spec_total(), 1),
                ids_sorted(self.counts@),
                forall|j: int| 0 <= j < lo ==> self.counts@[j].0 < id,
                forall|j: int| hi <= j < self.counts@.len() ==> id < self.counts@[j].0,
            decreases hi - lo,
        {
            let mid: usize = lo + (hi - lo) / 2;
            let entry_id = self.counts[mid].0;
            if entry_id < id {
                lo = mid + 1;
            } else if entry_id > id {
                hi = mid;
            } else {
                // found: bump the count in place
                let (k, c) = self.counts.remove(mid);
                let newc = sat_add32(c, 1);
                self.counts.insert(mid, (k, newc));
                proof {
                    let orig = old(self).counts@;
                    lemma_ids_sorted_distinct(orig);
                    lemma_ids_as_map(orig);
                    assert(self.counts@ =~= orig.update(mid as int, (k, newc)));
                    assert(ids_sorted(self.counts@)) by {
                        assert(forall|j: int|
                            0 <= j < orig.len() ==> self.counts@[j].0 == orig[j].0);
                    }
                    lemma_ids_as_map_update(orig, mid as int, (k, newc));
                }
                return ;
            }
        }
        let e = (id, 1u32);
        proof {
            old(self).counts@.insert_ensures(lo as int, e);
        }
        self.counts.insert(lo, e);
        proof {
            let orig = old(self).counts@;
            assert(forall|i: int| 0 <= i < orig.len() ==> #[trigger] orig[i].0 != id);
            lemma_ids_as_map_insert(orig, lo as int, e);
            assert(ids_sorted(self.counts@)) by {
                assert forall|a: int, b: int|
                    0 <= a < b < self.counts@.len() implies self.counts@[a].0
                    < self.counts@[b].0 by {
                    if a > lo {
                        assert(self.counts@[a] == orig[a - 1]);
                    }
                    if b > lo {
                        assert(self.counts@[b] == orig[b - 1]);
                    }
                }
            }
            assert(!old(self)@.dom().contains(id));
            assert(sat_add(0, 1) == 1);
        }
    }
}

/// The bag-of-words counts a token stream denotes against a vocabulary:
/// tokens absent from the vocabulary are dropped.
pub open spec fn bow_counts(lemmas: Seq<Seq<u8>>, vocab: Map<Seq<u8>, u32>) -> Map<u32, u32>
    decreases lemmas.len(),
{
    if lemmas.len() == 0 {
        Map::empty()
    } else {
        let m = bow_counts(lemmas.drop_last(), vocab);
        if vocab.dom().contains(lemmas.last()) {
            let id = vocab[lemmas.last()];
            m.insert(
                id,
                sat_add(
                    if m.dom().contains(id) {
                        m[id]
                    } else {
                        0
                    },
                    1,
                ),
            )
        } else {
            m
        }
    }
}

/// The total of tokens matched by the vocabulary.
pub open spec fn bow_total(lemmas: Seq<Seq<u8>>, vocab: Map<Seq<u8>, u32>) -> u32
    decreases lemmas.len(),
{
    if lemmas.len() == 0 {
        0
    } else if vocab.dom().contains(lemmas.last()) {
        sat_add(bow_total(lemmas.drop_last(), vocab), 1)
    } else {
        bow_total(lemmas.drop_last(), vocab)
    }
}

} // verus!
