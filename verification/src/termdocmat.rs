use vstd::prelude::*;

verus! {

// ----------------------------------------------------------------------------
// The accumulation pattern behind the sparse term-document matrix sink: a
// running value count and a running row-offset column.  The byte layout of
// the four output files belongs to the caller; what the pipeline owes the
// sink — the offsets and totals — is pinned down here.
// ----------------------------------------------------------------------------

/// The running state of a term-document matrix being written: how many
/// documents and values went in so far, and the offset at which each
/// document's row started.
pub struct TermDocMatWriter {
    pub vocab_len: u64,
    pub num_docs: u64,
    pub num_values: u64,
    pub indptr: Vec<u64>,
}

impl TermDocMatWriter {
    /// Offsets never decrease and never pass the running value count.
    pub open spec fn wf(self) -> bool {
        &&& self.indptr@.len() == self.num_docs
        &&& forall|i: int, j: int|
            0 <= i < j < self.indptr@.len() ==> self.indptr@[i] <= self.indptr@[j]
        &&& forall|i: int| 0 <= i < self.indptr@.len() ==> self.indptr@[i] <= self.num_values
    }

    pub fn new(vocab_len: u64) -> (r: TermDocMatWriter)
        ensures
            r.wf(),
            r.vocab_len == vocab_len,
            r.num_docs == 0,
            r.num_values == 0,
            r.indptr@ == Seq::<u64>::empty(),
    {
        TermDocMatWriter { vocab_len, num_docs: 0, num_values: 0, indptr: Vec::new() }
    }

    /// Accounts one document's row: its offset is the value count before it.
    pub fn write_indexed_doc(&mut self, doc_words: u64)
        requires
            old(self).wf(),
            old(self).num_docs < u64::MAX,
            old(self).num_values + doc_words <= u64::MAX,
        ensures
            final(self).wf(),
            final(self).vocab_len == old(self).vocab_len,
            final(self).num_docs == old(self).num_docs + 1,
            final(self).num_values == old(self).num_values + doc_words,
            final(self).indptr@ == old(self).indptr@.push(old(self).num_values),
    {
        self.indptr.push(self.num_values);
        self.num_values = self.num_values + doc_words;
        self.num_docs = self.num_docs + 1;
    }

    /// Closes the matrix: the final offset closes the last row, and the
    /// dimensions are handed back for the dimensions record.
    pub fn close(self) -> (r: ((u64, u64, u64), Vec<u64>))
        requires
            self.wf(),
        ensures
            r.0 == (self.num_docs, self.vocab_len, self.num_values),
            r.1@ == self.indptr@.push(self.num_values),
            r.1@.len() == self.num_docs + 1,
            forall|i: int, j: int| 0 <= i < j < r.1@.len() ==> r.1@[i] <= r.1@[j],
    {
        let TermDocMatWriter { vocab_len, num_docs, num_values, mut indptr } = self;
        indptr.push(num_values);
        ((num_docs, vocab_len, num_values), indptr)
    }
}

} // verus!
