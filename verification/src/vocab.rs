use vstd::prelude::*;

use crate::bytes::{lex_lt, lemma_lex_irreflexive, lemma_lex_asymmetric, bytes_cmp, ByteCmp, find_byte};

verus! {

// ----------------------------------------------------------------------------
// Vocabulary accumulation and ranking.
//
// A `VocabBuilder` counts token occurrences; builders can be merged (the merge
// is commutative and associative at the level of the counts they denote), and
// a finished builder is closed into a `VocabMap` that assigns dense integer
// ids ranked by descending frequency, ties broken by ascending
// byte-lexicographic order.
//
// Counts saturate at `u32::MAX` instead of overflowing.
// ----------------------------------------------------------------------------

/// Saturating addition on counters.
pub open spec fn sat_add(a: u32, b: u32) -> u32 {
    if a + b > u32::MAX {
        u32::MAX
    } else {
        (a + b) as u32
    }
}

pub fn sat_add32(a: u32, b: u32) -> (r: u32)
    ensures
        r == sat_add(a, b),
{
    if b > u32::MAX - a {
        u32::MAX
    } else {
        a + b
    }
}

/// The count a map assigns to a word, zero when absent.
pub open spec fn count_of(m: Map<Seq<u8>, u32>, k: Seq<u8>) -> u32 {
    if m.dom().contains(k) {
        m[k]
    } else {
        0
    }
}

/// One word's count raised by `c`.
pub open spec fn spec_inc(m: Map<Seq<u8>, u32>, k: Seq<u8>, c: u32) -> Map<Seq<u8>, u32> {
    m.insert(k, sat_add(count_of(m, k), c))
}

/// The merge of two count maps: the union of their words, counts added.
pub open spec fn spec_merged(a: Map<Seq<u8>, u32>, b: Map<Seq<u8>, u32>) -> Map<
    Seq<u8>,
    u32,
> {
    Map::new(
        |k: Seq<u8>| a.dom().contains(k) || b.dom().contains(k),
        |k: Seq<u8>| sat_add(count_of(a, k), count_of(b, k)),
    )
}

/// Merging count maps is commutative: the merged count of every word is the
/// same whichever side it comes from.
pub proof fn lemma_merge_commutative(a: Map<Seq<u8>, u32>, b: Map<Seq<u8>, u32>)
    ensures
        spec_merged(a, b) == spec_merged(b, a),
{
    assert(spec_merged(a, b) =~= spec_merged(b, a));
}

/// Merging count maps is associative: any reduction tree over the same
/// builders denotes the same counts.
pub proof fn lemma_merge_associative(
    a: Map<Seq<u8>, u32>,
    b: Map<Seq<u8>, u32>,
    c: Map<Seq<u8>, u32>,
)
    ensures
        spec_merged(spec_merged(a, b), c) == spec_merged(a, spec_merged(b, c)),
{
    assert(spec_merged(spec_merged(a, b), c) =~= spec_merged(a, spec_merged(b, c)));
}

/// The counts of a token stream, one `spec_inc` per token.
pub open spec fn token_counts(tokens: Seq<Seq<u8>>) -> Map<Seq<u8>, u32>
    decreases tokens.len(),
{
    if tokens.len() == 0 {
        Map::empty()
    } else {
        spec_inc(token_counts(tokens.drop_last()), tokens.last(), 1)
    }
}

pub proof fn lemma_inc_merged(m1: Map<Seq<u8>, u32>, m2: Map<Seq<u8>, u32>, k: Seq<u8>, c: u32)
    ensures
        spec_merged(m1, spec_inc(m2, k, c)) == spec_inc(spec_merged(m1, m2), k, c),
{
    assert(spec_merged(m1, spec_inc(m2, k, c)) =~= spec_inc(spec_merged(m1, m2), k, c));
}

/// Counting a concatenated token stream merges the counts of its two halves:
/// the heart of partitioning the corpus across workers.
pub proof fn lemma_counts_concat(a: Seq<Seq<u8>>, b: Seq<Seq<u8>>)
    ensures
        token_counts(a + b) == spec_merged(token_counts(a), token_counts(b)),
    decreases b.len(),
{
    if b.len() == 0 {
        assert(a + b =~= a);
        assert(spec_merged(token_counts(a), token_counts(b)) =~= token_counts(a));
    } else {
        lemma_counts_concat(a, b.drop_last());
        assert((a + b).drop_last() =~= a + b.drop_last());
        assert((a + b).len() > 0);
        assert((a + b).last() == b.last());
        lemma_inc_merged(token_counts(a), token_counts(b.drop_last()), b.last(), 1);
    }
}

// ----------------------------------------------------------------------------
// The sorted association list behind builders and vocabulary maps.
// ----------------------------------------------------------------------------

/// No two entries share a key.
pub open spec fn keys_distinct(s: Seq<(Vec<u8>, u32)>) -> bool {
    forall|i: int, j: int| 0 <= i < j < s.len() ==> s[i].0@ != s[j].0@
}

/// Keys strictly ascending in byte-lexicographic order.
pub open spec fn keys_sorted(s: Seq<(Vec<u8>, u32)>) -> bool {
    forall|i: int, j: int| 0 <= i < j < s.len() ==> lex_lt(s[i].0@, s[j].0@)
}

pub proof fn lemma_sorted_distinct(s: Seq<(Vec<u8>, u32)>)
    requires
        keys_sorted(s),
    ensures
        keys_distinct(s),
{
    assert forall|i: int, j: int| 0 <= i < j < s.len() implies s[i].0@ != s[j].0@ by {
        lemma_lex_irreflexive(s[i].0@);
        if s[i].0@ == s[j].0@ {
            assert(lex_lt(s[i].0@, s[j].0@));
        }
    }
}

/// The count map an association list denotes.
pub open spec fn as_map(s: Seq<(Vec<u8>, u32)>) -> Map<Seq<u8>, u32>
    decreases s.len(),
{
    if s.len() == 0 {
        Map::empty()
    } else {
        as_map(s.drop_last()).insert(s.last().0@, s.last().1)
    }
}

/// Some entry carries this key and count.
pub open spec fn seq_has(s: Seq<(Vec<u8>, u32)>, k: Seq<u8>, c: u32) -> bool {
    exists|i: int| 0 <= i < s.len() && s[i].0@ == k && s[i].1 == c
}

pub proof fn lemma_as_map(s: Seq<(Vec<u8>, u32)>)
    requires
        keys_distinct(s),
    ensures
        as_map(s).dom().finite(),
        as_map(s).dom().len() == s.len(),
        forall|i: int|
            0 <= i < s.len() ==> as_map(s).dom().contains(#[trigger] s[i].0@)
                && as_map(s)[s[i].0@] == s[i].1,
        forall|k: Seq<u8>|
            as_map(s).dom().contains(k) ==> exists|i: int|
                0 <= i < s.len() && #[trigger] s[i].0@ == k,
    decreases s.len(),
{
    if s.len() > 0 {
        let d = s.drop_last();
        assert(keys_distinct(d)) by {
            assert(forall|i: int, j: int|
                0 <= i < j < d.len() ==> d[i] == s[i] && d[j] == s[j]);
        }
        lemma_as_map(d);
        assert(!as_map(d).dom().contains(s.last().0@)) by {
            if as_map(d).dom().contains(s.last().0@) {
                let i = choose|i: int| 0 <= i < d.len() && #[trigger] d[i].0@ == s.last().0@;
                assert(s[i].0@ == s[s.len() - 1].0@);
            }
        }
        assert forall|i: int|
            0 <= i < s.len() implies as_map(s).dom().contains(#[trigger] s[i].0@)
                && as_map(s)[s[i].0@] == s[i].1 by {
            if i < s.len() - 1 {
                assert(d[i] == s[i]);
                assert(s[i].0@ != s.last().0@);
            }
        }
        assert forall|k: Seq<u8>|
            as_map(s).dom().contains(k) implies exists|i: int|
                0 <= i < s.len() && #[trigger] s[i].0@ == k by {
            if k == s.last().0@ {
                assert(s[s.len() - 1].0@ == k);
            } else {
                let i = choose|i: int| 0 <= i < d.len() && #[trigger] d[i].0@ == k;
                assert(s[i].0@ == k);
            }
        }
    }
}

/// Inserting an entry with a fresh key inserts its count into the denoted map.
proof fn lemma_as_map_insert(s: Seq<(Vec<u8>, u32)>, p: int, e: (Vec<u8>, u32))
    requires
        0 <= p <= s.len(),
        forall|i: int| 0 <= i < s.len() ==> #[trigger] s[i].0@ != e.0@,
    ensures
        as_map(s.insert(p, e)) == as_map(s).insert(e.0@, e.1),
    decreases s.len(),
{
    let t = s.insert(p, e);
    if p == s.len() {
        assert(t =~= s.push(e));
        assert(t.drop_last() =~= s);
    } else {
        assert(t.len() == s.len() + 1);
        assert(t.last() == s.last());
        assert(t.drop_last() =~= s.drop_last().insert(p, e));
        assert(forall|i: int|
            0 <= i < s.len() - 1 ==> #[trigger] s.drop_last()[i].0@ == s[i].0@);
        lemma_as_map_insert(s.drop_last(), p, e);
        // commute the two inserts: the keys differ
        assert(as_map(s.drop_last()).insert(e.0@, e.1).insert(s.last().0@, s.last().1)
            =~= as_map(s.drop_last()).insert(s.last().0@, s.last().1).insert(e.0@, e.1));
    }
}

/// Replacing the count carried by an existing key updates the denoted map.
proof fn lemma_as_map_update(s: Seq<(Vec<u8>, u32)>, i: int, e: (Vec<u8>, u32))
    requires
        0 <= i < s.len(),
        keys_distinct(s),
        e.0@ == s[i].0@,
    ensures
        as_map(s.update(i, e)) == as_map(s).insert(e.0@, e.1),
    decreases s.len(),
{
    let t = s.update(i, e);
    if i == s.len() - 1 {
        assert(t.drop_last() =~= s.drop_last());
        assert(t.last() == e);
        assert(as_map(s.drop_last()).insert(s.last().0@, s.last().1).insert(e.0@, e.1)
            =~= as_map(s.drop_last()).insert(e.0@, e.1));
    } else {
        assert(t.last() == s.last());
        assert(t.drop_last() =~= s.drop_last().update(i, e));
        assert(keys_distinct(s.drop_last())) by {
            assert(forall|a: int, b: int|
                0 <= a < b < s.len() - 1 ==> s.drop_last()[a] == s[a] && s.drop_last()[b]
                    == s[b]);
        }
        assert(s.drop_last()[i] == s[i]);
        lemma_as_map_update(s.drop_last(), i, e);
        assert(e.0@ != s.last().0@);
        assert(as_map(s.drop_last()).insert(e.0@, e.1).insert(s.last().0@, s.last().1)
            =~= as_map(s.drop_last()).insert(s.last().0@, s.last().1).insert(e.0@, e.1));
    }
}

/// Some entry carries `(k, c)` after an insertion at position `p`, exactly
/// when one did before or the inserted entry carries it.
proof fn lemma_seq_has_insert(
    s: Seq<(Vec<u8>, u32)>,
    p: int,
    e: (Vec<u8>, u32),
    k: Seq<u8>,
    c: u32,
)
    requires
        0 <= p <= s.len(),
    ensures
        seq_has(s.insert(p, e), k, c) <==> (seq_has(s, k, c) || (e.0@ == k && e.1 == c)),
{
    s.insert_ensures(p, e);
    let t = s.insert(p, e);
    if seq_has(t, k, c) {
        let i = choose|i: int| 0 <= i < t.len() && t[i].0@ == k && t[i].1 == c;
        if i < p {
            assert(s[i].0@ == k && s[i].1 == c);
        } else if i == p {
        } else {
            assert(t[(i - 1) + 1] == s[i - 1]);
            assert(s[i - 1].0@ == k && s[i - 1].1 == c);
        }
    }
    if seq_has(s, k, c) {
        let i = choose|i: int| 0 <= i < s.len() && s[i].0@ == k && s[i].1 == c;
        if i < p {
            assert(t[i].0@ == k && t[i].1 == c);
        } else {
            assert(t[i + 1].0@ == k && t[i + 1].1 == c);
        }
    }
    if e.0@ == k && e.1 == c {
        assert(t[p].0@ == k && t[p].1 == c);
    }
}

// ----------------------------------------------------------------------------
// VocabBuilder
// ----------------------------------------------------------------------------

/// Where `key` sits in a key-sorted association list: `(true, i)` when
/// present at `i`, else `(false, p)` with `p` the insertion point that keeps
/// the list sorted.
fn find_slot(acc: &Vec<(Vec<u8>, u32)>, key: &[u8]) -> (r: (bool, usize))
    requires
        keys_sorted(acc@),
    ensures
        r.1 <= acc@.len(),
        r.0 ==> r.1 < acc@.len() && acc@[r.1 as int].0@ == key@,
        !r.0 ==> (forall|j: int| 0 <= j < r.1 ==> lex_lt(acc@[j].0@, key@)) && (forall|j: int|
            r.1 <= j < acc@.len() ==> lex_lt(key@, acc@[j].0@)),
{
    let mut lo: usize = 0;
    let mut hi: usize = acc.len();
    while lo < hi
        invariant
            lo <= hi <= acc@.len(),
            keys_sorted(acc@),
            forall|j: int| 0 <= j < lo ==> lex_lt(acc@[j].0@, key@),
            forall|j: int| hi <= j < acc@.len() ==> lex_lt(key@, acc@[j].0@),
        decreases hi - lo,
    {
        let mid: usize = lo + (hi - lo) / 2;
        match bytes_cmp(acc[mid].0.as_slice(), key) {
            ByteCmp::Less => {
                proof {
                    assert forall|j: int| 0 <= j < mid + 1 implies lex_lt(
                        acc@[j].0@,
                        key@,
                    ) by {
                        if j < mid {
                            crate::bytes::lemma_lex_transitive(
                                acc@[j].0@,
                                acc@[mid as int].0@,
                                key@,
                            );
                        }
                    }
                }
                lo = mid + 1;
            },
            ByteCmp::Greater => {
                proof {
                    assert forall|j: int| mid <= j < acc@.len() implies lex_lt(
                        key@,
                        acc@[j].0@,
                    ) by {
                        if j > mid {
                            crate::bytes::lemma_lex_transitive(
                                key@,
                                acc@[mid as int].0@,
                                acc@[j].0@,
                            );
                        }
                    }
                }
                hi = mid;
            },
            ByteCmp::Equal => {
                return (true, mid);
            },
        }
    }
    (false, lo)
}

/// A mutable frequency accumulator: a byte-string to count mapping, stored as
/// an association list sorted by key.
pub struct VocabBuilder {
    acc: Vec<(Vec<u8>, u32)>,
}

impl View for VocabBuilder {
    type V = Map<Seq<u8>, u32>;

    closed spec fn view(&self) -> Map<Seq<u8>, u32> {
        as_map(self.acc@)
    }
}

impl VocabBuilder {
    /// Entries sorted strictly by key: established by `new`, preserved by
    /// every operation.
    pub closed spec fn wf(self) -> bool {
        keys_sorted(self.acc@)
    }

    pub fn new() -> (r: VocabBuilder)
        ensures
            r.wf(),
            r@ == Map::<Seq<u8>, u32>::empty(),
    {
        VocabBuilder { acc: Vec::new() }
    }

    /// Number of distinct words counted so far.
    pub fn num_words(&self) -> (n: usize)
        requires
            self.wf(),
        ensures
            n == self@.dom().len(),
    {
        proof {
            lemma_sorted_distinct(self.acc@);
            lemma_as_map(self.acc@);
        }
        self.acc.len()
    }

    fn inc_key_owned(&mut self, key: Vec<u8>, inc: u32)
        requires
            old(self).wf(),
        ensures
            final(self).wf(),
            final(self)@ == spec_inc(old(self)@, key@, inc),
    {
        proof {
            lemma_sorted_distinct(self.acc@);
            lemma_as_map(self.acc@);
        }
        let (found, pos) = find_slot(&self.acc, key.as_slice());
        if found {
            let (k, c) = self.acc.remove(pos);
            let ghost removed = self.acc@;
            let newc = sat_add32(c, inc);
            self.acc.insert(pos, (k, newc));
            proof {
                let orig = old(self).acc@;
                assert(self.acc@ =~= orig.update(pos as int, (k, newc)));
                assert(keys_sorted(self.acc@)) by {
                    assert(forall|j: int|
                        0 <= j < orig.len() && j != pos ==> self.acc@[j].0@ == orig[j].0@);
                    assert(self.acc@[pos as int].0@ == orig[pos as int].0@);
                }
                lemma_as_map_update(orig, pos as int, (k, newc));
                assert(count_of(old(self)@, key@) == c);
            }
        } else {
            let inserted = (key, inc);
            self.acc.insert(pos, inserted);
            proof {
                let orig = old(self).acc@;
                let e = (inserted.0, inserted.1);
                assert(forall|i: int| 0 <= i < orig.len() ==> #[trigger] orig[i].0@ != key@)
                    by {
                    assert forall|i: int|
                        0 <= i < orig.len() implies #[trigger] orig[i].0@ != key@ by {
                        lemma_lex_irreflexive(key@);
                        if i < pos {
                            assert(lex_lt(orig[i].0@, key@));
                        } else {
                            assert(lex_lt(key@, orig[i].0@));
                        }
                    }
                }
                lemma_as_map_insert(orig, pos as int, e);
                assert(keys_sorted(self.acc@)) by {
                    orig.insert_ensures(pos as int, e);
                    assert forall|a: int, b: int|
                        0 <= a < b < self.acc@.len() implies lex_lt(
                        self.acc@[a].0@,
                        self.acc@[b].0@,
                    ) by {
                        if a < pos && b < pos {
                        } else if a == pos as int && b > pos {
                            assert(self.acc@[b] == orig[b - 1]);
                        } else if b == pos as int && a < pos {
                        } else if a < pos && b > pos {
                            assert(self.acc@[b] == orig[b - 1]);
                        } else if a > pos && b > pos {
                            assert(self.acc@[a] == orig[a - 1]);
                            assert(self.acc@[b] == orig[b - 1]);
                        }
                    }
                }
                assert(count_of(old(self)@, key@) == 0);
                assert(sat_add(0, inc) == inc);
            }
        }
    }

    fn inc_key_ref(&mut self, key: &[u8], inc: u32)
        requires
            old(self).wf(),
        ensures
            final(self).wf(),
            final(self)@ == spec_inc(old(self)@, key@, inc),
    {
        self.inc_key_owned(vstd::slice::slice_to_vec(key), inc);
    }

    /// Counts one more occurrence of `elem`.
    pub fn add(&mut self, elem: &[u8])
        requires
            old(self).wf(),
        ensures
            final(self).wf(),
            final(self)@ == spec_inc(old(self)@, elem@, 1),
    {
        self.inc_key_ref(elem, 1);
    }

    /// Folds `other` into `self`: counts of shared words are added, other
    /// words carried over.
    pub fn merge(&mut self, other: VocabBuilder)
        requires
            old(self).wf(),
            other.wf(),
        ensures
            final(self).wf(),
            final(self)@ == spec_merged(old(self)@, other@),
    {
        proof {
            lemma_sorted_distinct(other.acc@);
        }
        let n = other.acc.len();
        let mut idx: usize = 0;
        proof {
            assert(other.acc@.take(0) =~= Seq::<(Vec<u8>, u32)>::empty());
            assert(spec_merged(old(self)@, as_map(other.acc@.take(0))) =~= old(self)@);
        }
        while idx < n
            invariant
                idx <= n == other.acc@.len(),
                self.wf(),
                other.wf(),
                self@ == spec_merged(old(self)@, as_map(other.acc@.take(idx as int))),
            decreases n - idx,
        {
            let pair_key = other.acc[idx].0.as_slice();
            let pair_cnt = other.acc[idx].1;
            self.inc_key_ref(pair_key, pair_cnt);
            proof {
                lemma_sorted_distinct(other.acc@);
                let pre = other.acc@.take(idx as int);
                let post = other.acc@.take(idx + 1);
                assert(post.drop_last() =~= pre);
                assert(post.last() == other.acc@[idx as int]);
                assert(as_map(post) == as_map(pre).insert(
                    other.acc@[idx as int].0@,
                    other.acc@[idx as int].1,
                ));
                // the key is fresh in the prefix
                assert(!as_map(pre).dom().contains(other.acc@[idx as int].0@)) by {
                    assert(keys_distinct(pre)) by {
                        assert(forall|a: int, b: int|
                            0 <= a < b < pre.len() ==> pre[a] == other.acc@[a] && pre[b]
                                == other.acc@[b]);
                    }
                    lemma_as_map(pre);
                    if as_map(pre).dom().contains(other.acc@[idx as int].0@) {
                        let i = choose|i: int|
                            0 <= i < pre.len() && #[trigger] pre[i].0@
                                == other.acc@[idx as int].0@;
                        assert(other.acc@[i].0@ == other.acc@[idx as int].0@);
                        assert(keys_distinct(other.acc@));
                    }
                }
                assert(spec_merged(old(self)@, as_map(post)) =~= spec_inc(
                    spec_merged(old(self)@, as_map(pre)),
                    other.acc@[idx as int].0@,
                    other.acc@[idx as int].1,
                ));
            }
            idx = idx + 1;
        }
        proof {
            assert(other.acc@.take(n as int) =~= other.acc@);
        }
    }
}

// ----------------------------------------------------------------------------
// VocabMap and ranking
// ----------------------------------------------------------------------------

/// `a` is ranked strictly before `b`: higher count, or equal count and
/// byte-lexicographically smaller word.
pub open spec fn rank_before(a: (Seq<u8>, u32), b: (Seq<u8>, u32)) -> bool {
    a.1 > b.1 || (a.1 == b.1 && lex_lt(a.0, b.0))
}

/// Saturating sum of a count column.
pub open spec fn sum_sat(s: Seq<u32>) -> u32
    decreases s.len(),
{
    if s.len() == 0 {
        0
    } else {
        sat_add(sum_sat(s.drop_last()), s.last())
    }
}

/// The counts of a token stream split into parts, merged part by part: the
/// shape a reduction over per-worker builders denotes.
pub open spec fn fold_counts(parts: Seq<Seq<Seq<u8>>>) -> Map<Seq<u8>, u32>
    decreases parts.len(),
{
    if parts.len() == 0 {
        Map::empty()
    } else {
        spec_merged(fold_counts(parts.drop_last()), token_counts(parts.last()))
    }
}

/// Counting a token stream part by part and merging gives the counts of the
/// whole stream: partition granularity does not matter.
pub proof fn lemma_counts_flatten(parts: Seq<Seq<Seq<u8>>>)
    ensures
        fold_counts(parts) == token_counts(parts.flatten()),
    decreases parts.len(),
{
    parts.lemma_flatten_and_flatten_alt_are_equivalent();
    if parts.len() == 0 {
        assert(fold_counts(parts) =~= token_counts(parts.flatten()));
    } else {
        lemma_counts_flatten(parts.drop_last());
        parts.drop_last().lemma_flatten_and_flatten_alt_are_equivalent();
        lemma_counts_concat(parts.drop_last().flatten(), parts.last());
        assert(parts.flatten_alt() == parts.drop_last().flatten_alt() + parts.last());
        assert(parts.drop_last().flatten() + parts.last() == parts.flatten());
    }
}

proof fn ids_agree_below(
    counts: Map<Seq<u8>, u32>,
    ids1: Map<Seq<u8>, u32>,
    ids2: Map<Seq<u8>, u32>,
    n: int,
    i: int,
)
    requires
        ranked_assignment(counts, ids1, n),
        ranked_assignment(counts, ids2, n),
        0 <= i <= n,
    ensures
        forall|k: Seq<u8>|
            counts.dom().contains(k) && ((#[trigger] ids1[k]) < i || (#[trigger] ids2[k]) < i)
                ==> ids1[k] == ids2[k],
    decreases i,
{
    if i > 0 {
        ids_agree_below(counts, ids1, ids2, n, i - 1);
        assert forall|k: Seq<u8>|
            counts.dom().contains(k) && ((#[trigger] ids1[k]) < i || (#[trigger] ids2[k]) < i)
                implies ids1[k] == ids2[k] by {
            if ids1[k] < i - 1 || ids2[k] < i - 1 {
                // covered by the step below this one
            } else if ids1[k] == i - 1 {
                // ids2[k] >= i - 1; suppose it were larger
                if ids2[k] != i - 1 {
                    assert(some_word_has_id(ids2, counts.dom(), i - 1));
                    let k2 = choose|k2: Seq<u8>|
                        #[trigger] counts.dom().contains(k2) && ids2[k2] == i - 1;
                    assert(ids2[k2] < ids2[k]);
                    assert(rank_before((k2, counts[k2]), (k, counts[k])));
                    assert(ids1[k2] < ids1[k]);
                    assert(ids1[k2] < i - 1);
                    assert(ids2[k2] == ids1[k2]);
                }
            } else {
                // ids2[k] == i - 1 and ids1[k] >= i - 1
                if ids1[k] != i - 1 {
                    assert(some_word_has_id(ids1, counts.dom(), i - 1));
                    let k1 = choose|k1: Seq<u8>|
                        #[trigger] counts.dom().contains(k1) && ids1[k1] == i - 1;
                    assert(ids1[k1] < ids1[k]);
                    assert(rank_before((k1, counts[k1]), (k, counts[k])));
                    assert(ids2[k1] < ids2[k]);
                    assert(ids2[k1] < i - 1);
                    assert(ids1[k1] == ids2[k1]);
                }
            }
        }
    }
}

/// The ranked id assignment of a given count map is unique: any two maps that
/// both satisfy a builder's closing contract for the same counts agree on
/// every word's id.
pub proof fn lemma_ranking_unique(
    counts: Map<Seq<u8>, u32>,
    ids1: Map<Seq<u8>, u32>,
    ids2: Map<Seq<u8>, u32>,
    n: int,
)
    requires
        ranked_assignment(counts, ids1, n),
        ranked_assignment(counts, ids2, n),
    ensures
        ids1 == ids2,
{
    if n >= 0 {
        ids_agree_below(counts, ids1, ids2, n, n);
    }
    assert forall|k: Seq<u8>| ids1.dom().contains(k) implies ids1[k] == ids2[k] by {
        assert(counts.dom().contains(k));
        assert((ids1[k] as int) < n);
    }
    assert(ids1 =~= ids2);
}

/// Vocabulary build is invariant to worker count and partition granularity:
/// however the token stream is split into parts, counting the parts
/// separately and merging gives the counts of the whole stream, and any
/// vocabulary built from either side assigns every word the same id.
pub proof fn lemma_vocab_build_invariant(
    parts: Seq<Seq<Seq<u8>>>,
    ids_merged: Map<Seq<u8>, u32>,
    ids_single: Map<Seq<u8>, u32>,
    n: int,
)
    requires
        ranked_assignment(fold_counts(parts), ids_merged, n),
        ranked_assignment(token_counts(parts.flatten()), ids_single, n),
    ensures
        ids_merged == ids_single,
{
    lemma_counts_flatten(parts);
    lemma_ranking_unique(token_counts(parts.flatten()), ids_merged, ids_single, n);
}

/// The finished vocabulary: byte-string word to dense integer id, keys
/// unique, stored as an association list sorted by word.
pub struct VocabMap {
    entries: Vec<(Vec<u8>, u32)>,
}

impl View for VocabMap {
    type V = Map<Seq<u8>, u32>;

    closed spec fn view(&self) -> Map<Seq<u8>, u32> {
        as_map(self.entries@)
    }
}

impl VocabMap {
    pub closed spec fn wf(self) -> bool {
        keys_sorted(self.entries@)
    }

    pub fn new() -> (r: VocabMap)
        ensures
            r.wf(),
            r@ == Map::<Seq<u8>, u32>::empty(),
    {
        VocabMap { entries: Vec::new() }
    }

    pub fn len(&self) -> (n: usize)
        requires
            self.wf(),
        ensures
            n == self@.dom().len(),
    {
        proof {
            lemma_sorted_distinct(self.entries@);
            lemma_as_map(self.entries@);
        }
        self.entries.len()
    }

    /// Maps `word` to `id`, replacing any earlier id of that word.
    pub fn insert(&mut self, word: &[u8], id: u32)
        requires
            old(self).wf(),
        ensures
            final(self).wf(),
            final(self)@ == old(self)@.insert(word@, id),
    {
        let (found, pos) = find_slot(&self.entries, word);
        if found {
            let (k, _) = self.entries.remove(pos);
            self.entries.insert(pos, (k, id));
            proof {
                let orig = old(self).entries@;
                assert(self.entries@ =~= orig.update(pos as int, (orig[pos as int].0, id)));
                assert(keys_sorted(self.entries@)) by {
                    assert(forall|j: int|
                        0 <= j < orig.len() ==> self.entries@[j].0@ == orig[j].0@);
                }
                lemma_sorted_distinct(orig);
                lemma_as_map_update(orig, pos as int, (orig[pos as int].0, id));
            }
        } else {
            self.entries.insert(pos, (vstd::slice::slice_to_vec(word), id));
            proof {
                let orig = old(self).entries@;
                let e = self.entries@[pos as int];
                assert(e.0@ == word@ && e.1 == id);
                assert forall|i: int|
                    0 <= i < orig.len() implies #[trigger] orig[i].0@ != word@ by {
                    lemma_lex_irreflexive(word@);
                    if i < pos {
                        assert(lex_lt(orig[i].0@, word@));
                    } else {
                        assert(lex_lt(word@, orig[i].0@));
                    }
                }
                lemma_as_map_insert(orig, pos as int, e);
                assert(keys_sorted(self.entries@)) by {
                    orig.insert_ensures(pos as int, e);
                    assert forall|a: int, b: int|
                        0 <= a < b < self.entries@.len() implies lex_lt(
                        self.entries@[a].0@,
                        self.entries@[b].0@,
                    ) by {
                        if a > pos {
                            assert(self.entries@[a] == orig[a - 1]);
                        }
                        if b > pos {
                            assert(self.entries@[b] == orig[b - 1]);
                        }
                    }
                }
            }
        }
    }

    /// The words in id order: the inverse of the word-to-id assignment,
    /// for handing a ranked word column to a serializer.
    pub fn words_by_id(&self) -> (r: Vec<Vec<u8>>)
        requires
            self.wf(),
            forall|k: Seq<u8>|
                #[trigger] self@.dom().contains(k) ==> (self@[k] as int) < self@.dom().len(),
            forall|k1: Seq<u8>, k2: Seq<u8>|
                #![trigger self@[k1], self@[k2]]
                self@.dom().contains(k1) && self@.dom().contains(k2) && k1 != k2 ==> self@[k1]
                    != self@[k2],
        ensures
            r@.len() == self@.dom().len(),
            forall|k: Seq<u8>|
                #[trigger] self@.dom().contains(k) ==> r@[self@[k] as int]@ == k,
    {
        proof {
            lemma_sorted_distinct(self.entries@);
            lemma_as_map(self.entries@);
        }
        let n = self.entries.len();
        let mut r: Vec<Vec<u8>> = Vec::new();
        let mut i: usize = 0;
        while i < n
            invariant
                i <= n,
                r@.len() == i,
            decreases n - i,
        {
            r.push(Vec::new());
            i = i + 1;
        }
        let mut j: usize = 0;
        while j < n
            invariant
                j <= n == self.entries@.len(),
                self.wf(),
                r@.len() == n,
                self@.dom().len() == n,
                forall|k: Seq<u8>|
                    #[trigger] self@.dom().contains(k) ==> (self@[k] as int) < n,
                forall|k1: Seq<u8>, k2: Seq<u8>|
                    #![trigger self@[k1], self@[k2]]
                    self@.dom().contains(k1) && self@.dom().contains(k2) && k1 != k2
                        ==> self@[k1] != self@[k2],
                forall|w: int|
                    0 <= w < j ==> (self.entries@[w].1 as int) < n && r@[self.entries@[w].1
                        as int]@ == (#[trigger] self.entries@[w]).0@,
                forall|i2: int|
                    0 <= i2 < self.entries@.len() ==> self@.dom().contains(
                        #[trigger] self.entries@[i2].0@,
                    ) && self@[self.entries@[i2].0@] == self.entries@[i2].1,
                keys_distinct(self.entries@),
            decreases n - j,
        {
            let id = self.entries[j].1;
            proof {
                assert(self@.dom().contains(self.entries@[j as int].0@));
            }
            let word = vstd::slice::slice_to_vec(self.entries[j].0.as_slice());
            let ghost r_old = r@;
            r.set(id as usize, word);
            proof {
                assert forall|w: int|
                    0 <= w < j + 1 implies (self.entries@[w].1 as int) < n && r@[self.entries@[w].1
                        as int]@ == (#[trigger] self.entries@[w]).0@ by {
                    if w < j {
                        assert(self.entries@[w].1 != self.entries@[j as int].1);
                        assert(r@[self.entries@[w].1 as int] == r_old[self.entries@[w].1
                            as int]);
                    }
                }
            }
            j = j + 1;
        }
        proof {
            assert forall|k: Seq<u8>|
                #[trigger] self@.dom().contains(k) implies r@[self@[k] as int]@ == k by {
                let i2 = choose|i2: int|
                    0 <= i2 < self.entries@.len() && #[trigger] self.entries@[i2].0@ == k;
                assert(self.entries@[i2].1 == self@[k]);
            }
        }
        r
    }

    /// The id of `word`, when the vocabulary has one.
    pub fn get(&self, word: &[u8]) -> (r: Option<u32>)
        requires
            self.wf(),
        ensures
            r == if self@.dom().contains(word@) {
                Some(self@[word@])
            } else {
                None::<u32>
            },
    {
        proof {
            lemma_sorted_distinct(self.entries@);
            lemma_as_map(self.entries@);
        }
        let (found, pos) = find_slot(&self.entries, word);
        if found {
            Some(self.entries[pos].1)
        } else {
            proof {
                if self@.dom().contains(word@) {
                    let i = choose|i: int|
                        0 <= i < self.entries@.len() && #[trigger] self.entries@[i].0@
                            == word@;
                    lemma_lex_irreflexive(word@);
                    if i < pos {
                        assert(lex_lt(self.entries@[i].0@, word@));
                    } else {
                        assert(lex_lt(word@, self.entries@[i].0@));
                    }
                }
            }
            None
        }
    }
}

/// The vocabulary a pre-built word-list file denotes: each line's word runs
/// up to the first space, its id is the line's rank, and a later duplicate of
/// a word wins.
pub open spec fn nb_map(data: Seq<u8>, pos: int, idx: u32) -> Map<Seq<u8>, u32>
    decreases data.len() - pos,
    when 0 <= pos <= data.len()
    via nb_map_decreases
{
    if pos >= data.len() {
        Map::empty()
    } else {
        match crate::bytes::spec_find(data, pos, 32) {
            Some(sp) => {
                let word = data.subrange(pos, sp);
                match crate::bytes::spec_find(data, sp + 1, 10) {
                    Some(nl) => {
                        let rest = nb_map(data, nl + 1, sat_add(idx, 1));
                        if rest.dom().contains(word) {
                            rest
                        } else {
                            rest.insert(word, idx)
                        }
                    },
                    None => Map::empty().insert(word, idx),
                }
            },
            None => Map::empty().insert(data.subrange(pos, data.len() as int), idx),
        }
    }
}

#[via_fn]
proof fn nb_map_decreases(data: Seq<u8>, pos: int, idx: u32) {
    if pos < data.len() {
        crate::bytes::lemma_spec_find(data, pos, 32);
        match crate::bytes::spec_find(data, pos, 32) {
            Some(sp) => {
                crate::bytes::lemma_spec_find(data, sp + 1, 10);
            },
            None => {},
        }
    }
}

/// `b` laid over `a`: `b`'s entries win.
pub open spec fn override_map(a: Map<Seq<u8>, u32>, b: Map<Seq<u8>, u32>) -> Map<Seq<u8>, u32> {
    Map::new(
        |k: Seq<u8>| a.dom().contains(k) || b.dom().contains(k),
        |k: Seq<u8>|
            if b.dom().contains(k) {
                b[k]
            } else {
                a[k]
            },
    )
}

/// Reads a pre-built vocabulary from word-list bytes: one word per line, id
/// by line order.
pub fn get_numberbatch_vocab(data: &[u8]) -> (r: VocabMap)
    ensures
        r.wf(),
        r@ == nb_map(data@, 0, 0),
{
    let mut vm = VocabMap::new();
    let mut pos: usize = 0;
    let mut idx: u32 = 0;
    proof {
        assert(override_map(vm@, nb_map(data@, 0, 0)) =~= nb_map(data@, 0, 0));
    }
    while pos < data.len()
        invariant
            pos <= data@.len(),
            vm.wf(),
            nb_map(data@, 0, 0) == override_map(vm@, nb_map(data@, pos as int, idx)),
        decreases data@.len() - pos,
    {
        proof {
            crate::bytes::lemma_spec_find(data@, pos as int, 32);
        }
        let ghost vm_old = vm@;
        match find_byte(data, pos, 32) {
            Some(sp) => {
                let word = vstd::slice::slice_subrange(data, pos, sp);
                proof {
                    crate::bytes::lemma_spec_find(data@, sp + 1, 10);
                }
                match find_byte(data, sp + 1, 10) {
                    Some(nl) => {
                        vm.insert(word, idx);
                        proof {
                            let rest = nb_map(data@, nl + 1, sat_add(idx, 1));
                            assert(override_map(vm_old, nb_map(data@, pos as int, idx))
                                =~= override_map(vm@, rest));
                        }
                        pos = nl + 1;
                        idx = sat_add32(idx, 1);
                    },
                    None => {
                        vm.insert(word, idx);
                        proof {
                            assert(override_map(vm_old, nb_map(data@, pos as int, idx))
                                =~= vm@);
                            assert(nb_map(data@, 0, 0) == vm@);
                        }
                        return vm;
                    },
                }
            },
            None => {
                let word = vstd::slice::slice_subrange(data, pos, data.len());
                vm.insert(word, idx);
                proof {
                    assert(override_map(vm_old, nb_map(data@, pos as int, idx)) =~= vm@);
                    assert(nb_map(data@, 0, 0) == vm@);
                }
                return vm;
            },
        }
    }
    proof {
        assert(override_map(vm@, nb_map(data@, pos as int, idx)) =~= vm@);
    }
    vm
}

/// Spec-level pair of an association entry.
pub open spec fn pv(e: (Vec<u8>, u32)) -> (Seq<u8>, u32) {
    (e.0@, e.1)
}

/// Some word of `dom` carries the id `i`: the ids of a built vocabulary leave
/// no gap.
pub open spec fn some_word_has_id(vm: Map<Seq<u8>, u32>, dom: Set<Seq<u8>>, i: int) -> bool {
    exists|k: Seq<u8>| #[trigger] dom.contains(k) && vm[k] == i
}

/// What closing a builder promises of the id assignment `ids` relative to the
/// counts it was built from: one id per counted word, ids `0 .. n` without
/// gap, and the id order is exactly the rank order (descending count, ties by
/// ascending byte order).
pub open spec fn ranked_assignment(
    counts: Map<Seq<u8>, u32>,
    ids: Map<Seq<u8>, u32>,
    n: int,
) -> bool {
    &&& ids.dom() == counts.dom()
    &&& forall|k: Seq<u8>| #[trigger] counts.dom().contains(k) ==> (ids[k] as int) < n
    &&& forall|k1: Seq<u8>, k2: Seq<u8>|
        #![trigger ids[k1], ids[k2]]
        counts.dom().contains(k1) && counts.dom().contains(k2) ==> (ids[k1] < ids[k2]
            <==> rank_before((k1, counts[k1]), (k2, counts[k2])))
    &&& forall|k1: Seq<u8>, k2: Seq<u8>|
        #![trigger ids[k1], ids[k2]]
        counts.dom().contains(k1) && counts.dom().contains(k2) && k1 != k2 ==> ids[k1]
            != ids[k2]
    &&& forall|i: int| 0 <= i < n ==> #[trigger] some_word_has_id(ids, counts.dom(), i)
}

impl VocabBuilder {
    /// Closes the builder: words are ranked by descending count, ties broken
    /// by ascending byte order, and assigned dense ids `0 ..` in that order.
    /// Returns the vocabulary map, the count of each word indexed by its id,
    /// and the saturating total of all counts.
    #[verifier::rlimit(50)]
    pub fn build(self) -> (r: (VocabMap, Vec<u32>, u32))
        requires
            self.wf(),
            self@.dom().len() <= u32::MAX,
        ensures
            ({
                let (vm, counts, total) = r;
                &&& vm.wf()
                &&& counts@.len() == self@.dom().len()
                &&& ranked_assignment(self@, vm@, counts@.len() as int)
                &&& forall|k: Seq<u8>|
                    #[trigger] self@.dom().contains(k) ==> counts@[vm@[k] as int] == self@[k]
                &&& total == sum_sat(counts@)
            }),
    {
        proof {
            lemma_sorted_distinct(self.acc@);
            lemma_as_map(self.acc@);
        }
        let n = self.acc.len();

        // Rank-sort the entries: a stable insertion by descending count over
        // the key-sorted input puts equal counts in ascending key order.
        let mut out: Vec<(Vec<u8>, u32)> = Vec::new();
        let mut idx: usize = 0;
        while idx < n
            invariant
                idx <= n == self.acc@.len(),
                self.wf(),
                out@.len() == idx,
                keys_distinct(out@),
                forall|i: int, j: int|
                    0 <= i < j < out@.len() ==> rank_before(pv(out@[i]), pv(out@[j])),
                forall|k: Seq<u8>, c: u32|
                    #![trigger seq_has(out@, k, c)]
                    seq_has(out@, k, c) <==> seq_has(self.acc@.take(idx as int), k, c),
                forall|i: int, j: int|
                    0 <= i < out@.len() && idx <= j < n ==> lex_lt(
                        out@[i].0@,
                        self.acc@[j].0@,
                    ),
            decreases n - idx,
        {
            let key_copy = vstd::slice::slice_to_vec(self.acc[idx].0.as_slice());
            let cnt = self.acc[idx].1;
            let mut p: usize = 0;
            while p < out.len() && out[p].1 >= cnt
                invariant
                    p <= out@.len(),
                    forall|j: int| 0 <= j < p ==> out@[j].1 >= cnt,
                decreases out@.len() - p,
            {
                p = p + 1;
            }
            let ghost prev = out@;
            let e = (key_copy, cnt);
            proof {
                prev.insert_ensures(p as int, e);
            }
            out.insert(p, e);
            proof {
                let cur = out@;
                let this = self.acc@[idx as int];
                assert(e.0@ == this.0@ && e.1 == this.1);
                // distinct keys: every earlier key is lexicographically
                // smaller than the key just inserted
                assert forall|i: int, j: int|
                    0 <= i < j < cur.len() implies cur[i].0@ != cur[j].0@ by {
                    lemma_lex_irreflexive(this.0@);
                    if i < p && j == p {
                        assert(cur[i] == prev[i]);
                        assert(lex_lt(prev[i].0@, this.0@));
                    } else if i == p && j > p {
                        assert(cur[j] == prev[j - 1]);
                        assert(lex_lt(prev[j - 1].0@, this.0@));
                    } else if i < p && j > p {
                        assert(cur[i] == prev[i] && cur[j] == prev[j - 1]);
                    } else if i > p {
                        assert(cur[i] == prev[i - 1] && cur[j] == prev[j - 1]);
                    } else {
                        assert(cur[i] == prev[i] && cur[j] == prev[j]);
                    }
                }
                // rank order is kept
                assert forall|i: int, j: int|
                    0 <= i < j < cur.len() implies rank_before(pv(cur[i]), pv(cur[j])) by {
                    if i < p && j == p {
                        assert(cur[i] == prev[i]);
                        assert(prev[i].1 >= this.1);
                        if prev[i].1 == this.1 {
                            assert(lex_lt(prev[i].0@, this.0@));
                        }
                    } else if i == p && j > p {
                        assert(cur[j] == prev[j - 1]);
                        assert(p < prev.len() && prev[p as int].1 < cnt);
                        if j - 1 > p {
                            assert(rank_before(pv(prev[p as int]), pv(prev[j - 1])));
                        }
                        assert(prev[j - 1].1 < this.1);
                    } else if i < p && j > p {
                        assert(cur[i] == prev[i] && cur[j] == prev[j - 1]);
                    } else if i > p {
                        assert(cur[i] == prev[i - 1] && cur[j] == prev[j - 1]);
                    } else {
                        assert(cur[i] == prev[i] && cur[j] == prev[j]);
                    }
                }
                // membership
                assert(self.acc@.take(idx + 1).drop_last() =~= self.acc@.take(idx as int));
                assert(self.acc@.take(idx + 1).last() == this);
                assert forall|k: Seq<u8>, c: u32|
                    #![trigger seq_has(cur, k, c)]
                    seq_has(cur, k, c) <==> seq_has(self.acc@.take(idx + 1), k, c) by {
                    lemma_seq_has_insert(prev, p as int, e, k, c);
                    lemma_seq_has_insert(
                        self.acc@.take(idx as int),
                        idx as int,
                        this,
                        k,
                        c,
                    );
                    assert(self.acc@.take(idx + 1) =~= self.acc@.take(idx as int).insert(
                        idx as int,
                        this,
                    ));
                }
                // keys still ahead stay larger
                assert forall|i: int, j: int|
                    0 <= i < cur.len() && idx + 1 <= j < n implies lex_lt(
                    cur[i].0@,
                    self.acc@[j].0@,
                ) by {
                    if i < p {
                        assert(cur[i] == prev[i]);
                    } else if i > p {
                        assert(cur[i] == prev[i - 1]);
                    }
                }
            }
            idx = idx + 1;
        }
        proof {
            assert(self.acc@.take(n as int) =~= self.acc@);
        }

        // Assign ids in rank order and collect the count column.
        let mut vm = VocabMap::new();
        let mut counts: Vec<u32> = Vec::new();
        let mut total: u32 = 0;
        let mut r2: usize = 0;
        while r2 < out.len()
            invariant
                r2 <= out@.len() == n,
                n <= u32::MAX,
                vm.wf(),
                keys_distinct(out@),
                counts@.len() == r2,
                total == sum_sat(counts@),
                forall|j: int|
                    0 <= j < r2 ==> vm@.dom().contains(#[trigger] out@[j].0@)
                        && vm@[out@[j].0@] == j as u32,
                forall|k: Seq<u8>|
                    #[trigger] vm@.dom().contains(k) ==> exists|j: int|
                        0 <= j < r2 && out@[j].0@ == k,
                forall|j: int| 0 <= j < r2 ==> counts@[j] == out@[j].1,
            decreases out@.len() - r2,
        {
            let ghost vm_before = vm@;
            vm.insert(out[r2].0.as_slice(), r2 as u32);
            let c = out[r2].1;
            let ghost counts_before = counts@;
            counts.push(c);
            total = sat_add32(total, c);
            proof {
                assert(counts@.drop_last() =~= counts_before);
                assert forall|k: Seq<u8>|
                    #[trigger] vm@.dom().contains(k) implies exists|j: int|
                        0 <= j < r2 + 1 && out@[j].0@ == k by {
                    if k == out@[r2 as int].0@ {
                        assert(out@[r2 as int].0@ == k);
                    } else {
                        assert(vm_before.dom().contains(k));
                    }
                }
            }
            r2 = r2 + 1;
        }

        // Tie the construction back to the builder's counts.
        proof {
            let orig = self.acc@;
            let dom = self@.dom();
            let outs = out@;
            assert(outs.len() == n);
            // every key of the map is a key of the builder and conversely
            assert forall|k: Seq<u8>| #[trigger] vm@.dom().contains(k) implies
                dom.contains(k) && exists|j: int|
                    0 <= j < n && #[trigger] outs[j].0@ == k by {
                let j = choose|j: int| 0 <= j < n && outs[j].0@ == k;
                assert(seq_has(outs, k, outs[j].1));
                assert(seq_has(orig, k, outs[j].1));
                let i = choose|i: int|
                    0 <= i < orig.len() && orig[i].0@ == k && orig[i].1 == outs[j].1;
                assert(dom.contains(orig[i].0@));
            }
            assert forall|k: Seq<u8>| #[trigger] dom.contains(k) implies
                vm@.dom().contains(k) && vm@[k] < n && counts@[vm@[k] as int] == self@[k] by {
                let i = choose|i: int| 0 <= i < orig.len() && #[trigger] orig[i].0@ == k;
                assert(seq_has(orig, k, orig[i].1));
                assert(seq_has(outs, k, orig[i].1));
                let j = choose|j: int|
                    0 <= j < outs.len() && outs[j].0@ == k && outs[j].1 == orig[i].1;
                assert(vm@.dom().contains(outs[j].0@) && vm@[outs[j].0@] == j as u32);
                assert(counts@[j] == outs[j].1);
                assert(self@[k] == orig[i].1);
            }
            assert(vm@.dom() =~= dom);
            // the id order is the rank order
            assert forall|k1: Seq<u8>, k2: Seq<u8>|
                #![trigger vm@[k1], vm@[k2]]
                dom.contains(k1) && dom.contains(k2) implies (vm@[k1] < vm@[k2]
                    <==> rank_before((k1, self@[k1]), (k2, self@[k2]))) by {
                let j1 = choose|j: int| 0 <= j < n && #[trigger] outs[j].0@ == k1;
                let j2 = choose|j: int| 0 <= j < n && #[trigger] outs[j].0@ == k2;
                assert(vm@[k1] == j1 as u32 && vm@[k2] == j2 as u32);
                // counts carried by the sorted list are the builder's counts
                assert(seq_has(outs, k1, outs[j1].1));
                assert(seq_has(orig, k1, outs[j1].1));
                let i1 = choose|i: int|
                    0 <= i < orig.len() && orig[i].0@ == k1 && orig[i].1 == outs[j1].1;
                assert(self@[k1] == outs[j1].1);
                assert(seq_has(outs, k2, outs[j2].1));
                assert(seq_has(orig, k2, outs[j2].1));
                let i2 = choose|i: int|
                    0 <= i < orig.len() && orig[i].0@ == k2 && orig[i].1 == outs[j2].1;
                assert(self@[k2] == outs[j2].1);
                lemma_lex_irreflexive(k1);
                lemma_lex_asymmetric(k1, k2);
                if j1 < j2 {
                    assert(rank_before(pv(outs[j1]), pv(outs[j2])));
                } else if j2 < j1 {
                    assert(rank_before(pv(outs[j2]), pv(outs[j1])));
                }
            }
            assert forall|k1: Seq<u8>, k2: Seq<u8>|
                #![trigger vm@[k1], vm@[k2]]
                dom.contains(k1) && dom.contains(k2) && k1 != k2 implies vm@[k1] != vm@[k2] by {
                let j1 = choose|j: int| 0 <= j < n && #[trigger] outs[j].0@ == k1;
                let j2 = choose|j: int| 0 <= j < n && #[trigger] outs[j].0@ == k2;
                assert(vm@[k1] == j1 as u32 && vm@[k2] == j2 as u32);
                assert(j1 != j2);
            }
            assert forall|i: int|
                0 <= i < counts@.len() implies #[trigger] some_word_has_id(vm@, dom, i) by {
                let k = outs[i].0@;
                assert(vm@.dom().contains(k) && vm@[k] == i as u32);
                assert(dom.contains(k) && vm@[k] == i);
            }
        }
        (vm, counts, total)
    }
}

} // verus!
