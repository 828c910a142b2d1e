use vstd::prelude::*;

verus! {

// ----------------------------------------------------------------------------
// Byte-slice primitives shared by the tokenizers and the vocabulary: equality,
// byte-lexicographic order, first-occurrence search, ASCII lowercasing.
// ----------------------------------------------------------------------------

/// Byte-lexicographic strict order on byte strings: the order used to break
/// ties between words of equal frequency.
pub open spec fn lex_lt(a: Seq<u8>, b: Seq<u8>) -> bool
    decreases a.len(),
{
    if b.len() == 0 {
        false
    } else if a.len() == 0 {
        true
    } else if a[0] < b[0] {
        true
    } else if a[0] > b[0] {
        false
    } else {
        lex_lt(a.skip(1), b.skip(1))
    }
}

pub proof fn lemma_lex_irreflexive(a: Seq<u8>)
    ensures
        !lex_lt(a, a),
    decreases a.len(),
{
    if a.len() > 0 {
        lemma_lex_irreflexive(a.skip(1));
    }
}

pub proof fn lemma_lex_transitive(a: Seq<u8>, b: Seq<u8>, c: Seq<u8>)
    ensures
        lex_lt(a, b) && lex_lt(b, c) ==> lex_lt(a, c),
    decreases a.len() + b.len() + c.len(),
{
    if a.len() > 0 && b.len() > 0 && c.len() > 0 && a[0] == b[0] && b[0] == c[0] {
        lemma_lex_transitive(a.skip(1), b.skip(1), c.skip(1));
    }
}

/// Strictness: at most one direction of the order holds.
pub proof fn lemma_lex_asymmetric(a: Seq<u8>, b: Seq<u8>)
    ensures
        lex_lt(a, b) ==> !lex_lt(b, a),
    decreases a.len(),
{
    if a.len() > 0 && b.len() > 0 && a[0] == b[0] {
        lemma_lex_asymmetric(a.skip(1), b.skip(1));
    }
}

/// Exact byte-string equality.
pub fn bytes_eq(a: &[u8], b: &[u8]) -> (r: bool)
    ensures
        r <==> a@ == b@,
{
    if a.len() != b.len() {
        return false;
    }
    let mut i: usize = 0;
    while i < a.len()
        invariant
            i <= a.len(),
            a.len() == b.len(),
            forall|j: int| 0 <= j < i ==> a@[j] == b@[j],
        decreases a.len() - i,
    {
        if a[i] != b[i] {
            return false;
        }
        i = i + 1;
    }
    proof {
        assert(a@ =~= b@);
    }
    true
}

pub enum ByteCmp {
    Less,
    Equal,
    Greater,
}

/// Decides the byte-lexicographic order from the first position where the two
/// strings differ.
proof fn lemma_lex_decide(a: Seq<u8>, b: Seq<u8>, i: int)
    requires
        0 <= i <= a.len(),
        i <= b.len(),
        forall|j: int| 0 <= j < i ==> a[j] == b[j],
    ensures
        i < a.len() && i < b.len() && a[i] < b[i] ==> lex_lt(a, b),
        i < a.len() && i < b.len() && a[i] > b[i] ==> lex_lt(b, a),
        i == a.len() && i < b.len() ==> lex_lt(a, b),
        i == b.len() && i < a.len() ==> lex_lt(b, a),
        i == a.len() && i == b.len() ==> a == b,
    decreases i,
{
    if i == 0 {
        if a.len() == 0 && b.len() == 0 {
            assert(a =~= b);
        }
    } else {
        lemma_lex_decide(a.skip(1), b.skip(1), i - 1);
        assert(forall|j: int| 0 <= j < i - 1 ==> a.skip(1)[j] == b.skip(1)[j]);
        if i == a.len() && i == b.len() {
            assert(a.skip(1) =~= b.skip(1));
            assert(a =~= b);
        }
    }
}

/// Three-way byte-string comparison, the byte-lexicographic order.
pub fn bytes_cmp(a: &[u8], b: &[u8]) -> (r: ByteCmp)
    ensures
        r is Less <==> lex_lt(a@, b@),
        r is Equal <==> a@ == b@,
        r is Greater <==> lex_lt(b@, a@),
{
    proof {
        lemma_lex_irreflexive(a@);
        lemma_lex_asymmetric(a@, b@);
        lemma_lex_asymmetric(b@, a@);
    }
    let min: usize = if a.len() < b.len() {
        a.len()
    } else {
        b.len()
    };
    let mut i: usize = 0;
    while i < min
        invariant
            i <= min,
            min <= a.len(),
            min <= b.len(),
            min == a.len() || min == b.len(),
            forall|j: int| 0 <= j < i ==> a@[j] == b@[j],
        decreases min - i,
    {
        if a[i] < b[i] {
            proof {
                lemma_lex_decide(a@, b@, i as int);
                lemma_lex_asymmetric(a@, b@);
                lemma_lex_irreflexive(a@);
            }
            return ByteCmp::Less;
        }
        if a[i] > b[i] {
            proof {
                lemma_lex_decide(a@, b@, i as int);
                lemma_lex_asymmetric(b@, a@);
                lemma_lex_irreflexive(a@);
            }
            return ByteCmp::Greater;
        }
        i = i + 1;
    }
    proof {
        lemma_lex_decide(a@, b@, min as int);
    }
    if a.len() < b.len() {
        ByteCmp::Less
    } else if a.len() > b.len() {
        ByteCmp::Greater
    } else {
        ByteCmp::Equal
    }
}

/// Index of the first occurrence of `b` in `data` at or after `from`.
pub open spec fn spec_find(data: Seq<u8>, from: int, b: u8) -> Option<int>
    decreases data.len() - from,
    when 0 <= from <= data.len()
{
    if from >= data.len() {
        None
    } else if data[from] == b {
        Some(from)
    } else {
        spec_find(data, from + 1, b)
    }
}

pub proof fn lemma_spec_find(data: Seq<u8>, from: int, b: u8)
    requires
        0 <= from <= data.len(),
    ensures
        match spec_find(data, from, b) {
            Some(i) => from <= i < data.len() && data[i] == b
                && forall|j: int| from <= j < i ==> data[j] != b,
            None => forall|j: int| from <= j < data.len() ==> data[j] != b,
        },
    decreases data.len() - from,
{
    if from < data.len() && data[from] != b {
        lemma_spec_find(data, from + 1, b);
    }
}

pub fn find_byte(data: &[u8], from: usize, b: u8) -> (r: Option<usize>)
    requires
        from <= data.len(),
    ensures
        spec_find(data@, from as int, b) == match r {
            Some(i) => Some(i as int),
            None => None::<int>,
        },
{
    let mut i: usize = from;
    while i < data.len()
        invariant
            from <= i <= data.len(),
            spec_find(data@, from as int, b) == spec_find(data@, i as int, b),
        decreases data.len() - i,
    {
        if data[i] == b {
            return Some(i);
        }
        i = i + 1;
    }
    None
}

/// Index of the first occurrence of the pattern `pat` in `data` at or after
/// `from`.
pub open spec fn spec_find_sub(data: Seq<u8>, from: int, pat: Seq<u8>) -> Option<int>
    decreases data.len() - from,
    when 0 <= from && 0 < pat.len()
{
    if from + pat.len() > data.len() {
        None
    } else if data.subrange(from, from + pat.len()) == pat {
        Some(from)
    } else {
        spec_find_sub(data, from + 1, pat)
    }
}

pub proof fn lemma_spec_find_sub(data: Seq<u8>, from: int, pat: Seq<u8>)
    requires
        0 <= from,
        0 < pat.len(),
    ensures
        match spec_find_sub(data, from, pat) {
            Some(i) => from <= i && i + pat.len() <= data.len()
                && data.subrange(i, i + pat.len()) == pat,
            None => true,
        },
    decreases data.len() - from,
{
    if from + pat.len() <= data.len() && data.subrange(from, from + pat.len()) != pat {
        lemma_spec_find_sub(data, from + 1, pat);
    }
}

pub fn find_sub(data: &[u8], from: usize, pat: &[u8]) -> (r: Option<usize>)
    requires
        from <= data.len(),
        0 < pat.len(),
    ensures
        spec_find_sub(data@, from as int, pat@) == match r {
            Some(i) => Some(i as int),
            None => None::<int>,
        },
{
    if pat.len() > data.len() {
        return None;
    }
    let last: usize = data.len() - pat.len();
    if from > last {
        return None;
    }
    let mut i: usize = from;
    while i <= last
        invariant
            from <= i <= last + 1,
            last == data.len() - pat.len(),
            0 < pat.len() <= data.len(),
            spec_find_sub(data@, from as int, pat@) == spec_find_sub(data@, i as int, pat@),
        decreases last + 1 - i,
    {
        let window = vstd::slice::slice_subrange(data, i, i + pat.len());
        if bytes_eq(window, pat) {
            return Some(i);
        }
        i = i + 1;
    }
    None
}

/// ASCII lowercasing of one byte.
pub open spec fn lower_byte(b: u8) -> u8 {
    if 65 <= b <= 90 {
        (b + 32) as u8
    } else {
        b
    }
}

/// ASCII-lowercases a byte string (used for case-insensitive file extensions).
pub fn to_ascii_lower(v: &[u8]) -> (r: Vec<u8>)
    ensures
        r@ == v@.map_values(|b: u8| lower_byte(b)),
{
    let mut r: Vec<u8> = Vec::new();
    let mut i: usize = 0;
    while i < v.len()
        invariant
            i <= v.len(),
            r@ == v@.take(i as int).map_values(|b: u8| lower_byte(b)),
        decreases v.len() - i,
    {
        let b = v[i];
        if 65 <= b && b <= 90 {
            r.push(b + 32);
        } else {
            r.push(b);
        }
        proof {
            assert(r@ =~= v@.take(i + 1).map_values(|b: u8| lower_byte(b)));
        }
        i = i + 1;
    }
    proof {
        assert(v@.take(v@.len() as int) =~= v@);
    }
    r
}

} // verus!
