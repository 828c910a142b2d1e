use wordfreak::vocab::{VocabBuilder, VocabMap, get_numberbatch_vocab};
use wordfreak::types::DocBow;
use wordfreak::parallel::partition;
use wordfreak::termdocmat::TermDocMatWriter;
use wordfreak::corpus::CorpusType;

#[test]
fn build_ranks_by_count_then_byte_order() {
    // two words with equal frequency are ordered by ascending byte value
    let mut b = VocabBuilder::new();
    for _ in 0..5 {
        b.add(b"b");
    }
    for _ in 0..5 {
        b.add(b"a");
    }
    for _ in 0..3 {
        b.add(b"c");
    }
    let (vocab, counts, total) = b.build();
    assert_eq!(vocab.get(b"a"), Some(0));
    assert_eq!(vocab.get(b"b"), Some(1));
    assert_eq!(vocab.get(b"c"), Some(2));
    assert_eq!(vocab.get(b"d"), None);
    assert_eq!(counts, vec![5, 5, 3]);
    assert_eq!(total, 13);
}

#[test]
fn merge_is_commutative_on_counts() {
    let mk = |words: &[&[u8]]| {
        let mut b = VocabBuilder::new();
        for w in words {
            b.add(w);
        }
        b
    };
    let mut left = mk(&[b"x", b"y", b"x"]);
    left.merge(mk(&[b"y", b"z"]));
    let mut right = mk(&[b"y", b"z"]);
    right.merge(mk(&[b"x", b"y", b"x"]));
    let (va, ca, ta) = left.build();
    let (vb, cb, tb) = right.build();
    for w in [b"x" as &[u8], b"y", b"z"] {
        assert_eq!(va.get(w), vb.get(w));
    }
    assert_eq!(ca, cb);
    assert_eq!(ta, tb);
}

#[test]
fn merge_is_associative_on_counts() {
    let mk = |words: &[&[u8]]| {
        let mut b = VocabBuilder::new();
        for w in words {
            b.add(w);
        }
        b
    };
    // ((a . b) . c)
    let mut l = mk(&[b"p", b"q"]);
    l.merge(mk(&[b"q", b"r"]));
    l.merge(mk(&[b"r", b"r"]));
    // (a . (b . c))
    let mut m = mk(&[b"q", b"r"]);
    m.merge(mk(&[b"r", b"r"]));
    let mut r = mk(&[b"p", b"q"]);
    r.merge(m);
    let (vl, cl, tl) = l.build();
    let (vr, cr, tr) = r.build();
    for w in [b"p" as &[u8], b"q", b"r"] {
        assert_eq!(vl.get(w), vr.get(w));
    }
    assert_eq!(cl, cr);
    assert_eq!(tl, tr);
}

#[test]
fn partition_invariance_one_vs_many_workers() {
    // counting in one piece and counting per part then merging build the
    // same vocabulary
    let tokens: Vec<&[u8]> = vec![b"the", b"cat", b"sat", b"the", b"mat", b"cat", b"the"];
    let mut single = VocabBuilder::new();
    for t in &tokens {
        single.add(t);
    }
    let mut part1 = VocabBuilder::new();
    for t in &tokens[..3] {
        part1.add(t);
    }
    let mut part2 = VocabBuilder::new();
    for t in &tokens[3..] {
        part2.add(t);
    }
    part1.merge(part2);
    let (vs, cs, ts) = single.build();
    let (vp, cp, tp) = part1.build();
    for t in &tokens {
        assert_eq!(vs.get(t), vp.get(t));
    }
    assert_eq!(cs, cp);
    assert_eq!(ts, tp);
    assert_eq!(vs.get(b"the"), Some(0));
}

#[test]
fn round_trip_doc_against_fixed_vocab() {
    // tokens ["cat", "dog", "cat"] against {cat: 0, dog: 1}
    let mut vocab = VocabMap::new();
    vocab.insert(b"cat", 0);
    vocab.insert(b"dog", 1);
    let mut bow = DocBow::new();
    for tok in [b"cat" as &[u8], b"dog", b"cat"] {
        if let Some(id) = vocab.get(tok) {
            bow.add(id);
        }
    }
    assert_eq!(bow.total(), 3);
    assert_eq!(bow.entries().as_slice(), &[(0, 2), (1, 1)]);
}

#[test]
fn numberbatch_word_list_ranks_by_line() {
    let data = b"cat 0.1 0.2\ndog 0.3\nfish 1\n";
    let vocab = get_numberbatch_vocab(data);
    assert_eq!(vocab.get(b"cat"), Some(0));
    assert_eq!(vocab.get(b"dog"), Some(1));
    assert_eq!(vocab.get(b"fish"), Some(2));
    assert_eq!(vocab.get(b"bird"), None);
    assert_eq!(vocab.len(), 3);
}

#[test]
fn partition_covers_range_in_ceiling_chunks() {
    let chunks = partition(10, 3);
    assert_eq!(chunks, vec![(0, 4), (4, 8), (8, 10)]);
    let one = partition(5, 8);
    assert_eq!(one, vec![(0, 1), (1, 2), (2, 3), (3, 4), (4, 5)]);
}

#[test]
fn termdocmat_accumulates_offsets() {
    let mut w = TermDocMatWriter::new(5);
    w.write_indexed_doc(3);
    w.write_indexed_doc(2);
    let ((num_docs, vocab_len, num_values), indptr) = w.close();
    assert_eq!(num_docs, 2);
    assert_eq!(vocab_len, 5);
    assert_eq!(num_values, 5);
    assert_eq!(indptr, vec![0, 3, 5]);
}

#[test]
fn corpus_type_flags() {
    assert_eq!(CorpusType::from_flag(b"opensubs18").unwrap(), CorpusType::OpenSubtitles2018);
    assert_eq!(CorpusType::from_flag(b"newscrawl").unwrap(), CorpusType::NewsCrawlWMT18);
    assert_eq!(CorpusType::from_flag(b"conllu").unwrap(), CorpusType::Conllu);
    assert_eq!(CorpusType::from_flag(b"vrt").unwrap(), CorpusType::Vrt);
    assert!(CorpusType::from_flag(b"tabular").is_err());
}

#[test]
fn numberbatch_later_duplicate_wins() {
    let data = b"cat 1\ncat 2\n";
    let vocab = get_numberbatch_vocab(data);
    assert_eq!(vocab.get(b"cat"), Some(1));
    assert_eq!(vocab.len(), 1);
}

#[test]
fn vocab_map_insert_overwrites() {
    let mut vocab = VocabMap::new();
    vocab.insert(b"cat", 7);
    vocab.insert(b"cat", 0);
    assert_eq!(vocab.get(b"cat"), Some(0));
    assert_eq!(vocab.len(), 1);
}

#[test]
fn doc_bow_keeps_ids_ascending() {
    let mut bow = DocBow::new();
    bow.add(5);
    bow.add(2);
    bow.add(5);
    assert_eq!(bow.total(), 3);
    assert_eq!(bow.entries().as_slice(), &[(2, 1), (5, 2)]);
}

#[test]
fn words_by_id_inverts_the_assignment() {
    let mut b = VocabBuilder::new();
    b.add(b"rare");
    for _ in 0..3 {
        b.add(b"common");
    }
    let (vocab, _, _) = b.build();
    let words = vocab.words_by_id();
    assert_eq!(words, vec![b"common".to_vec(), b"rare".to_vec()]);
}

#[test]
fn numberbatch_final_word_without_delimiter() {
    // the input ends right after the last word, with no space or newline
    let data = b"cat 1 2\ndog";
    let vocab = get_numberbatch_vocab(data);
    assert_eq!(vocab.get(b"cat"), Some(0));
    assert_eq!(vocab.get(b"dog"), Some(1));
    assert_eq!(vocab.len(), 2);
}
