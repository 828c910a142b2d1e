use wordfreak::conllu::{ConlluCorpus, FlatTokenIter, grab_lemma};
use wordfreak::opensubs18::OpenSubsDoc;
use wordfreak::types::CorpusError;
use wordfreak::vocab::VocabMap;
use wordfreak::vrt;

#[test]
fn grab_lemma_takes_third_field() {
    assert_eq!(grab_lemma(b"He\tPRON\the\t3\n"), b"he");
    // the lemma runs to the end of the line when no tab follows
    assert_eq!(grab_lemma(b"a\tb\tc\n"), b"c\n");
}

#[test]
fn flat_tokenizer_two_sentinels_two_docs() {
    // two `# newdoc` markers and two lemma-bearing lines each: exactly two
    // documents, comment and blank lines contribute nothing
    let data = b"# newdoc\n\
# speaker = x\n\
He\tPRON\the\t_\n\
sat\tVERB\tsit\t_\n\
\n\
# newdoc\n\
the\tDET\tthe\t_\n\
cat\tNOUN\tcat\t_\n";
    let corpus = ConlluCorpus::new("input.conllu");
    let (builder, docs) = corpus.count_words(data).unwrap();
    assert_eq!(docs, 2);
    let (vocab, counts, total) = builder.build();
    assert_eq!(total, 4);
    assert_eq!(counts.len(), 4);
    for lemma in [b"he" as &[u8], b"sit", b"the", b"cat"] {
        assert!(vocab.get(lemma).is_some());
    }

    let mut vocab2 = VocabMap::new();
    vocab2.insert(b"he", 0);
    vocab2.insert(b"sit", 1);
    vocab2.insert(b"the", 2);
    vocab2.insert(b"cat", 3);
    let bows = corpus.gen_doc_bows(data, &vocab2).unwrap();
    assert_eq!(bows.len(), 2);
    assert_eq!(bows[0].total(), 2);
    assert_eq!(bows[0].entries().as_slice(), &[(0, 1), (1, 1)]);
    assert_eq!(bows[1].total(), 2);
    assert_eq!(bows[1].entries().as_slice(), &[(2, 1), (3, 1)]);
}

#[test]
fn flat_tokenizer_reports_malformed_line_offset() {
    let data = b"# newdoc\nnotabshere\n";
    let mut iter = FlatTokenIter::new();
    match iter.next_token(data) {
        Err(CorpusError::Format { offset }) => assert_eq!(offset, 9),
        other => panic!("expected a format error, got {:?}", other.is_ok()),
    }
}

#[test]
fn flat_tokenizer_counts_sentinels() {
    let data = b"# newdoc\na\tb\tc\tx\n# newdoc\nd\te\tf\ty\n";
    let mut iter = FlatTokenIter::new();
    let mut toks: Vec<Vec<u8>> = Vec::new();
    while let Some(t) = iter.next_token(data).unwrap() {
        toks.push(t);
    }
    assert_eq!(iter.doc_count, 2);
    assert_eq!(toks, vec![b"c".to_vec(), b"f".to_vec()]);
}

#[test]
fn opensubs_token_is_the_configured_attribute() {
    let data = b"<?xml version=\"1.0\"?>\n<document>\n\
<s id=\"1\">\n<w id=\"1.1\" lemma=\"hello\">Hello</w>\n\
<w id=\"1.2\" lemma=\"world\">world</w>\n</s>\n</document>\n";
    let mut doc = OpenSubsDoc::new(b"lemma");
    let a = doc.next_token(data).unwrap().unwrap();
    let b = doc.next_token(data).unwrap().unwrap();
    let c = doc.next_token(data).unwrap();
    assert_eq!(a, b"hello".to_vec());
    assert_eq!(b, b"world".to_vec());
    assert!(c.is_none());
}

#[test]
fn opensubs_unescapes_entities() {
    let data = b"<w lemma=\"a&amp;b\">x</w><w lemma=\"&#65;&#x42;\">y</w>";
    let mut doc = OpenSubsDoc::new(b"lemma");
    assert_eq!(doc.next_token(data).unwrap().unwrap(), b"a&b".to_vec());
    assert_eq!(doc.next_token(data).unwrap().unwrap(), b"AB".to_vec());
}

#[test]
fn opensubs_skips_other_markup() {
    let data = b"<!-- note --><!DOCTYPE d><x lemma=\"no\">t</x><w pos=\"N\">t</w><w lemma=\"yes\">t</w>";
    let mut doc = OpenSubsDoc::new(b"lemma");
    assert_eq!(doc.next_token(data).unwrap().unwrap(), b"yes".to_vec());
    assert!(doc.next_token(data).unwrap().is_none());
}

#[test]
fn opensubs_malformed_attribute_is_fatal() {
    let data = b"<s><w lemma=oops>t</w></s>";
    let mut doc = OpenSubsDoc::new(b"lemma");
    match doc.next_token(data) {
        Err(CorpusError::Format { offset }) => assert_eq!(offset, 3),
        other => panic!("expected a format error, got {:?}", other.is_ok()),
    }
}

#[test]
fn vrt_tokens_come_from_sentences_only() {
    let data = b"<text id=\"1\">\n<sentence>\nHe\tPRON\the\n</sentence>\n\
stray\ttext\tignored\n<sentence>\nruns\tVERB\trun\n</sentence>\n</text>\n";
    let mut builder = wordfreak::vocab::VocabBuilder::new();
    let warnings = vrt::count_words(data, &mut builder).unwrap();
    assert_eq!(warnings, 0);
    let (vocab, counts, total) = builder.build();
    assert_eq!(total, 2);
    assert_eq!(counts, vec![1, 1]);
    assert!(vocab.get(b"he\n").is_some());
    assert!(vocab.get(b"run\n").is_some());
    assert!(vocab.get(b"ignored\n").is_none());
}

#[test]
fn truncated_vrt_document_is_dropped_not_fatal() {
    // the input ends inside an open <text>: the run completes, a warning is
    // counted, and the partial document reaches no total
    let data = b"<text id=\"1\">\n<sentence>\nHe\tPRON\the\n</sentence>\n</text>\n\
<text id=\"2\">\n<sentence>\nlost\tADJ\tlost\n";
    let mut builder = wordfreak::vocab::VocabBuilder::new();
    let warnings = vrt::count_words(data, &mut builder).unwrap();
    assert_eq!(warnings, 1);
    let (vocab, counts, total) = builder.build();
    assert_eq!(total, 1);
    assert_eq!(counts, vec![1]);
    assert!(vocab.get(b"he\n").is_some());
    assert!(vocab.get(b"lost\n").is_none());

    let mut vocab2 = VocabMap::new();
    vocab2.insert(b"he\n", 0);
    vocab2.insert(b"lost\n", 1);
    let (bows, warnings2) = vrt::make_doc_bows(data, &vocab2).unwrap();
    assert_eq!(warnings2, 1);
    assert_eq!(bows.len(), 1);
    assert_eq!(bows[0].total(), 1);
    assert_eq!(bows[0].entries().as_slice(), &[(0, 1)]);
}

#[test]
fn opensubs_decodes_wide_codepoints() {
    // a four-byte UTF-8 scalar through a numeric character reference
    let data = b"<w lemma=\"&#x1F600;\">x</w>";
    let mut doc = OpenSubsDoc::new(b"lemma");
    let tok = doc.next_token(data).unwrap().unwrap();
    assert_eq!(tok, "\u{1F600}".as_bytes().to_vec());
}

#[test]
fn opensubs_rejects_bad_entities() {
    let data = b"<w lemma=\"&bogus;\">x</w>";
    let mut doc = OpenSubsDoc::new(b"lemma");
    assert!(matches!(
        doc.next_token(data),
        Err(CorpusError::Format { .. })
    ));
    let data2 = b"<w lemma=\"&#xD800;\">x</w>";
    let mut doc2 = OpenSubsDoc::new(b"lemma");
    assert!(matches!(
        doc2.next_token(data2),
        Err(CorpusError::Format { .. })
    ));
}

#[test]
fn vrt_skips_comments_and_cdata() {
    let data = b"<!-- head --><text>\n<![CDATA[raw <nonsense>]]>\
<sentence>\nup\tADV\tup\n</sentence>\n</text>";
    let mut builder = wordfreak::vocab::VocabBuilder::new();
    let warnings = vrt::count_words(data, &mut builder).unwrap();
    assert_eq!(warnings, 0);
    let (vocab, _, total) = builder.build();
    assert_eq!(total, 1);
    assert!(vocab.get(b"up\n").is_some());
}
