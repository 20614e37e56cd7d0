use best_corpus::alphabet::AlphabetTable;
use best_corpus::vectorizer::{
    vectorize, vectorize_corpora, vectorize_word, Corpus, VectorizeError,
};

fn word(s: &str, tag: u8) -> (Vec<char>, u8) {
    (s.chars().collect(), tag)
}

fn one_sentence(words: Vec<(Vec<char>, u8)>) -> Corpus {
    vec![vec![words]]
}

#[test]
fn thai_word_from_json() {
    let files: Vec<Vec<u8>> = vec![r#"[[[[["ก","บ"],5]]]]"#.as_bytes().to_vec()];
    let mut table = AlphabetTable::new();
    let out = vectorize(&[], &files, &mut table).unwrap();
    assert_eq!(out, vec![(1, 0), (2, 5)]);
    assert_eq!(table.len(), 2);
    assert_eq!(table.code_of('ก'), Some(1));
    assert_eq!(table.code_of('บ'), Some(2));
}

#[test]
fn ineligible_characters_get_code_zero() {
    let files: Vec<Vec<u8>> = vec![r#"[[[[["a","ก","b"],3],[["ก","a"],4]]]]"#.as_bytes().to_vec()];
    let mut table = AlphabetTable::new();
    let out = vectorize(&[], &files, &mut table).unwrap();
    assert_eq!(out, vec![(0, 0), (1, 0), (0, 3), (1, 0), (0, 4)]);
    assert_eq!(table.len(), 1);
    assert_eq!(table.code_of('a'), None);
}

#[test]
fn extra_characters_are_encoded() {
    let files: Vec<Vec<u8>> = vec![r#"[[[[["a","ก","b"],3]]]]"#.as_bytes().to_vec()];
    let mut table = AlphabetTable::new();
    let out = vectorize(&['b', 'a'], &files, &mut table).unwrap();
    assert_eq!(out, vec![(1, 0), (2, 0), (3, 3)]);
    assert_eq!(table.code_of('b'), Some(3));
}

#[test]
fn thai_block_edges() {
    let chars: Vec<char> = vec!['\u{0E00}', '\u{0E01}', '\u{0E7F}', '\u{0E80}'];
    let mut table = AlphabetTable::new();
    let mut out: Vec<(u8, u8)> = Vec::new();
    assert!(vectorize_word(&chars, 9, &[], &mut table, &mut out));
    assert_eq!(out, vec![(0, 0), (1, 0), (2, 0), (0, 9)]);
}

#[test]
fn repeated_character_keeps_its_code_across_files() {
    let files: Vec<Vec<u8>> = vec![
        r#"[[[[["ข","ก"],1]]]]"#.as_bytes().to_vec(),
        r#"[[[[["ก"],2],[["ค","ข"],7]]]]"#.as_bytes().to_vec(),
    ];
    let mut table = AlphabetTable::new();
    let out = vectorize(&[], &files, &mut table).unwrap();
    assert_eq!(out, vec![(1, 0), (2, 1), (2, 2), (3, 0), (1, 7)]);
    assert_eq!(table.len(), 3);
}

#[test]
fn tag_goes_on_last_character_only() {
    let c = one_sentence(vec![word("กขคง", 11), word("จ", 12)]);
    let mut table = AlphabetTable::new();
    let out = vectorize_corpora(&vec![c], &[], &mut table).unwrap();
    let tags: Vec<u8> = out.iter().map(|p| p.1).collect();
    assert_eq!(tags, vec![0, 0, 0, 11, 12]);
}

#[test]
fn empty_word_contributes_nothing() {
    let c = one_sentence(vec![word("ก", 1), word("", 6), word("ข", 2)]);
    let mut table = AlphabetTable::new();
    let out = vectorize_corpora(&vec![c], &[], &mut table).unwrap();
    assert_eq!(out, vec![(1, 1), (2, 2)]);
}

#[test]
fn order_follows_documents_and_sentences() {
    let c: Corpus = vec![
        vec![vec![word("ก", 1)], vec![word("ข", 2)]],
        vec![vec![word("ค", 3), word("ก", 4)]],
    ];
    let mut table = AlphabetTable::new();
    let out = vectorize_corpora(&vec![c], &[], &mut table).unwrap();
    assert_eq!(out, vec![(1, 1), (2, 2), (3, 3), (1, 4)]);
}

#[test]
fn grouped_runs_match_one_run() {
    let a = one_sentence(vec![word("กข", 1)]);
    let b = one_sentence(vec![word("คก", 2)]);
    let c = one_sentence(vec![word("งข", 3)]);
    let mut whole = AlphabetTable::new();
    let all = vectorize_corpora(&vec![a.clone(), b.clone(), c.clone()], &[], &mut whole).unwrap();
    let mut split = AlphabetTable::new();
    let mut parts = vectorize_corpora(&vec![a], &[], &mut split).unwrap();
    parts.extend(vectorize_corpora(&vec![b, c], &[], &mut split).unwrap());
    assert_eq!(all, parts);
    assert_eq!(whole.len(), split.len());
    for ch in "กขคง".chars() {
        assert_eq!(whole.code_of(ch), split.code_of(ch));
    }
}

#[test]
fn codes_are_distinct_and_positive() {
    let c = one_sentence(vec![word("กขคงกขจ", 1), word("ฉ", 0)]);
    let mut table = AlphabetTable::new();
    vectorize_corpora(&vec![c], &[], &mut table).unwrap();
    let mut codes: Vec<u8> = "กขคงจฉ".chars().map(|ch| table.code_of(ch).unwrap()).collect();
    assert!(codes.iter().all(|&v| v >= 1));
    codes.sort();
    codes.dedup();
    assert_eq!(codes.len(), 6);
    assert_eq!(table.len(), 6);
}

#[test]
fn malformed_file_is_reported() {
    let files: Vec<Vec<u8>> = vec![
        r#"[[[[["ก"],1]]]]"#.as_bytes().to_vec(),
        b"[[[ not json".to_vec(),
        b"{}".to_vec(),
    ];
    let mut table = AlphabetTable::new();
    assert_eq!(vectorize(&[], &files, &mut table), Err(VectorizeError::Malformed { file: 1 }));
    assert_eq!(table.len(), 0);
}

#[test]
fn wrong_shape_is_malformed() {
    let files: Vec<Vec<u8>> = vec![r#"[[[["ก",1]]]]"#.as_bytes().to_vec()];
    let mut table = AlphabetTable::new();
    assert_eq!(vectorize(&[], &files, &mut table), Err(VectorizeError::Malformed { file: 0 }));
}

#[test]
fn no_files_give_no_pairs() {
    let files: Vec<Vec<u8>> = vec![];
    let mut table = AlphabetTable::new();
    assert_eq!(vectorize(&[], &files, &mut table), Ok(vec![]));
}

fn many_chars(n: usize) -> (Vec<char>, Vec<char>) {
    let thai: Vec<char> = (0x0E01u32..=0x0E7F).map(|u| char::from_u32(u).unwrap()).collect();
    let extra: Vec<char> = (0x0100u32..0x0200).map(|u| char::from_u32(u).unwrap()).collect();
    let mut all: Vec<char> = thai;
    all.extend(extra.iter().cloned());
    all.truncate(n);
    (all, extra)
}

#[test]
fn full_alphabet_is_accepted() {
    let (chars, extra) = many_chars(255);
    let c = one_sentence(vec![(chars.clone(), 1)]);
    let mut table = AlphabetTable::new();
    let out = vectorize_corpora(&vec![c], &extra, &mut table).unwrap();
    assert_eq!(out.len(), 255);
    assert_eq!(out[254], (255, 1));
    assert_eq!(table.len(), 255);
}

#[test]
fn alphabet_overflow_is_reported() {
    let (chars, extra) = many_chars(256);
    let c = one_sentence(vec![(chars, 1)]);
    let mut table = AlphabetTable::new();
    assert_eq!(vectorize_corpora(&vec![c], &extra, &mut table), Err(VectorizeError::AlphabetFull));
}

#[test]
fn assign_gives_next_code_once() {
    let mut table = AlphabetTable::new();
    assert_eq!(table.assign('ก', &[]), Some(1));
    assert_eq!(table.assign('x', &[]), Some(0));
    assert_eq!(table.assign('ข', &[]), Some(2));
    assert_eq!(table.assign('ก', &[]), Some(1));
    assert_eq!(table.len(), 2);
}
