use best_corpus::alphabet::{extra_chars_from_lines, AlphabetTable};

#[test]
fn first_character_of_each_line() {
    let lines: Vec<String> = vec!["b".to_string(), "a".to_string(), "xyz".to_string()];
    assert_eq!(extra_chars_from_lines(&lines), vec!['a', 'b', 'x']);
}

#[test]
fn empty_line_names_line_break() {
    let lines: Vec<String> = vec!["b".to_string(), "".to_string(), "a".to_string()];
    assert_eq!(extra_chars_from_lines(&lines), vec!['\n', 'a', 'b']);
}

#[test]
fn repeated_characters_kept_once() {
    let lines: Vec<String> = vec!["é".to_string(), "a".to_string(), "éa".to_string(), "a".to_string()];
    assert_eq!(extra_chars_from_lines(&lines), vec!['a', 'é']);
}

#[test]
fn no_lines_no_characters() {
    let lines: Vec<String> = vec![];
    assert_eq!(extra_chars_from_lines(&lines), Vec::<char>::new());
}

#[test]
fn new_table_is_empty() {
    let table = AlphabetTable::new();
    assert_eq!(table.len(), 0);
    assert_eq!(table.code_of('ก'), None);
}
