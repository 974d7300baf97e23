use drf_parser::parser::reader::{tokenize, FileStreamReader};

const HEADER: &str = "\
; display resource file
drDefineDisplay(
;( DisplayName )
 ( display )
)
";

#[test]
fn reader_test01() {
    let mut reader = FileStreamReader::from_string(HEADER, Some(";"));
    let word = reader.next_word().unwrap();
    println!("{:?}", word);
    assert_eq!(word, "drDefineDisplay");
}

#[test]
fn reader_reads_every_word_then_none() {
    let mut reader = FileStreamReader::from_string(HEADER, Some(";"));
    let mut words: Vec<String> = Vec::new();
    while let Some(w) = reader.next_word() {
        words.push(w);
    }
    assert_eq!(words, vec!["drDefineDisplay", "(", "(", "display", ")", ")"]);
    assert_eq!(reader.next_word(), None);
    assert_eq!(reader.peek_word(), None);
    assert!(reader.is_stack_empty());
}

#[test]
fn reader_peek_does_not_consume() {
    let mut reader = FileStreamReader::from_string("alpha beta", None);
    assert_eq!(reader.peek_word().map(|w| w.as_str()), Some("alpha"));
    assert_eq!(reader.peek_word().map(|w| w.as_str()), Some("alpha"));
    assert_eq!(reader.next_word(), Some(String::from("alpha")));
    assert_eq!(reader.peek_word().map(|w| w.as_str()), Some("beta"));
}

#[test]
fn reader_tracks_bracket_depth() {
    let mut reader = FileStreamReader::from_string("( ( a ) b", None);
    assert_eq!(reader.depth(), 0);
    reader.next_word();
    assert_eq!(reader.depth(), 1);
    reader.next_word();
    assert_eq!(reader.depth(), 2);
    reader.next_word();
    assert_eq!(reader.depth(), 2);
    reader.next_word();
    assert_eq!(reader.depth(), 1);
    assert!(!reader.is_stack_empty());
    reader.next_word();
    assert_eq!(reader.stack, vec!['(']);
}

#[test]
fn reader_square_and_curly_brackets() {
    let mut reader = FileStreamReader::from_string("a[b{c} ]x ) }", None);
    assert_eq!(reader.next_word(), Some(String::from("a[b{c}")));
    assert_eq!(reader.stack, vec!['[']);
    assert_eq!(reader.next_word(), Some(String::from("]x")));
    assert!(reader.is_stack_empty());
    reader.next_word();
    reader.next_word();
    assert!(reader.is_stack_empty());
}

#[test]
fn tokenize_splits_round_brackets_and_whitespace() {
    assert_eq!(
        tokenize("drDefineColor(\n ( display\twhite 1 2 3 ))", None),
        vec!["drDefineColor", "(", "(", "display", "white", "1", "2", "3", ")", ")"]
    );
}

#[test]
fn tokenize_cuts_comments_per_line() {
    assert_eq!(
        tokenize("M1 drawing # first\n# all comment\nM2 pin 3 4 #x", Some("#")),
        vec!["M1", "drawing", "M2", "pin", "3", "4"]
    );
    assert_eq!(tokenize("a;b c\nd", Some(";")), vec!["a", "d"]);
    assert_eq!(tokenize("a;b", None), vec!["a;b"]);
}

#[test]
fn tokenize_empty_and_blank_lines() {
    assert_eq!(tokenize("", Some(";")), Vec::<String>::new());
    assert_eq!(tokenize("\n\n  \t\n", Some(";")), Vec::<String>::new());
    assert_eq!(tokenize("x\r\ny", None), vec!["x", "y"]);
}

#[test]
fn reader_bracket_pairs_restore_stack() {
    let mut reader = FileStreamReader::from_string("{ ( ) [ ] }", None);
    reader.next_word();
    let before = reader.stack.clone();
    reader.next_word();
    reader.next_word();
    assert_eq!(reader.stack, before);
    reader.next_word();
    reader.next_word();
    assert_eq!(reader.stack, before);
    reader.next_word();
    assert!(reader.is_stack_empty());
}

#[test]
fn reader_words_rebuild_text_without_comments_and_whitespace() {
    let text = "drDefineColor( ; a comment (\n ( display\twhite 1 2 3 ) )\n";
    let joined: String = tokenize(text, Some(";")).concat();
    assert_eq!(joined, "drDefineColor((displaywhite123))");
}
