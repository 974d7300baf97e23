use drf_parser::parser::Parser;

const SAMPLE: &str = "\
drDefineDisplay(
 ( display )
)
drDefineColor(
 ( display white 255 255 255 )
)
";

#[test]
fn mod_test01() {
    let mut parser = Parser::new(SAMPLE);
    let res = parser.parse();
    assert!(res.is_ok());
}

#[test]
fn legacy_parser_stops_at_first_word() {
    let mut parser = Parser::new(SAMPLE);
    assert_eq!(parser.parse(), Ok(()));
    assert_eq!(parser.drf.len(), 0);
    assert_eq!(parser.reader.peek_word().map(|w| w.as_str()), Some("drDefineDisplay"));
    assert!(parser.reader.is_stack_empty());
}
