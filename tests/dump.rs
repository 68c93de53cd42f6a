use bf_core::dump::dump_text;
use bf_core::instruction::LexResult;
use bf_core::lexer::BFLexer;

#[test]
fn lists_one_line_per_instruction() {
    let program = match BFLexer::parse("+[-]") {
        LexResult::Success(v) => v,
        other => panic!("unexpected {:?}", other),
    };
    let text = String::from_utf8(dump_text(&program)).unwrap();
    assert_eq!(text, "0: +\n1: [ -> 4\n2: -\n3: ] -> 2\n");
}

#[test]
fn lists_multi_digit_indices() {
    let src = "+".repeat(11) + "[]";
    let program = match BFLexer::parse(&src) {
        LexResult::Success(v) => v,
        other => panic!("unexpected {:?}", other),
    };
    let text = String::from_utf8(dump_text(&program)).unwrap();
    assert!(text.ends_with("10: +\n11: [ -> 13\n12: ] -> 12\n"));
    assert_eq!(dump_text(&Vec::new()), Vec::<u8>::new());
}
