use rorth::lexer::{parse_word_as_op, ParseError};
use rorth::ops::{Op, OpKind, OpValue};

fn lines(src: &[&str]) -> Vec<String> {
    src.iter().map(|s| s.to_string()).collect()
}

fn parse(src: &str) -> Vec<Op> {
    parse_word_as_op(&lines(&[src])).unwrap()
}

fn int_val(op: &Op) -> u64 {
    match &op.value {
        Some(OpValue::IntVal(n)) => *n,
        other => panic!("expected an integer payload, got {:?}", other),
    }
}

fn str_val(op: &Op) -> String {
    match &op.value {
        Some(OpValue::StringVal(s)) => s.clone(),
        other => panic!("expected a string payload, got {:?}", other),
    }
}

#[test]
fn every_keyword_maps_to_its_kind() {
    let ops = parse("+ - * / = > < dup swap rot drop over print write if while do end");
    let expected = [
        OpKind::Plus,
        OpKind::Minus,
        OpKind::Mult,
        OpKind::Div,
        OpKind::Equals,
        OpKind::GT,
        OpKind::LT,
        OpKind::Dup,
        OpKind::Swap,
        OpKind::Rot,
        OpKind::Drop,
        OpKind::Over,
        OpKind::Print,
        OpKind::Write,
        OpKind::If,
        OpKind::While,
        OpKind::Do,
        OpKind::End,
    ];
    assert_eq!(ops.len(), expected.len());
    for (op, kind) in ops.iter().zip(expected.iter()) {
        assert_eq!(op.kind, *kind);
        assert!(op.value.is_none());
    }
}

#[test]
fn integer_literals_become_pushes() {
    let ops = parse("0 7 42 18446744073709551615");
    assert_eq!(ops.len(), 4);
    for op in &ops {
        assert_eq!(op.kind, OpKind::Push);
    }
    assert_eq!(int_val(&ops[0]), 0);
    assert_eq!(int_val(&ops[1]), 7);
    assert_eq!(int_val(&ops[2]), 42);
    assert_eq!(int_val(&ops[3]), u64::MAX);
}

#[test]
fn oversized_integer_is_an_unknown_word() {
    let r = parse_word_as_op(&lines(&["18446744073709551616"]));
    match r {
        Err(ParseError::UnknownWord(w)) => assert_eq!(w, "18446744073709551616"),
        other => panic!("expected an unknown-word error, got {:?}", other),
    }
}

#[test]
fn string_literal_with_spaces_is_one_push() {
    let ops = parse("\"hello there world\" print");
    assert_eq!(ops.len(), 2);
    assert_eq!(ops[0].kind, OpKind::Push);
    assert_eq!(str_val(&ops[0]), "hello there world");
    assert_eq!(ops[1].kind, OpKind::Print);
}

#[test]
fn empty_string_literal_is_kept() {
    let ops = parse("\"\"");
    assert_eq!(ops.len(), 1);
    assert_eq!(str_val(&ops[0]), "");
}

#[test]
fn comment_hides_rest_of_line() {
    let ops = parse_word_as_op(&lines(&["1 2 // 3 4", "5 // six"])).unwrap();
    assert_eq!(ops.len(), 3);
    assert_eq!(int_val(&ops[0]), 1);
    assert_eq!(int_val(&ops[1]), 2);
    assert_eq!(int_val(&ops[2]), 5);
}

#[test]
fn comment_only_line_is_empty() {
    let ops = parse_word_as_op(&lines(&["// nothing here", "", "   "])).unwrap();
    assert!(ops.is_empty());
}

#[test]
fn unknown_word_is_reported_with_its_text() {
    let r = parse_word_as_op(&lines(&["1 2 bogus 3"]));
    match r {
        Err(ParseError::UnknownWord(w)) => assert_eq!(w, "bogus"),
        other => panic!("expected an unknown-word error, got {:?}", other),
    }
}

#[test]
fn unclosed_string_is_an_error() {
    let r = parse_word_as_op(&lines(&["\"never closed"]));
    assert!(matches!(r, Err(ParseError::UnclosedString)));
}

#[test]
fn first_faulty_line_wins() {
    let r = parse_word_as_op(&lines(&["1 2", "oops", "\"open"]));
    match r {
        Err(ParseError::UnknownWord(w)) => assert_eq!(w, "oops"),
        other => panic!("expected the unknown word of the second line, got {:?}", other),
    }
}

#[test]
fn words_flow_across_lines_in_order() {
    let ops = parse_word_as_op(&lines(&["1 2", "+", "print"])).unwrap();
    assert_eq!(ops.len(), 4);
    assert_eq!(ops[0].kind, OpKind::Push);
    assert_eq!(ops[1].kind, OpKind::Push);
    assert_eq!(ops[2].kind, OpKind::Plus);
    assert_eq!(ops[3].kind, OpKind::Print);
}

#[test]
fn tabs_and_extra_spaces_separate_words() {
    let ops = parse("\t 1 \t\t 2   +  ");
    assert_eq!(ops.len(), 3);
    assert_eq!(ops[2].kind, OpKind::Plus);
}

#[test]
fn quote_ends_a_word() {
    let ops = parse("1\"a\"2");
    assert_eq!(ops.len(), 3);
    assert_eq!(int_val(&ops[0]), 1);
    assert_eq!(str_val(&ops[1]), "a");
    assert_eq!(int_val(&ops[2]), 2);
}

#[test]
fn leading_zero_digits_parse_by_value() {
    let ops = parse("007");
    assert_eq!(ops.len(), 1);
    assert_eq!(int_val(&ops[0]), 7);
}

#[test]
fn plus_prefixed_number_parses_by_value() {
    let ops = parse("+5 +0 +18446744073709551615");
    assert_eq!(ops.len(), 3);
    for op in &ops {
        assert_eq!(op.kind, OpKind::Push);
    }
    assert_eq!(int_val(&ops[0]), 5);
    assert_eq!(int_val(&ops[1]), 0);
    assert_eq!(int_val(&ops[2]), u64::MAX);
}

#[test]
fn bare_plus_is_still_the_addition_keyword() {
    let ops = parse("2 +3 + print");
    assert_eq!(ops.len(), 4);
    assert_eq!(ops[0].kind, OpKind::Push);
    assert_eq!(int_val(&ops[1]), 3);
    assert_eq!(ops[2].kind, OpKind::Plus);
    assert_eq!(ops[3].kind, OpKind::Print);
}

#[test]
fn plus_without_digits_is_unknown() {
    let r = parse_word_as_op(&lines(&["+x"]));
    match r {
        Err(ParseError::UnknownWord(w)) => assert_eq!(w, "+x"),
        other => panic!("expected an unknown-word error, got {:?}", other),
    }
    let r = parse_word_as_op(&lines(&["++5"]));
    match r {
        Err(ParseError::UnknownWord(w)) => assert_eq!(w, "++5"),
        other => panic!("expected an unknown-word error, got {:?}", other),
    }
}

#[test]
fn plus_prefixed_oversized_integer_is_unknown() {
    let r = parse_word_as_op(&lines(&["+18446744073709551616"]));
    match r {
        Err(ParseError::UnknownWord(w)) => assert_eq!(w, "+18446744073709551616"),
        other => panic!("expected an unknown-word error, got {:?}", other),
    }
}

#[test]
fn form_feed_separates_words() {
    let ops = parse("5\x0C6");
    assert_eq!(ops.len(), 2);
    assert_eq!(int_val(&ops[0]), 5);
    assert_eq!(int_val(&ops[1]), 6);
    let ops = parse("\x0C");
    assert!(ops.is_empty());
}

#[test]
fn signed_number_is_unknown() {
    let r = parse_word_as_op(&lines(&["-5"]));
    match r {
        Err(ParseError::UnknownWord(w)) => assert_eq!(w, "-5"),
        other => panic!("expected an unknown-word error, got {:?}", other),
    }
}

#[test]
fn no_lines_give_no_ops() {
    let ops = parse_word_as_op(&Vec::new()).unwrap();
    assert!(ops.is_empty());
}
