use checker::suite::{parse_test, parse_tests, SuiteError, Test};

#[test]
fn parses_records_in_order() {
    let src = "[test]\n[input]\n1 2\n[answer]\n3\n[test]\n[input]\n  5 5 \n[answer]\n\n10\n\n";
    let tests = parse_tests(src).unwrap();
    assert_eq!(tests.len(), 2);
    assert_eq!(tests[0].input, "1 2");
    assert_eq!(tests[0].answer, "3");
    assert_eq!(tests[1].input, "5 5");
    assert_eq!(tests[1].answer, "10");
}

#[test]
fn empty_source_has_no_tests() {
    assert_eq!(parse_tests("").unwrap().len(), 0);
}

#[test]
fn answer_may_be_empty() {
    let tests = parse_tests("[test]\n[input]\nx\n[answer]\n").unwrap();
    assert_eq!(tests.len(), 1);
    assert_eq!(tests[0].input, "x");
    assert_eq!(tests[0].answer, "");
}

#[test]
fn record_without_answer_header_is_malformed() {
    let src = "[test]\n[input]\n1\n[answer]\n1\n[test]\n[input]\n2\n2\n[test]\n[input]\n3\n[answer]\n3\n";
    assert_eq!(parse_tests(src).err(), Some(SuiteError::MissingAnswerHeader));
}

#[test]
fn record_without_input_header_is_malformed() {
    let src = "[test]\n1\n[answer]\n1\n";
    assert_eq!(parse_tests(src).err(), Some(SuiteError::MissingInputHeader));
}

#[test]
fn first_bad_record_decides_the_error() {
    let src = "[test]\n[input]\n1\n[test]\nno header\n";
    assert_eq!(parse_tests(src).err(), Some(SuiteError::MissingAnswerHeader));
}

#[test]
fn text_before_first_marker_is_a_record() {
    let src = "junk\n[test]\n[input]\n1\n[answer]\n1\n";
    assert_eq!(parse_tests(src).err(), Some(SuiteError::MissingInputHeader));
}

#[test]
fn parse_test_splits_at_first_answer_header() {
    let t = parse_test("[input]\na\n[answer]\nb\n[answer]\nc\n").unwrap();
    assert_eq!(t.input, "a");
    assert_eq!(t.answer, "b\n[answer]\nc");
}

#[test]
fn serialize_adds_missing_newlines() {
    let t = Test::new("1 2".to_string(), "3".to_string());
    assert_eq!(t.serialize(), "[test]\n[input]\n1 2\n[answer]\n3\n");
}

#[test]
fn serialize_keeps_existing_newlines() {
    let t = Test::new("1 2\n".to_string(), "3\n".to_string());
    assert_eq!(t.serialize(), "[test]\n[input]\n1 2\n[answer]\n3\n");
}

#[test]
fn serialized_test_parses_back() {
    let t = Test::new("4\n1 2 3 4".to_string(), "10".to_string());
    let text = t.serialize();
    let back = parse_tests(&text).unwrap();
    assert_eq!(back.len(), 1);
    assert_eq!(back[0].input, t.input);
    assert_eq!(back[0].answer, t.answer);
}

#[test]
fn appended_tests_parse_back_in_order() {
    let a = Test::new("a".to_string(), "b".to_string());
    let b = Test::new("c d".to_string(), "e\nf".to_string());
    let text = format!("{}{}", a.serialize(), b.serialize());
    let back = parse_tests(&text).unwrap();
    assert_eq!(back.len(), 2);
    assert_eq!(back[1].input, "c d");
    assert_eq!(back[1].answer, "e\nf");
}

#[test]
fn untrimmed_fields_read_back_trimmed() {
    let t = Test::new("  1 2  ".to_string(), "\n3\n\n".to_string());
    let back = parse_tests(&t.serialize()).unwrap();
    assert_eq!(back.len(), 1);
    assert_eq!(back[0].input, "1 2");
    assert_eq!(back[0].answer, "3");
}
