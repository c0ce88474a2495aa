use checker::compare::{
    check_lines, compare_lines, get_integer_length, line_label, CheckResult, CompareOptions,
    LineVerdict,
};
use checker::text::trim_filter_non_empty;

fn report(r: CheckResult) -> Vec<LineVerdict> {
    match r {
        CheckResult::Correct => panic!("expected a mismatch"),
        CheckResult::Incorrect { report } => report,
    }
}

#[test]
fn same_text_is_correct() {
    let x = "  3 4\n\n5\n";
    assert!(matches!(check_lines(x, x), CheckResult::Correct));
    assert!(matches!(check_lines("", ""), CheckResult::Correct));
}

#[test]
fn whitespace_and_blank_lines_are_ignored() {
    assert!(matches!(check_lines("1\n2", "\t1 \n  2  \n\n\n"), CheckResult::Correct));
}

#[test]
fn carriage_returns_are_ignored() {
    assert!(matches!(check_lines("1\n2\n", "1\r\n2\r\n"), CheckResult::Correct));
}

#[test]
fn extra_line_is_a_mismatch_at_its_position() {
    let r = report(check_lines("1\n2", "1\n2\n3"));
    assert_eq!(r.len(), 1);
    assert_eq!(r[0].line, 3);
    assert_eq!(r[0].expected, "");
    assert_eq!(r[0].actual, "3");
    assert!(!r[0].matched);
}

#[test]
fn missing_line_is_a_mismatch() {
    let r = report(check_lines("1\n2\n3", "1\n2"));
    assert_eq!(r.len(), 1);
    assert_eq!(r[0].line, 3);
    assert_eq!(r[0].expected, "3");
    assert_eq!(r[0].actual, "");
}

#[test]
fn changed_line_gives_one_mismatch() {
    let r = report(check_lines("1\n2", "1\n55"));
    assert_eq!(r.len(), 1);
    assert_eq!(r[0].line, 2);
    assert_eq!(r[0].expected, "2");
    assert_eq!(r[0].actual, "55");
}

#[test]
fn empty_output_against_answer() {
    let r = report(check_lines("7", "  \n"));
    assert_eq!(r.len(), 1);
    assert_eq!(r[0].expected, "7");
    assert_eq!(r[0].actual, "");
}

const ALL: CompareOptions = CompareOptions {
    trim_lines: true,
    drop_blank_lines: true,
    report_matches: true,
};

#[test]
fn full_report_lists_every_position() {
    let r = report(compare_lines("1\n2", "1\n55\n7", ALL));
    assert_eq!(r.len(), 3);
    assert!(r[0].matched);
    assert_eq!(r[0].line, 1);
    assert_eq!(r[0].expected, "1");
    assert_eq!(r[0].actual, "1");
    assert!(!r[1].matched);
    assert_eq!(r[2].line, 3);
    assert_eq!(r[2].expected, "");
    assert_eq!(r[2].actual, "7");
}

#[test]
fn untrimmed_lines_must_match_exactly() {
    let raw = CompareOptions {
        trim_lines: false,
        drop_blank_lines: true,
        report_matches: false,
    };
    let r = report(compare_lines("1\n2", "1 \n2", raw));
    assert_eq!(r.len(), 1);
    assert_eq!(r[0].line, 1);
    assert_eq!(r[0].actual, "1 ");
    assert!(matches!(compare_lines("1\r\n2\n", "1\n2", raw), CheckResult::Correct));
}

#[test]
fn kept_blank_lines_count_as_lines() {
    let keep = CompareOptions {
        trim_lines: true,
        drop_blank_lines: false,
        report_matches: false,
    };
    let r = report(compare_lines("1\n2", "1\n\n2", keep));
    assert_eq!(r.len(), 2);
    assert_eq!(r[0].line, 2);
    assert_eq!(r[0].expected, "2");
    assert_eq!(r[0].actual, "");
    assert_eq!(r[1].line, 3);
    assert_eq!(r[1].expected, "");
    assert_eq!(r[1].actual, "2");
}

#[test]
fn same_text_is_correct_under_any_options() {
    for t in [false, true] {
        for d in [false, true] {
            let o = CompareOptions {
                trim_lines: t,
                drop_blank_lines: d,
                report_matches: true,
            };
            assert!(matches!(compare_lines(" a\n\n b \n", " a\n\n b \n", o), CheckResult::Correct));
        }
    }
}

#[test]
fn integer_length_counts_digits() {
    assert_eq!(get_integer_length(0), 0);
    assert_eq!(get_integer_length(9), 1);
    assert_eq!(get_integer_length(10), 2);
    assert_eq!(get_integer_length(12345), 5);
    assert_eq!(get_integer_length(usize::MAX), usize::MAX.to_string().len());
}

#[test]
fn labels_are_right_aligned() {
    assert_eq!(line_label(7, 3), "  7");
    assert_eq!(line_label(42, 2), "42");
    assert_eq!(line_label(123, 2), "123");
    assert_eq!(line_label(0, 1), "0");
}

#[test]
fn trim_filter_keeps_trimmed_text() {
    assert_eq!(trim_filter_non_empty("  ab c \t"), Some("ab c".to_string()));
    assert_eq!(trim_filter_non_empty(" \u{3000}\u{a0} "), None);
    assert_eq!(trim_filter_non_empty(""), None);
}
