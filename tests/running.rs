use checker::compare::CompareOptions;
use checker::error::CheckerError;
use checker::process::{
    create_solution_command, report_if_solution_terminated_correctly, run_test, run_tests,
    CommandError, ExitReport, RunFailure, TestReport,
};
use checker::run::{plan_run, Args, RunError};
use checker::suite::{SuiteError, Test};

const CHECKER: CompareOptions = CompareOptions {
    trim_lines: true,
    drop_blank_lines: true,
    report_matches: false,
};

fn exit(success: bool, signal: Option<i32>, stdout: &[u8], stderr: &[u8]) -> ExitReport {
    ExitReport {
        success,
        signal,
        stdout: stdout.to_vec(),
        stderr: stderr.to_vec(),
    }
}

#[test]
fn command_is_split_at_white_space() {
    let c = create_solution_command("  python3   sol.py\t-v ").unwrap();
    assert_eq!(c.program, "python3");
    assert_eq!(c.args, vec!["sol.py".to_string(), "-v".to_string()]);
}

#[test]
fn blank_command_is_refused() {
    assert_eq!(create_solution_command(" \t ").err(), Some(CommandError::EmptyCommand));
    assert_eq!(create_solution_command("").err(), Some(CommandError::EmptyCommand));
}

#[test]
fn success_is_accepted() {
    assert!(report_if_solution_terminated_correctly(&exit(true, None, b"1", b"")).is_ok());
}

#[test]
fn segfault_is_reported_as_such() {
    let r = report_if_solution_terminated_correctly(&exit(false, Some(11), b"", b"oops"));
    let f = r.unwrap_err();
    assert!(matches!(f, RunFailure::Segfault));
    assert_eq!(f.message(), "Segmentation fault");
}

#[test]
fn other_failure_carries_stderr() {
    let r = report_if_solution_terminated_correctly(&exit(false, Some(9), b"", b"killed here"));
    match r {
        Err(RunFailure::NonZeroExit(s)) => assert_eq!(s, "killed here"),
        _ => panic!("expected a non-zero exit"),
    }
    let r = report_if_solution_terminated_correctly(&exit(false, None, b"", "é".as_bytes()));
    match r {
        Err(RunFailure::NonZeroExit(s)) => assert_eq!(s, "é"),
        _ => panic!("expected a non-zero exit"),
    }
}

#[test]
fn failure_with_bad_stderr() {
    let r = report_if_solution_terminated_correctly(&exit(false, None, b"", &[0xff, 0xfe]));
    assert!(matches!(r, Err(RunFailure::StderrNotUtf8)));
}

#[test]
fn output_is_judged_against_answer() {
    let t = Test::new("1 2".to_string(), "3".to_string());
    assert!(matches!(run_test(&t, &Ok(exit(true, None, b" 3 \n", b"")), CHECKER), TestReport::Passed));
    match run_test(&t, &Ok(exit(true, None, b"4\n", b"")), CHECKER) {
        TestReport::WrongAnswer(r) => {
            assert_eq!(r.len(), 1);
            assert_eq!(r[0].actual, "4");
        }
        _ => panic!("expected a wrong answer"),
    }
    let bad = run_test(&t, &Ok(exit(true, None, &[0xc3, 0x28], b"")), CHECKER);
    assert!(matches!(bad, TestReport::Error(RunFailure::StdoutNotUtf8)));
}

#[test]
fn spawn_failure_fails_only_its_test() {
    let tests = vec![
        Test::new("1".to_string(), "1".to_string()),
        Test::new("2".to_string(), "2".to_string()),
        Test::new("3".to_string(), "3".to_string()),
    ];
    let runs = vec![
        Ok(exit(true, None, b"1\n", b"")),
        Err("No such file or directory".to_string()),
        Ok(exit(true, None, b"30\n", b"")),
    ];
    let reports = run_tests(&tests, &runs, CHECKER);
    assert_eq!(reports.len(), 3);
    assert!(matches!(reports[0], TestReport::Passed));
    match &reports[1] {
        TestReport::Error(RunFailure::SpawnFailed(why)) => {
            assert_eq!(why, "No such file or directory")
        }
        _ => panic!("expected a spawn failure"),
    }
    assert!(matches!(reports[2], TestReport::WrongAnswer(_)));
}

#[test]
fn plan_needs_a_command_and_a_suite() {
    let args = Args { test_suite: "tests".to_string(), solution_command: "  ".to_string() };
    assert_eq!(plan_run(&args, "[test]\n[input]\n1\n[answer]\n1\n").err(), Some(RunError::EmptyCommand));
    let args = Args { test_suite: "tests".to_string(), solution_command: "./sol".to_string() };
    assert_eq!(
        plan_run(&args, "[test]\n[input]\n1\n").err(),
        Some(RunError::MalformedSuite(SuiteError::MissingAnswerHeader))
    );
    let p = plan_run(&args, "[test]\n[input]\n1\n[answer]\n1\n").unwrap();
    assert_eq!(p.command.program, "./sol");
    assert_eq!(p.tests.len(), 1);
}

#[test]
fn failure_headlines() {
    assert_eq!(RunFailure::SpawnFailed("x".to_string()).message(), "Couldn't spawn child process");
    assert_eq!(
        RunFailure::NonZeroExit("x".to_string()).message(),
        "Solution terminated with a non-zero exit code"
    );
    assert_eq!(RunFailure::StdoutNotUtf8.message(), "failed to convert solution stdout to UTF-8");
    assert_eq!(RunFailure::StderrNotUtf8.message(), "failed to convert solution stderr to UTF-8");
}

#[test]
fn checker_error_message() {
    let e = CheckerError::new("bad".to_string(), Some("details".to_string()));
    assert_eq!(e.message(), "bad\ndetails");
    assert_eq!(CheckerError::new("bad".to_string(), None).message(), "bad");
}
