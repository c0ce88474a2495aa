use vstd::prelude::*;
use vstd::utf8::{decode_utf8, valid_utf8};

use crate::compare::{check_outcome, compare_lines, CheckResult, CompareOptions, LineVerdict};
use crate::suite::Test;
use crate::text::{char_views, chars_of, lemma_blank_iff_no_words, split_words, string_of, trim, words};

verus! {

/// A command split into the program to start and its arguments.
pub struct CommandLine {
    pub program: String,
    pub args: Vec<String>,
}

#[derive(PartialEq, Eq, Structural, Debug, Clone, Copy)]
pub enum CommandError {
    /// The command holds nothing but white space.
    EmptyCommand,
}

/// How a finished process ended, with what it wrote.
pub struct ExitReport {
    /// It exited with status 0.
    pub success: bool,
    /// The signal that ended it, if one did.
    pub signal: Option<i32>,
    pub stdout: Vec<u8>,
    pub stderr: Vec<u8>,
}

/// Why a test could not be judged on the candidate's output.
pub enum RunFailure {
    /// The process could not be started or talked to; the reason is given.
    SpawnFailed(String),
    /// The process was ended by a segmentation violation.
    Segfault,
    /// The process failed otherwise; what it wrote to standard error is given.
    NonZeroExit(String),
    /// The process failed and its standard error is not UTF-8.
    StderrNotUtf8,
    /// The process succeeded but its standard output is not UTF-8.
    StdoutNotUtf8,
}

/// The result of one test.
pub enum TestReport {
    Passed,
    /// The verdict of every line position, as the comparison gives it.
    WrongAnswer(Vec<LineVerdict>),
    Error(RunFailure),
}

/// The number of the segmentation-violation signal.
pub open spec fn segv() -> i32 {
    11
}

/// Relies on `libc::SIGSEGV`, which is 11 on every target that libc describes.
#[verifier::external_body]
fn segv_signal() -> (r: i32)
    ensures
        r == segv(),
{
    libc::SIGSEGV
}

/// Relies on `std::str::from_utf8`: it accepts exactly the well-formed UTF-8 byte sequences
/// and decodes them.
#[verifier::external_body]
fn decode_text(b: &[u8]) -> (r: Option<String>)
    ensures
        r is Some <==> valid_utf8(b@),
        r matches Some(s) ==> s@ == decode_utf8(b@),
{
    match std::str::from_utf8(b) {
        Ok(s) => Some(s.to_string()),
        Err(_) => None,
    }
}

/// Splits `command` at white space: the first word is the program, the others its arguments.
/// A command that trims to nothing is refused.
pub fn create_solution_command(command: &str) -> (r: Result<CommandLine, CommandError>)
    ensures
        r is Err <==> trim(command@).len() == 0,
        match r {
            Ok(c) => {
                &&& words(command@).len() > 0
                &&& c.program@ == words(command@)[0]
                &&& c.args@.len() + 1 == words(command@).len()
                &&& forall|i: int|
                    0 <= i < c.args@.len() ==> (#[trigger] c.args@[i])@ == words(command@)[i + 1]
            },
            Err(e) => e == CommandError::EmptyCommand && words(command@).len() == 0,
        },
{
    let cs = chars_of(command);
    let ws = split_words(&cs);
    let ghost wv = char_views(ws@);
    proof {
        lemma_blank_iff_no_words(command@);
    }
    if ws.len() == 0 {
        return Err(CommandError::EmptyCommand);
    }
    let program = string_of(ws[0].as_slice());
    let mut args: Vec<String> = Vec::new();
    let mut i: usize = 1;
    while i < ws.len()
        invariant
            wv == char_views(ws@),
            wv == words(command@),
            1 <= i <= ws@.len(),
            args@.len() + 1 == i,
            forall|k: int| 0 <= k < args@.len() ==> (#[trigger] args@[k])@ == wv[k + 1],
        decreases ws.len() - i,
    {
        let a = string_of(ws[i].as_slice());
        args.push(a);
        i = i + 1;
    }
    Ok(CommandLine { program, args })
}

/// How `exit` is classified: `Ok` for success, else the failure it shows.
pub open spec fn termination_outcome(exit: ExitReport, r: Result<(), RunFailure>) -> bool {
    if exit.success {
        r is Ok
    } else if exit.signal == Some(segv()) {
        r matches Err(RunFailure::Segfault)
    } else if valid_utf8(exit.stderr@) {
        r matches Err(RunFailure::NonZeroExit(s)) && s@ == decode_utf8(exit.stderr@)
    } else {
        r matches Err(RunFailure::StderrNotUtf8)
    }
}

/// Classifies how a process ended. A segmentation violation is told apart from other
/// failures, which carry what the process wrote to standard error.
pub fn report_if_solution_terminated_correctly(exit: &ExitReport) -> (r: Result<(), RunFailure>)
    ensures
        termination_outcome(*exit, r),
{
    if exit.success {
        return Ok(());
    }
    let is_segv = match exit.signal {
        Some(s) => s == segv_signal(),
        None => false,
    };
    if is_segv {
        Err(RunFailure::Segfault)
    } else {
        match decode_text(exit.stderr.as_slice()) {
            Some(s) => Err(RunFailure::NonZeroExit(s)),
            None => Err(RunFailure::StderrNotUtf8),
        }
    }
}

/// `r` is the report of `test`, whose run of the candidate gave `run`: the reason it could
/// not be started, or how it ended.
pub open spec fn judged(
    test: Test,
    run: Result<ExitReport, String>,
    o: CompareOptions,
    r: TestReport,
) -> bool {
    match run {
        Err(reason) => r matches TestReport::Error(RunFailure::SpawnFailed(x)) && x@ == reason@,
        Ok(exit) => if !exit.success {
            exists|f: RunFailure|
                termination_outcome(exit, Err(f)) && r == TestReport::Error(f)
        } else if !valid_utf8(exit.stdout@) {
            r matches TestReport::Error(RunFailure::StdoutNotUtf8)
        } else {
            match r {
                TestReport::Passed => check_outcome(
                    test.answer@,
                    decode_utf8(exit.stdout@),
                    o,
                    CheckResult::Correct,
                ),
                TestReport::WrongAnswer(report) => check_outcome(
                    test.answer@,
                    decode_utf8(exit.stdout@),
                    o,
                    CheckResult::Incorrect { report },
                ),
                TestReport::Error(_) => false,
            }
        },
    }
}

/// Judges one test from the outcome of its run: a failure of the run, or the comparison of
/// the output with the expected answer under `options`.
pub fn run_test(test: &Test, run: &Result<ExitReport, String>, options: CompareOptions) -> (r:
    TestReport)
    ensures
        judged(*test, *run, options, r),
{
    match run {
        Err(reason) => TestReport::Error(RunFailure::SpawnFailed(reason.clone())),
        Ok(exit) => {
            match report_if_solution_terminated_correctly(exit) {
                Err(f) => {
                    return TestReport::Error(f);
                },
                Ok(()) => {},
            }
            match decode_text(exit.stdout.as_slice()) {
                None => TestReport::Error(RunFailure::StdoutNotUtf8),
                Some(out) => match compare_lines(test.answer.as_str(), out.as_str(), options) {
                    CheckResult::Correct => TestReport::Passed,
                    CheckResult::Incorrect { report } => TestReport::WrongAnswer(report),
                },
            }
        },
    }
}

/// `reports` holds, for each test in order, its report from its own run.
pub open spec fn reports_for(
    tests: Seq<Test>,
    runs: Seq<Result<ExitReport, String>>,
    o: CompareOptions,
    reports: Seq<TestReport>,
) -> bool {
    &&& reports.len() == tests.len()
    &&& forall|i: int|
        0 <= i < reports.len() ==> judged(tests[i], runs[i], o, #[trigger] reports[i])
}

/// Judges every test of a suite from the outcome of its own run.
pub fn run_tests(
    tests: &Vec<Test>,
    runs: &Vec<Result<ExitReport, String>>,
    options: CompareOptions,
) -> (r: Vec<TestReport>)
    requires
        runs@.len() == tests@.len(),
    ensures
        reports_for(tests@, runs@, options, r@),
{
    let mut out: Vec<TestReport> = Vec::new();
    let mut i: usize = 0;
    while i < tests.len()
        invariant
            runs@.len() == tests@.len(),
            out@.len() == i <= tests@.len(),
            forall|k: int| 0 <= k < i ==> judged(tests@[k], runs@[k], options, #[trigger] out@[k]),
        decreases tests.len() - i,
    {
        let rep = run_test(&tests[i], &runs[i], options);
        out.push(rep);
        i = i + 1;
    }
    out
}

impl RunFailure {
    /// The headline under which the failure is reported.
    pub fn message(&self) -> (r: String)
        ensures
            r@ == match self {
                RunFailure::SpawnFailed(_) => "Couldn't spawn child process"@,
                RunFailure::Segfault => "Segmentation fault"@,
                RunFailure::NonZeroExit(_) => "Solution terminated with a non-zero exit code"@,
                RunFailure::StderrNotUtf8 => "failed to convert solution stderr to UTF-8"@,
                RunFailure::StdoutNotUtf8 => "failed to convert solution stdout to UTF-8"@,
            },
    {
        match self {
            RunFailure::SpawnFailed(_) => String::from_str("Couldn't spawn child process"),
            RunFailure::Segfault => String::from_str("Segmentation fault"),
            RunFailure::NonZeroExit(_) => String::from_str(
                "Solution terminated with a non-zero exit code",
            ),
            RunFailure::StderrNotUtf8 => String::from_str(
                "failed to convert solution stderr to UTF-8",
            ),
            RunFailure::StdoutNotUtf8 => String::from_str(
                "failed to convert solution stdout to UTF-8",
            ),
        }
    }
}

/// A candidate ended by a segmentation violation is reported as such, and not as an
/// ordinary failure carrying its standard error.
pub proof fn lemma_segfault_reported(
    test: Test,
    exit: ExitReport,
    o: CompareOptions,
    r: TestReport,
)
    requires
        !exit.success,
        exit.signal == Some(segv()),
        judged(test, Ok::<ExitReport, String>(exit), o, r),
    ensures
        r matches TestReport::Error(RunFailure::Segfault),
{
    let f = choose|f: RunFailure| termination_outcome(exit, Err(f)) && r == TestReport::Error(f);
}

/// A run that could not be started fails only its own test: every test keeps a report, the
/// one of that run says why it failed, and each other test is judged on its own run.
pub proof fn lemma_failure_isolated(
    tests: Seq<Test>,
    runs: Seq<Result<ExitReport, String>>,
    o: CompareOptions,
    reports: Seq<TestReport>,
    k: int,
)
    requires
        runs.len() == tests.len(),
        0 <= k < tests.len(),
        runs[k] is Err,
        reports_for(tests, runs, o, reports),
    ensures
        reports.len() == tests.len(),
        reports[k] matches TestReport::Error(RunFailure::SpawnFailed(x)) && x@ == runs[k]->Err_0@,
        forall|i: int| 0 <= i < tests.len() && i != k ==> judged(tests[i], runs[i], o, reports[i]),
{
    assert(judged(tests[k], runs[k], o, reports[k]));
    assert forall|i: int| 0 <= i < tests.len() && i != k implies judged(
        tests[i],
        runs[i],
        o,
        reports[i],
    ) by {
        assert(judged(tests[i], runs[i], o, reports[i]));
    }
}

} // verus!
