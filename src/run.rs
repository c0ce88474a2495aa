use vstd::prelude::*;

use crate::process::{create_solution_command, CommandError, CommandLine};
use crate::suite::{parse_suite, parse_tests, test_views, SuiteError, Test};
use crate::text::{trim, words};

verus! {

/// What a run of the checker is given: where the suite is, and how to start the solution.
pub struct Args {
    pub test_suite: String,
    pub solution_command: String,
}

/// What stops a run before any test is tried.
#[derive(PartialEq, Eq, Structural, Debug, Clone, Copy)]
pub enum RunError {
    EmptyCommand,
    MalformedSuite(SuiteError),
}

/// The work of a run: the command to start for each test, and the tests in suite order.
pub struct Plan {
    pub command: CommandLine,
    pub tests: Vec<Test>,
}

/// Checks the solution command and reads the suite text `tests_source`. A blank command is
/// refused first; a suite that cannot be read is refused before any test runs.
pub fn plan_run(args: &Args, tests_source: &str) -> (r: Result<Plan, RunError>)
    ensures
        r matches Err(RunError::EmptyCommand) <==> trim(args.solution_command@).len() == 0,
        match r {
            Ok(p) => {
                &&& words(args.solution_command@).len() > 0
                &&& p.command.program@ == words(args.solution_command@)[0]
                &&& p.command.args@.len() + 1 == words(args.solution_command@).len()
                &&& forall|i: int|
                    0 <= i < p.command.args@.len() ==> (#[trigger] p.command.args@[i])@ == words(
                        args.solution_command@,
                    )[i + 1]
                &&& parse_suite(tests_source@) == Ok::<Seq<(Seq<char>, Seq<char>)>, SuiteError>(
                    test_views(p.tests@),
                )
            },
            Err(RunError::EmptyCommand) => words(args.solution_command@).len() == 0,
            Err(RunError::MalformedSuite(e)) => {
                &&& words(args.solution_command@).len() > 0
                &&& parse_suite(tests_source@) == Err::<Seq<(Seq<char>, Seq<char>)>, SuiteError>(e)
            },
        },
{
    let command = match create_solution_command(args.solution_command.as_str()) {
        Ok(c) => c,
        Err(CommandError::EmptyCommand) => {
            return Err(RunError::EmptyCommand);
        },
    };
    match parse_tests(tests_source) {
        Ok(tests) => Ok(Plan { command, tests }),
        Err(e) => Err(RunError::MalformedSuite(e)),
    }
}

} // verus!
