//! The compiler driver's decisions: how the compiler is called on the
//! program text, and what is reported and returned once it has run. Running
//! it is the caller's part.

use crate::text::{strip_suffix_in, without_suffix};
use vstd::prelude::*;
use vstd::string::StringExecFns;

verus! {

/// The compiler that builds the program text.
pub const COMPILER: &'static str = "rustc";

/// What the name of a program text ends with, and the program built from it
/// lacks.
pub const SOURCE_SUFFIX: &'static str = ".rs";

/// Precedes the program's path in the line that tells how to run it.
pub const RUN_HINT: &'static str = "compiled success, try it with: ./";

/// What the operator is told of a compiler that could not be started.
pub const LAUNCH_FAILURE: &'static str = "failed to compile";

/// What came of calling the compiler.
pub enum CompilerRun {
    /// The compiler could not be started.
    LaunchFailed,
    /// The compiler ran and ended.
    Exited {
        /// Whether it ended with success.
        success: bool,
        /// All that it wrote to its standard output.
        stdout_text: String,
        /// All that it wrote to its standard error.
        stderr_text: String,
    },
}

/// The outcome of one compilation.
pub struct CompileResult {
    /// Whether the program was built.
    pub success: bool,
    /// What the compiler wrote to its standard output.
    pub stdout_text: String,
    /// What the compiler wrote to its standard error.
    pub stderr_text: String,
    /// Where the program was built, if it was.
    pub artifact_path: Option<String>,
}

/// The path of the program built from the text at `source_path`: that path
/// without the source suffix at its end, and the path itself where it does
/// not end with the suffix.
pub open spec fn artifact_of(source_path: Seq<char>) -> Seq<char> {
    without_suffix(source_path, SOURCE_SUFFIX@)
}

/// The line that tells how to run the program at `artifact`.
pub open spec fn run_hint(artifact: Seq<char>) -> Seq<char> {
    RUN_HINT@ + artifact
}

/// The path of the program that the compiler builds from the text at
/// `source_path`.
pub fn artifact_path(source_path: &str) -> (path: String)
    ensures
        path@ == artifact_of(source_path@),
{
    strip_suffix_in(source_path, SOURCE_SUFFIX)
}

/// The arguments that [`COMPILER`] is called with: the path of the program
/// text, and nothing else.
pub fn compiler_arguments(source_path: &str) -> (args: Vec<String>)
    ensures
        args.deep_view() == seq![source_path@],
{
    let mut args: Vec<String> = Vec::new();
    args.push(source_path.to_owned());
    assert(args.deep_view() =~= seq![source_path@]);
    args
}

impl CompileResult {
    /// A result is well formed when it names the program exactly if the
    /// program was built.
    pub open spec fn wf(&self) -> bool {
        self.success <==> self.artifact_path is Some
    }

    /// What the operator is shown, line by line: the compiler's standard
    /// output and its standard error, each if it wrote any, and for a
    /// program that was built the line that tells how to run it.
    pub open spec fn report_lines(&self) -> Seq<Seq<char>> {
        let out = if self.stdout_text@.len() > 0 {
            seq![self.stdout_text@]
        } else {
            Seq::empty()
        };
        let err = if self.stderr_text@.len() > 0 {
            seq![self.stderr_text@]
        } else {
            Seq::empty()
        };
        let hint = match self.artifact_path {
            Some(path) => seq![run_hint(path@)],
            None => Seq::empty(),
        };
        out + err + hint
    }

    /// The result of compiling the program text at `source_path`, given what
    /// came of calling the compiler.
    ///
    /// A compiler that could not be started counts as one that failed and
    /// wrote [`LAUNCH_FAILURE`] to its standard error. Only a compiler that
    /// ended with success has built the program.
    pub fn from_run(source_path: &str, run: CompilerRun) -> (result: CompileResult)
        ensures
            result.wf(),
            match run {
                CompilerRun::LaunchFailed => {
                    &&& !result.success
                    &&& result.stdout_text@.len() == 0
                    &&& result.stderr_text@ == LAUNCH_FAILURE@
                },
                CompilerRun::Exited { success, stdout_text, stderr_text } => {
                    &&& result.success == success
                    &&& result.stdout_text@ == stdout_text@
                    &&& result.stderr_text@ == stderr_text@
                },
            },
            result.artifact_path matches Some(path) ==> path@ == artifact_of(source_path@),
    {
        match run {
            CompilerRun::LaunchFailed => CompileResult {
                success: false,
                stdout_text: String::new(),
                stderr_text: LAUNCH_FAILURE.to_owned(),
                artifact_path: None,
            },
            CompilerRun::Exited { success, stdout_text, stderr_text } => {
                let artifact_path = if success {
                    Some(artifact_path(source_path))
                } else {
                    None
                };
                CompileResult { success, stdout_text, stderr_text, artifact_path }
            },
        }
    }

    /// The lines to show the operator.
    pub fn report(&self) -> (lines: Vec<String>)
        ensures
            lines.deep_view() == self.report_lines(),
    {
        let mut lines: Vec<String> = Vec::new();
        if !self.stdout_text.as_str().is_empty() {
            lines.push(self.stdout_text.clone());
        }
        if !self.stderr_text.as_str().is_empty() {
            lines.push(self.stderr_text.clone());
        }
        match &self.artifact_path {
            Some(path) => {
                let mut hint = RUN_HINT.to_owned();
                hint.append(path.as_str());
                lines.push(hint);
            },
            None => {},
        }
        assert(lines.deep_view() =~= self.report_lines());
        lines
    }

    /// The status that the calling process must end with at once, if any: a
    /// compilation that failed ends it with status 1.
    pub fn exit_status(&self) -> (status: Option<i32>)
        ensures
            status == if self.success {
                None::<i32>
            } else {
                Some(1i32)
            },
    {
        if self.success {
            None
        } else {
            Some(1)
        }
    }
}

} // verus!
