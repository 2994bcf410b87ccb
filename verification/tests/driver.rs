use scriptbin::driver::{LAUNCH_FAILURE, RUN_HINT, SOURCE_SUFFIX};
use scriptbin::{artifact_path, compiler_arguments, CompileResult, CompilerRun, COMPILER};

fn exited(success: bool, out: &str, err: &str) -> CompilerRun {
    CompilerRun::Exited {
        success,
        stdout_text: out.to_string(),
        stderr_text: err.to_string(),
    }
}

#[test]
fn compiler_is_called_with_the_source_path_alone() {
    assert_eq!(COMPILER, "rustc");
    assert_eq!(compiler_arguments("out/hello.rs"), vec!["out/hello.rs".to_string()]);
    assert_eq!(compiler_arguments(""), vec![String::new()]);
}

#[test]
fn artifact_path_drops_the_source_suffix() {
    assert_eq!(SOURCE_SUFFIX, ".rs");
    assert_eq!(artifact_path("hello.rs"), "hello");
    assert_eq!(artifact_path("a.rs"), "a");
    assert_eq!(artifact_path("out/hello_sh.rs"), "out/hello_sh");
    assert_eq!(artifact_path(".rs"), "");
}

#[test]
fn artifact_path_keeps_a_path_without_the_suffix() {
    assert_eq!(artifact_path("hello"), "hello");
    assert_eq!(artifact_path(""), "");
    assert_eq!(artifact_path("rs"), "rs");
    assert_eq!(artifact_path("hello.rs.txt"), "hello.rs.txt");
    assert_eq!(artifact_path("hello.RS"), "hello.RS");
    assert_eq!(artifact_path("hello.rs "), "hello.rs ");
}

#[test]
fn artifact_path_drops_the_final_suffix_only() {
    assert_eq!(artifact_path("a.rs.rs"), "a.rs");
    assert_eq!(artifact_path("dir.rs/hello.rs"), "dir.rs/hello");
    assert_eq!(artifact_path("my.rsync.rs"), "my.rsync");
    assert_eq!(artifact_path("\u{00e9}t\u{00e9}.rs/\u{4f60}.rs"), "\u{00e9}t\u{00e9}.rs/\u{4f60}");
}

#[test]
fn run_hint_names_the_program_next_to_the_source() {
    let result = CompileResult::from_run("dir.rs/hello.rs", exited(true, "", ""));
    assert_eq!(result.artifact_path, Some("dir.rs/hello".to_string()));
    assert_eq!(
        result.report(),
        vec!["compiled success, try it with: ./dir.rs/hello".to_string()]
    );
}

#[test]
fn successful_run_names_the_artifact() {
    let result = CompileResult::from_run("out/hello.rs", exited(true, "", ""));
    assert!(result.success);
    assert_eq!(result.stdout_text, "");
    assert_eq!(result.stderr_text, "");
    assert_eq!(result.artifact_path, Some("out/hello".to_string()));
    assert_eq!(result.exit_status(), None);
    assert_eq!(
        result.report(),
        vec!["compiled success, try it with: ./out/hello".to_string()]
    );
}

#[test]
fn successful_run_shows_warnings_before_the_hint() {
    let result = CompileResult::from_run("x.rs", exited(true, "note", "warning: unused"));
    assert_eq!(
        result.report(),
        vec![
            "note".to_string(),
            "warning: unused".to_string(),
            format!("{}x", RUN_HINT),
        ]
    );
    assert_eq!(result.exit_status(), None);
}

#[test]
fn failed_run_shows_both_streams_and_ends_the_process() {
    let result = CompileResult::from_run("bad.rs", exited(false, "some output", "error: expected item"));
    assert!(!result.success);
    assert_eq!(result.stdout_text, "some output");
    assert_eq!(result.stderr_text, "error: expected item");
    assert_eq!(result.artifact_path, None);
    assert_eq!(
        result.report(),
        vec!["some output".to_string(), "error: expected item".to_string()]
    );
    assert_eq!(result.exit_status(), Some(1));
}

#[test]
fn empty_streams_are_not_shown() {
    let result = CompileResult::from_run("bad.rs", exited(false, "", "error"));
    assert_eq!(result.report(), vec!["error".to_string()]);
    let result = CompileResult::from_run("bad.rs", exited(false, "out", ""));
    assert_eq!(result.report(), vec!["out".to_string()]);
    let result = CompileResult::from_run("bad.rs", exited(false, "", ""));
    assert_eq!(result.report(), Vec::<String>::new());
}

#[test]
fn launch_failure_counts_as_failure() {
    let result = CompileResult::from_run("hello.rs", CompilerRun::LaunchFailed);
    assert!(!result.success);
    assert_eq!(result.stdout_text, "");
    assert_eq!(result.stderr_text, "failed to compile");
    assert_eq!(result.artifact_path, None);
    assert_eq!(result.report(), vec![LAUNCH_FAILURE.to_string()]);
    assert_eq!(result.exit_status(), Some(1));
}
