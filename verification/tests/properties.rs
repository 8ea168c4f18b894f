use rtk::filter_cargo_build;
use rtk::filter_cargo_clippy;
use rtk::filter_cargo_test;
use rtk::filter_ls_output;
use rtk::generate_summary;
use rtk::ls::filter_ls_with;
use rtk::run;
use rtk::CargoCommand;

#[test]
fn build_success_is_exactly_one_line() {
    let output = "   Compiling a v0.1.0\n   Compiling b v0.1.0\n   Compiling c v0.1.0\n    Finished dev [unoptimized] target(s) in 1.00s\n";
    let result = filter_cargo_build(output);
    assert_eq!(result, "✓ cargo build (3 crates compiled)");
}

#[test]
fn build_empty_input_counts_zero_crates() {
    let result = filter_cargo_build("");
    assert_eq!(result, "✓ cargo build (0 crates compiled)");
}

#[test]
fn build_overflow_names_hidden_issue_count() {
    let mut output = String::new();
    for i in 0..17 {
        output.push_str(&format!("error: problem number {}\n\nfiller\n", i));
    }
    let result = filter_cargo_build(&output);
    assert!(result.contains("17 errors"));
    assert!(result.contains("+2 more issues"));
}

#[test]
fn build_few_issues_have_no_overflow_note() {
    let output = "error: one\n\nerror: two\n";
    let result = filter_cargo_build(output);
    assert!(result.contains("2 errors"));
    assert!(!result.contains("more issues"));
}

#[test]
fn build_drops_aggregate_summary_lines() {
    let output = "error[E0001]: bad\nerror: aborting due to 1 previous error\nerror: could not compile `x`\n";
    let result = filter_cargo_build(output);
    assert!(result.contains("1 errors"));
    assert!(!result.contains("aborting"));
    assert!(!result.contains("could not compile"));
}

#[test]
fn test_pass_summary_is_exact() {
    let output = "running 15 tests\ntest a ... ok\ntest b ... ok\n\ntest result: ok. 15 passed; 0 failed; 0 ignored; 0 measured; 0 filtered out; finished in 0.01s\n";
    let result = filter_cargo_test(output);
    assert_eq!(
        result,
        "✓ test result: ok. 15 passed; 0 failed; 0 ignored; 0 measured; 0 filtered out; finished in 0.01s"
    );
}

#[test]
fn test_result_line_is_captured_once() {
    let output = "running 1 tests\ntest a ... FAILED\n\nfailures:\n\n---- a stdout ----\nboom\n\ntest result: FAILED. 0 passed; 1 failed\n";
    let result = filter_cargo_test(output);
    assert_eq!(result.matches("test result:").count(), 1);
}

#[test]
fn test_failure_bodies_are_truncated() {
    let detail = "x".repeat(300);
    let output = format!(
        "failures:\n\n---- long stdout ----\n    {}\n\ntest result: FAILED. 0 passed; 1 failed\n",
        detail
    );
    let result = filter_cargo_test(&output);
    assert!(result.contains("FAILURES (1):"));
    assert!(result.contains("..."));
    assert!(!result.contains(&detail));
}

#[test]
fn test_failure_overflow_names_hidden_count() {
    let mut output = String::from("failures:\n\n");
    for i in 0..11 {
        output.push_str(&format!("---- t{} stdout ----\nboom\n\n", i));
    }
    output.push_str("test result: FAILED. 0 passed; 11 failed\n");
    let result = filter_cargo_test(&output);
    assert!(result.contains("FAILURES (11):"));
    assert!(result.contains("+1 more failures"));
}

#[test]
fn test_garbled_input_falls_back_to_last_lines() {
    let output = "alpha\nbeta\ngamma\ndelta\nepsilon\nzeta\neta\n";
    let result = filter_cargo_test(output);
    assert_eq!(result, "gamma\ndelta\nepsilon\nzeta\neta");
}

#[test]
fn clippy_header_counts_match_grouped_occurrences() {
    let output = "warning: one [rule_a]\n --> src/a.rs:1:1\nwarning: two [rule_a]\n --> src/a.rs:2:1\nerror: three [rule_b]\n --> src/b.rs:3:1\n";
    let result = filter_cargo_clippy(output);
    assert!(result.contains("1 errors, 2 warnings"));
    assert!(result.contains("rule_a (2x)"));
    assert!(result.contains("rule_b (1x)"));
}

#[test]
fn clippy_groups_sort_by_descending_count() {
    let output = "warning: w [rare]\n --> src/a.rs:1:1\nwarning: w [common]\n --> src/b.rs:1:1\nwarning: w [common]\n --> src/b.rs:2:1\n";
    let result = filter_cargo_clippy(output);
    let common = result.find("common (2x)").unwrap();
    let rare = result.find("rare (1x)").unwrap();
    assert!(common < rare);
}

#[test]
fn clippy_location_overflow_is_noted() {
    let output = "warning: w [busy]\n --> a:1:1\nwarning: w [busy]\n --> a:2:1\nwarning: w [busy]\n --> a:3:1\nwarning: w [busy]\n --> a:4:1\n";
    let result = filter_cargo_clippy(output);
    assert!(result.contains("busy (4x)"));
    assert!(result.contains("+1 more"));
}

#[test]
fn clippy_drops_aggregate_generated_line() {
    let output = "warning: unused [unused_variables]\n --> a:1:1\nwarning: `rtk` (bin) generated 1 warning\n";
    let result = filter_cargo_clippy(output);
    assert!(result.contains("0 errors, 1 warnings"));
    assert!(!result.contains("generated"));
}

#[test]
fn clippy_uses_message_when_no_bracketed_code() {
    let output = "warning: something odd happened\n --> src/a.rs:4:2\n";
    let result = filter_cargo_clippy(output);
    assert!(result.contains("something odd happened (1x)"));
}

#[test]
fn clippy_survives_reversed_brackets() {
    let output = "warning: odd ] text [\n --> src/a.rs:1:1\n";
    let result = filter_cargo_clippy(output);
    assert!(result.contains("0 errors, 1 warnings"));
    assert!(result.contains("(1x)"));
}

#[test]
fn build_handles_crlf_line_endings() {
    let output = "   Compiling a v0.1.0\r\n   Compiling b v0.1.0\r\n    Finished dev\r\n";
    let result = filter_cargo_build(output);
    assert_eq!(result, "✓ cargo build (2 crates compiled)");
}

#[test]
fn dispatcher_matches_each_filter() {
    let build_raw = "   Compiling a v0.1.0\n";
    let test_raw = "test result: ok. 1 passed; 0 failed\n";
    let lint_raw = "    Checking a v0.1.0\n";
    assert_eq!(run(CargoCommand::Build, build_raw), filter_cargo_build(build_raw));
    assert_eq!(run(CargoCommand::Test, test_raw), filter_cargo_test(test_raw));
    assert_eq!(run(CargoCommand::Clippy, lint_raw), filter_cargo_clippy(lint_raw));
}

#[test]
fn summary_groups_files_without_dots() {
    let lines: Vec<String> = vec![
        "-rw-r--r--  1 user  staff  1234 Jan  1 12:00 Makefile".to_string(),
        "-rw-r--r--  1 user  staff  1234 Jan  1 12:00 a.rs".to_string(),
        "-rw-r--r--  1 user  staff  1234 Jan  1 12:00 b.rs".to_string(),
    ];
    let summary = generate_summary(&lines);
    assert!(summary.contains("3 files"));
    assert!(summary.contains("2 .rs"));
    assert!(summary.contains("1 no ext"));
    let rs = summary.find("2 .rs").unwrap();
    let noext = summary.find("1 no ext").unwrap();
    assert!(rs < noext);
}

#[test]
fn summary_is_empty_for_unrecognized_lines() {
    let lines: Vec<String> = vec!["??? odd line".to_string()];
    let summary = generate_summary(&lines);
    assert_eq!(summary, "");
}

#[test]
fn ls_custom_denylist_is_honored() {
    let input = "drwxr-xr-x  2 user  staff  64 Jan  1 12:00 scratch\n\
                 drwxr-xr-x  2 user  staff  64 Jan  1 12:00 node_modules\n";
    let noise: Vec<String> = vec!["scratch".to_string()];
    let output = filter_ls_with(input, false, &noise);
    assert!(!output.contains("scratch"));
    assert!(output.contains("node_modules"));
}

#[test]
fn ls_show_all_keeps_every_entry_but_total() {
    let input = "total 8\ndrwxr-xr-x  2 user  staff  64 Jan  1 12:00 target\n";
    let output = filter_ls_output(input, true);
    assert!(!output.contains("total 8"));
    assert!(output.contains("target"));
}
