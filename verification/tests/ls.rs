use rtk::filter_ls_output;
use rtk::generate_summary;

#[test]
fn test_filter_removes_total_line() {
    let input = "total 48\n-rw-r--r--  1 user  staff  1234 Jan  1 12:00 file.txt\n";
    let output = filter_ls_output(input, false);
    assert!(!output.contains("total "));
    assert!(output.contains("file.txt"));
}

#[test]
fn test_filter_preserves_files() {
    let input = "-rw-r--r--  1 user  staff  1234 Jan  1 12:00 file.txt\ndrwxr-xr-x  2 user  staff  64 Jan  1 12:00 dir\n";
    let output = filter_ls_output(input, false);
    assert!(output.contains("file.txt"));
    assert!(output.contains("dir"));
}

#[test]
fn test_filter_handles_empty() {
    let input = "";
    let output = filter_ls_output(input, false);
    assert_eq!(output, "\n");
}

#[test]
fn test_summary_generation() {
    let lines: Vec<String> = vec![
        "-rw-r--r--  1 user  staff  1234 Jan  1 12:00 file.rs".to_string(),
        "-rw-r--r--  1 user  staff  1234 Jan  1 12:00 main.rs".to_string(),
        "-rw-r--r--  1 user  staff  1234 Jan  1 12:00 lib.rs".to_string(),
        "-rw-r--r--  1 user  staff  1234 Jan  1 12:00 Cargo.toml".to_string(),
        "-rw-r--r--  1 user  staff  1234 Jan  1 12:00 README.md".to_string(),
        "drwxr-xr-x  2 user  staff    64 Jan  1 12:00 src".to_string(),
    ];
    let summary = generate_summary(&lines);
    assert!(summary.contains("5 files"));
    assert!(summary.contains("1 dirs"));
    assert!(summary.contains(".rs"));
}

#[test]
fn test_filter_with_summary() {
    let input = "total 48\n-rw-r--r--  1 user  staff  1234 Jan  1 12:00 file.rs\n-rw-r--r--  1 user  staff  1234 Jan  1 12:00 main.rs\n";
    let output = filter_ls_output(input, false);
    assert!(!output.contains("total "));
    assert!(output.contains("file.rs"));
    assert!(output.contains("main.rs"));
    assert!(output.contains("📊"));
    assert!(output.contains("2 files"));
}

#[test]
fn test_filter_removes_noise_dirs() {
    let input = "drwxr-xr-x  2 user  staff  64 Jan  1 12:00 node_modules\n\
                 drwxr-xr-x  2 user  staff  64 Jan  1 12:00 .git\n\
                 drwxr-xr-x  2 user  staff  64 Jan  1 12:00 target\n\
                 drwxr-xr-x  2 user  staff  64 Jan  1 12:00 src\n\
                 -rw-r--r--  1 user  staff  1234 Jan  1 12:00 file.txt\n";
    let output = filter_ls_output(input, false);
    assert!(!output.contains("node_modules"));
    assert!(!output.contains(".git"));
    assert!(!output.contains("target"));
    assert!(output.contains("src"));
    assert!(output.contains("file.txt"));
}

#[test]
fn test_filter_shows_all_with_a_flag() {
    let input = "drwxr-xr-x  2 user  staff  64 Jan  1 12:00 node_modules\n\
                 drwxr-xr-x  2 user  staff  64 Jan  1 12:00 .git\n\
                 drwxr-xr-x  2 user  staff  64 Jan  1 12:00 src\n";
    let output = filter_ls_output(input, true);
    assert!(output.contains("node_modules"));
    assert!(output.contains(".git"));
    assert!(output.contains("src"));
}

#[test]
fn test_filter_removes_pycache() {
    let input = "drwxr-xr-x  2 user  staff  64 Jan  1 12:00 __pycache__\n\
                 -rw-r--r--  1 user  staff  1234 Jan  1 12:00 main.py\n";
    let output = filter_ls_output(input, false);
    assert!(!output.contains("__pycache__"));
    assert!(output.contains("main.py"));
}

#[test]
fn test_filter_removes_next_and_build_dirs() {
    let input = "drwxr-xr-x  2 user  staff  64 Jan  1 12:00 .next\n\
                 drwxr-xr-x  2 user  staff  64 Jan  1 12:00 dist\n\
                 drwxr-xr-x  2 user  staff  64 Jan  1 12:00 build\n\
                 drwxr-xr-x  2 user  staff  64 Jan  1 12:00 src\n";
    let output = filter_ls_output(input, false);
    assert!(!output.contains(".next"));
    assert!(!output.contains("dist"));
    assert!(!output.contains("build"));
    assert!(output.contains("src"));
}
