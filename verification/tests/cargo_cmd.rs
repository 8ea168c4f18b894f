use rtk::filter_cargo_build;
use rtk::filter_cargo_clippy;
use rtk::filter_cargo_test;

#[test]
fn test_filter_cargo_build_success() {
    let output = r#"   Compiling libc v0.2.153
   Compiling cfg-if v1.0.0
   Compiling rtk v0.5.0
    Finished dev [unoptimized + debuginfo] target(s) in 15.23s
"#;
    let result = filter_cargo_build(output);
    assert!(result.contains("✓ cargo build"));
    assert!(result.contains("3 crates compiled"));
}

#[test]
fn test_filter_cargo_build_errors() {
    let output = r#"   Compiling rtk v0.5.0
error[E0308]: mismatched types
 --> src/main.rs:10:5
  |
10|     "hello"
  |     ^^^^^^^ expected `i32`, found `&str`

error: aborting due to 1 previous error
"#;
    let result = filter_cargo_build(output);
    assert!(result.contains("1 errors"));
    assert!(result.contains("E0308"));
    assert!(result.contains("mismatched types"));
}

#[test]
fn test_filter_cargo_test_all_pass() {
    let output = r#"   Compiling rtk v0.5.0
    Finished test [unoptimized + debuginfo] target(s) in 2.53s
     Running target/debug/deps/rtk-abc123

running 15 tests
test utils::tests::test_truncate_short_string ... ok
test utils::tests::test_truncate_long_string ... ok
test utils::tests::test_strip_ansi_simple ... ok

test result: ok. 15 passed; 0 failed; 0 ignored; 0 measured; 0 filtered out; finished in 0.01s
"#;
    let result = filter_cargo_test(output);
    assert!(result.contains("✓ test result: ok. 15 passed"));
    assert!(!result.contains("Compiling"));
    assert!(!result.contains("test utils"));
}

#[test]
fn test_filter_cargo_test_failures() {
    let output = r#"running 5 tests
test foo::test_a ... ok
test foo::test_b ... FAILED
test foo::test_c ... ok

failures:

---- foo::test_b stdout ----
thread 'foo::test_b' panicked at 'assert_eq!(1, 2)'

failures:
    foo::test_b

test result: FAILED. 4 passed; 1 failed; 0 ignored; 0 measured; 0 filtered out
"#;
    let result = filter_cargo_test(output);
    assert!(result.contains("FAILURES"));
    assert!(result.contains("test_b"));
    assert!(result.contains("test result:"));
}

#[test]
fn test_filter_cargo_clippy_clean() {
    let output = r#"    Checking rtk v0.5.0
    Finished dev [unoptimized + debuginfo] target(s) in 1.53s
"#;
    let result = filter_cargo_clippy(output);
    assert!(result.contains("✓ cargo clippy: No issues found"));
}

#[test]
fn test_filter_cargo_clippy_warnings() {
    let output = r#"    Checking rtk v0.5.0
warning: unused variable: `x` [unused_variables]
 --> src/main.rs:10:9
  |
10|     let x = 5;
  |         ^ help: if this is intentional, prefix it with an underscore: `_x`

warning: this function has too many arguments [clippy::too_many_arguments]
 --> src/git.rs:16:1
  |
16| pub fn run(a: i32, b: i32, c: i32, d: i32, e: i32, f: i32, g: i32, h: i32) {}
  |

warning: `rtk` (bin) generated 2 warnings
    Finished dev [unoptimized + debuginfo] target(s) in 1.53s
"#;
    let result = filter_cargo_clippy(output);
    assert!(result.contains("0 errors, 2 warnings"));
    assert!(result.contains("unused_variables"));
    assert!(result.contains("clippy::too_many_arguments"));
}
