use semble::digest::{
    detect, digest, digest_cargo, digest_ci, digest_compiler, digest_go_test, digest_gradle,
    digest_mypy, digest_pnpm, digest_pytest, digest_ruff, digest_tsc, Format,
};

#[test]
fn cargo_strips_compile_lines() {
    let input = "   Compiling foo v1.0\n   Compiling bar v2.0\n    Finished `release` profile [optimized] target(s) in 5s\n";
    let out = digest_cargo(input);
    assert!(out.contains("Finished"));
    assert!(!out.contains("Compiling foo"));
}

#[test]
fn cargo_test_collapses_passing() {
    let input = "running 3 tests\ntest a ... ok\ntest b ... ok\ntest c ... ok\n\ntest result: ok. 3 passed; 0 failed; 0 ignored\n";
    let out = digest_cargo(input);
    assert!(out.contains("3 passing tests stripped"));
    assert!(out.contains("test result: ok"));
}

#[test]
fn tsc_groups_by_code() {
    let input = "src/a.ts(1,1): error TS2322: Type 'string' is not assignable to type 'number'.\n\
                 src/a.ts(2,1): error TS2322: Type 'number' is not assignable to type 'string'.\n\
                 src/b.ts(3,1): error TS2345: Argument of type 'string'.\n";
    let out = digest_tsc(input);
    assert!(out.contains("3 total"));
    assert!(out.contains("[TS2322] 2 errors"));
    assert!(out.contains("[TS2345] 1 errors"));
}

#[test]
fn ci_collapses_ok_groups_and_keeps_failed() {
    let input = "##[group]Setup\nFoo\nBar\n##[endgroup]\n\
                 ##[group]Build\nworking ...\nerror: build failed\n##[endgroup]\n";
    let out = digest_ci(input);
    assert!(out.contains("[ok] Setup"));
    assert!(out.contains("FAILED GROUP: Build"));
    assert!(out.contains("error: build failed"));
}

#[test]
fn ci_strips_gha_timestamp_prefix() {
    let input = "job1\tstep1\t2024-01-01T00:00:00.0000000Z hello world\n";
    let out = digest_ci(input);
    assert!(out.contains("hello world"));
    assert!(!out.contains("2024-01-01"));
}

#[test]
fn detect_picks_cargo() {
    assert_eq!(detect("   Compiling foo v1.0\n"), Format::Cargo);
}

#[test]
fn detect_picks_ci() {
    assert_eq!(detect("##[group]Setup\nFoo\n"), Format::Ci);
}

#[test]
fn detect_picks_tsc() {
    assert_eq!(detect("src/a.ts(1,1): error TS2322: Type ..."), Format::Tsc);
}

#[test]
fn detect_unknown_returns_text() {
    let input = "just some random text\nnot any tool";
    assert_eq!(detect(input), Format::Unknown);
    // digest with Unknown preserves input
    let out = digest(input, Format::Unknown);
    assert!(out.contains("just some random text"));
}

#[test]
fn cargo_strips_ansi_escape_codes() {
    let input = "\x1b[31m   Compiling foo v1.0\x1b[0m\n\x1b[32m    Finished `release` profile in 5s\x1b[0m\n";
    let out = digest_cargo(input);
    assert!(!out.contains("\x1b"), "ANSI not stripped: {out:?}");
    assert!(out.contains("Finished"));
    assert!(!out.contains("Compiling foo"));
}

#[test]
fn pnpm_collapses_deprecation_warnings() {
    let input = "warn deprecated foo@1.0\nwarn deprecated foo@1.0\nwarn deprecated bar@2.0\n+ react 18.0\n";
    let out = digest_pnpm(input);
    assert!(out.contains("deprecated packages"));
    assert!(out.contains("foo"));
    assert!(out.contains("bar"));
    assert!(out.contains("react 18.0"));
}

#[test]
fn ci_handles_unclosed_group() {
    let input = "##[group]Unfinished\nworking\nworking more\nerror: build failed mid-stream\n";
    let out = digest_ci(input);
    assert!(out.contains("Unfinished"));
    assert!(out.contains("error: build failed"));
    assert!(out.contains("still open"));
}

#[test]
fn digest_via_dispatch_picks_handler() {
    let cargo_input = "   Compiling foo v1.0\n    Finished `release` in 5s\n";
    let out = digest(cargo_input, Format::Cargo);
    assert!(out.contains("Finished"));
    assert!(!out.contains("Compiling foo"));
}

#[test]
fn detect_picks_pnpm_via_npm_warn() {
    assert_eq!(detect("npm warn deprecated x@1\n"), Format::Pnpm);
}

#[test]
fn detect_picks_pytest() {
    let s = "test session starts\ntest_x.py::test_y FAILED\nFAILED test_x.py::test_y\n=== 1 failed in 0.01s ===\n";
    assert_eq!(detect(s), Format::Pytest);
}

#[test]
fn ci_handles_real_gha_log_format() {
    // simulates gh run view --log-failed prefix
    let input = "PR - x\trun the build\t\u{feff}2026-05-14T09:20:49.4757960Z ##[group]Run set +e\n\
                 PR - x\trun the build\t2026-05-14T09:20:49.4758449Z working\n\
                 PR - x\trun the build\t2026-05-14T09:20:49.4759411Z ##[endgroup]\n\
                 PR - x\trun the build\t2026-05-14T09:56:05.7508664Z ##[error]Process completed with exit code 1.\n";
    let out = digest_ci(input);
    assert!(out.contains("[ok] Run set +e"));
    assert!(out.contains("##[error]Process completed"));
    assert!(!out.contains("2026-05-14T"));
    assert!(!out.contains("PR - x"));
}

#[test]
fn format_parse_aliases() {
    assert_eq!(Format::parse("rust"), Some(Format::Cargo));
    assert_eq!(Format::parse("npm"), Some(Format::Pnpm));
    assert_eq!(Format::parse("yarn"), Some(Format::Pnpm));
    assert_eq!(Format::parse("bun"), Some(Format::Pnpm));
    assert_eq!(Format::parse("github-actions"), Some(Format::Ci));
    assert_eq!(Format::parse("typescript"), Some(Format::Tsc));
    assert_eq!(Format::parse("python"), Some(Format::Pytest));
    assert_eq!(Format::parse("go-test"), Some(Format::GoTest));
    assert_eq!(Format::parse("gradle"), Some(Format::Gradle));
    assert_eq!(Format::parse("ruff"), Some(Format::Ruff));
    assert_eq!(Format::parse("mypy"), Some(Format::Mypy));
    assert_eq!(Format::parse("clang"), Some(Format::Compiler));
    assert_eq!(Format::parse("swift"), Some(Format::Compiler));
    assert_eq!(Format::parse("nonexistent"), None);
}

// ----- go test handler -----

#[test]
fn go_strips_run_and_counts_pass() {
    let input = "=== RUN   TestA\n--- PASS: TestA (0.00s)\n=== RUN   TestB\n    foo.go:1: oops\n--- FAIL: TestB (0.00s)\nFAIL\tpkg\t0.1s\nFAIL\n";
    let out = digest_go_test(input);
    assert!(out.contains("1 passing tests stripped"));
    assert!(out.contains("--- FAIL: TestB"));
    assert!(out.contains("foo.go:1: oops"));
    assert!(!out.contains("=== RUN"));
}

#[test]
fn go_strips_framework_stack_frames() {
    let input = "panic: divide by zero\ngoroutine 6 [running]:\ntesting.tRunner.func1(0x123)\n\t/opt/homebrew/Cellar/go/1.25/libexec/src/testing/testing.go:1872 +0x190\nmypkg.Foo()\n\t/tmp/proj/foo.go:5 +0x20\nFAIL\tpkg\t0.1s\n";
    let out = digest_go_test(input);
    assert!(out.contains("panic: divide by zero"));
    assert!(out.contains("mypkg.Foo()"));
    assert!(out.contains("/tmp/proj/foo.go:5"));
    assert!(!out.contains("testing.tRunner"));
}

#[test]
fn detect_picks_go_test() {
    let input = "=== RUN   TestFoo\n--- PASS: TestFoo (0.00s)\n";
    assert_eq!(detect(input), Format::GoTest);
}

// ----- gradle handler -----

#[test]
fn gradle_strips_banner_and_progress_keeps_failures() {
    let input = "Welcome to Gradle 8.14!\n\
                 \n\
                 Here are the highlights of this release:\n\
                 - foo\n\
                 - bar\n\
                 \n\
                 > Task :compileJava\n\
                 > Task :classes\n\
                 > Task :test FAILED\n\
                 \n\
                 BarTest > testAddFail FAILED\n\
                 \n\
                 BUILD FAILED in 4s\n";
    let out = digest_gradle(input);
    assert!(!out.contains("Welcome to Gradle"));
    assert!(out.contains("2 gradle tasks ok"));
    assert!(out.contains("> Task :test FAILED"));
    assert!(out.contains("BarTest > testAddFail FAILED"));
    assert!(out.contains("BUILD FAILED"));
}

#[test]
fn detect_picks_gradle() {
    assert_eq!(detect("> Task :compileJava\n"), Format::Gradle);
}

// ----- ruff handler -----

#[test]
fn ruff_groups_by_rule_code() {
    let input = "app.py:1:8: F401 [*] `os` imported but unused\n\
                 app.py:2:8: F401 [*] `sys` imported but unused\n\
                 app.py:3:8: F401 [*] `json` imported but unused\n\
                 app.py:5:5: F841 Local variable `x` is assigned but never used\n\
                 app.py:7:1: E741 Ambiguous variable name: `l`\n\
                 Found 5 errors.\n";
    let out = digest_ruff(input);
    assert!(out.contains("ruff: 5 violations, 3 unique rules"));
    assert!(out.contains("[F401] 3 violations"));
    assert!(out.contains("[F841] 1 violations"));
    assert!(out.contains("[E741] 1 violations"));
    assert!(out.contains("Found 5 errors"));
}

#[test]
fn detect_picks_ruff() {
    let input = "app.py:1:8: F401 `os` imported but unused\n";
    assert_eq!(detect(input), Format::Ruff);
}

// ----- mypy handler -----

#[test]
fn mypy_strips_install_progress() {
    let input = "Downloading mypy (13MB)\n\
                 Downloaded mypy\n\
                 Installed 6 packages in 200ms\n\
                 types.py:5: error: incompatible type\n\
                 types.py:8: error: invalid return\n\
                 Found 2 errors in 1 file\n";
    let out = digest_mypy(input);
    assert!(out.contains("install/progress lines stripped"));
    assert!(out.contains("types.py:5: error: incompatible type"));
    assert!(out.contains("types.py:8: error: invalid return"));
    assert!(out.contains("Found 2 errors"));
    assert!(!out.contains("Downloading"));
    assert!(!out.contains("Downloaded"));
}

#[test]
fn detect_picks_mypy() {
    let input = "types.py:5: error: incompatible type\n";
    assert_eq!(detect(input), Format::Mypy);
}

// ----- compiler handler -----

#[test]
fn compiler_strips_build_progress() {
    let input = "[ 50%] Building CXX object foo.cpp.o\n\
                 [100%] Linking CXX executable demo\n\
                 /tmp/proj/main.cpp:4:18: error: use of undeclared identifier 'y'\n\
                     4 |     std::cout << y << std::endl;\n\
                       |                  ^\n\
                 1 error generated.\n";
    let out = digest_compiler(input);
    assert!(out.contains("compile/link progress lines stripped"));
    assert!(out.contains("main.cpp:4:18: error: use of undeclared identifier"));
    assert!(out.contains("std::cout << y"));
    assert!(out.contains("1 error generated"));
    assert!(!out.contains("Building CXX"));
    assert!(!out.contains("Linking CXX"));
}

#[test]
fn compiler_keeps_caret_context() {
    let input = "hello.c:5:12: error: undeclared function\n\
                     5 |     return undefined_function();\n\
                       |            ^\n";
    let out = digest_compiler(input);
    assert!(out.contains("hello.c:5:12: error"));
    assert!(out.contains("return undefined_function()"));
    assert!(out.contains("^"));
}

#[test]
fn detect_picks_compiler() {
    let input = "main.cpp:4:18: error: use of undeclared identifier 'y'\n";
    assert_eq!(detect(input), Format::Compiler);
}

#[test]
fn detect_picks_compiler_from_swift_steps() {
    let input = "[1/4] Compiling DigestDemo DigestDemo.swift\n[2/4] Emitting module\n";
    assert_eq!(detect(input), Format::Compiler);
}

#[test]
fn canonical_names_parse_back() {
    let all = [
        Format::Cargo,
        Format::Pnpm,
        Format::Tsc,
        Format::Pytest,
        Format::Ci,
        Format::GoTest,
        Format::Gradle,
        Format::Ruff,
        Format::Mypy,
        Format::Compiler,
    ];
    for f in all {
        assert_eq!(Format::parse(f.as_str()), Some(f));
        assert_eq!(Format::parse(&f.as_str().to_uppercase()), Some(f));
    }
    assert_eq!(Format::parse(Format::Unknown.as_str()), None);
}

#[test]
fn unknown_format_only_trims_the_end() {
    assert_eq!(digest("  keep me  \n\n", Format::Unknown), "  keep me");
}

#[test]
fn cargo_errors_survive_the_digest() {
    let input = "   Compiling foo v0.1.0\nerror[E0308]: mismatched types\n  --> src/main.rs:2:5\ntest a ... ok\n";
    let out = digest_cargo(input);
    assert!(out.contains("error[E0308]: mismatched types"));
    assert!(out.contains("--> src/main.rs:2:5"));
    assert!(!out.contains("Compiling foo"));
}

#[test]
fn pytest_failures_survive_the_digest() {
    let input = "platform linux -- Python 3.12\ntests/test_a.py::test_ok PASSED\nFAILED tests/test_a.py::test_bad - AssertionError\n";
    let out = digest_pytest(input);
    assert!(out.contains("FAILED tests/test_a.py::test_bad - AssertionError"));
    assert!(out.contains("(1 passing tests stripped)"));
    assert!(!out.contains("platform linux"));
}

#[test]
fn mypy_diagnostics_survive_the_digest() {
    let input = "Installed 3 packages in 2ms\nsrc/a.py:3: error: Incompatible types\nFound 1 error in 1 file\n";
    let out = digest_mypy(input);
    assert!(out.contains("src/a.py:3: error: Incompatible types"));
    assert!(out.contains("Found 1 error in 1 file"));
    assert!(out.contains("(1 install/progress lines stripped)"));
}

#[test]
fn ci_failed_group_keeps_errors_before_its_tail() {
    let text = "##[group]Build\nerror: boom\n".to_string() + &"step\n".repeat(100) + "##[endgroup]\n";
    let r = digest_ci(&text);
    assert!(r.contains("FAILED GROUP: Build"));
    assert!(r.contains("error: boom"));
    assert!(r.contains("(101 lines, tail 80)"));
    assert_eq!(r.matches("step").count(), 80);
}

#[test]
fn format_names_ignore_ascii_case() {
    assert_eq!(Format::parse("GitHub-Actions"), Some(Format::Ci));
    assert_eq!(Format::parse("PyTest"), Some(Format::Pytest));
    assert_eq!(Format::parse("SwiftC"), Some(Format::Compiler));
    assert_eq!(Format::parse("CARGOX"), None);
}

#[test]
fn go_test_failures_survive_the_digest() {
    let input = "=== RUN   TestA\n--- PASS: TestA (0.00s)\n=== RUN   TestB\n    b_test.go:12: want 1, got 2\n--- FAIL: TestB (0.00s)\nFAIL\n";
    let out = digest_go_test(input);
    assert!(out.contains("b_test.go:12: want 1, got 2"));
    assert!(out.contains("--- FAIL: TestB (0.00s)"));
    assert!(!out.contains("=== RUN"));
}

#[test]
fn gradle_failures_survive_the_digest() {
    let input = "> Task :compileJava UP-TO-DATE\n> Task :test FAILED\nFooTest > bar FAILED\n    java.lang.AssertionError at FooTest.java:10\n";
    let out = digest_gradle(input);
    assert!(out.contains("> Task :test FAILED"));
    assert!(out.contains("FooTest > bar FAILED"));
    assert!(out.contains("java.lang.AssertionError at FooTest.java:10"));
    assert!(!out.contains(":compileJava"));
}

#[test]
fn compiler_diagnostics_survive_the_digest() {
    let input = "[ 50%] Building C object main.o\nmain.c:3:5: error: expected ';' after expression\n    3 |     x = 1\n      |          ^\n[100%] Built target main\n";
    let out = digest_compiler(input);
    assert!(out.contains("main.c:3:5: error: expected ';' after expression"));
    assert!(!out.contains("Built target"));
}

#[test]
fn format_names_ignore_ascii_case_beside_other_letters() {
    let kelvin_make = "ma\u{212A}e";
    assert_eq!(Format::parse(kelvin_make), Some(Format::Compiler));
    assert_eq!(Format::parse(&kelvin_make.to_ascii_uppercase()), Format::parse(kelvin_make));
    let greek = "CARGO\u{03A3}";
    assert_eq!(Format::parse(greek), None);
    assert_eq!(Format::parse(&greek.to_ascii_uppercase()), Format::parse(greek));
}
