use cargo_pretty_test::fetch::{parse_cargo_test_output, render_runners};
use cargo_pretty_test::parsing::{
    parse_cargo_test, parse_cargo_test_with_empty_ones, parse_stderr, parse_stdout, Error, Stats,
    TestType,
};
use cargo_pretty_test::prettify::{make_pretty, Status};

const BLOCK_A: &str = "\
running 4 tests
test works ... ok
test submod::normal_test ... ok
test submod::ignore ... ignored, reason
test submod::panic::panicked ... FAILED

failures:

---- submod::panic::panicked stdout ----
explicit panic

test result: FAILED. 2 passed; 1 failed; 1 ignored; 0 measured; 0 filtered out; finished in 0.00s
";

fn stats(ok: bool, passed: u32, failed: u32, ignored: u32, filtered_out: u32, nanos: u64) -> Stats {
    Stats {
        ok,
        total: passed + failed + ignored,
        passed,
        failed,
        ignored,
        measured: 0,
        filtered_out,
        finished_in: nanos,
    }
}

#[test]
fn mixed_outcomes_tree_and_stats() {
    colored::control::set_override(false);
    let infos = parse_stdout(BLOCK_A).unwrap();
    assert_eq!(infos.len(), 1);
    let info = &infos[0];
    assert_eq!(info.parsed.head, "running 4 tests");
    assert_eq!(
        info.parsed.tree,
        vec![
            "test submod::ignore ... ignored, reason",
            "test submod::normal_test ... ok",
            "test submod::panic::panicked ... FAILED",
            "test works ... ok",
        ]
    );
    assert_eq!(
        info.parsed.detail,
        "failures:\n\n---- submod::panic::panicked stdout ----\nexplicit panic"
    );
    assert_eq!(info.raw, BLOCK_A);
    assert_eq!(info.stats.total, 4);
    assert_eq!(info.stats.passed, 2);
    assert_eq!(info.stats.failed, 1);
    assert_eq!(info.stats.ignored, 1);
    assert!(!info.stats.ok);
    let lines: Vec<&str> = info.parsed.tree.iter().map(|s| s.as_str()).collect();
    let tree = make_pretty("test", &lines).unwrap();
    assert_eq!(
        tree.to_string(),
        "test\n├── submod\n│   ├─ 🔕 ignore\n│   ├─ ✅ normal_test\n│   └── panic\n│       └─ ❌ panicked\n└─ ✅ works\n"
    );
}

#[test]
fn zero_test_runner_dropped() {
    let err = "     Running unittests src/lib.rs (target/debug/deps/foo-deadbeefdeadbeef)\n";
    let out = "running 0 tests\n\ntest result: ok. 0 passed; 0 failed; 0 ignored; 0 measured; 0 filtered out; finished in 0.00s\n";
    let pairs = parse_cargo_test_with_empty_ones(err, out).unwrap();
    assert_eq!(pairs.len(), 1);
    assert_eq!(pairs[0].0.ty, TestType::UnitLib);
    assert_eq!(pairs[0].0.src.bin_name, "foo");
    let runners = parse_cargo_test(err, out).unwrap();
    assert_eq!(runners.pkgs.len(), 0);
}

#[test]
fn doc_tests_grouped() {
    colored::control::set_override(false);
    let err = "   Doc-tests my-crate\n";
    let out = "running 1 test\ntest src/lib.rs - item (line 41) ... ok\n\ntest result: ok. 1 passed; 0 failed; 0 ignored; 0 measured; 0 filtered out; finished in 0.20s\n";
    let runners = parse_cargo_test(err, out).unwrap();
    assert_eq!(runners.pkgs.len(), 1);
    let (label, group) = runners.pkgs.get_index(0).unwrap();
    assert_eq!(label.as_deref(), Some("Doc Tests"));
    assert_eq!(group.inner[0].runner.ty, TestType::Doc);
    assert_eq!(group.inner[0].runner.src.src_path, "my-crate");
    let (tree, total) = render_runners(&runners);
    assert_eq!(
        tree.to_string(),
        "Generated by cargo-pretty-test\n└── (OK) Doc Tests ... (1 tests in 0.20s: ✅ 1)\n    └── (OK) my-crate ... (1 tests in 0.20s: ✅ 1)\n        └─ ✅ src/lib.rs - item (line 41)\n"
    );
    assert_eq!(total.finished_in, 200_000_000);
}

#[test]
fn runner_block_count_mismatch() {
    let err = "     Running tests/a.rs (target/debug/deps/a-0123456789abcdef)\n     Running tests/b.rs (target/debug/deps/b-0123456789abcdef)\n";
    let out = "running 0 tests\n\ntest result: ok. 0 passed; 0 failed; 0 ignored; 0 measured; 0 filtered out; finished in 0.00s\n";
    assert_eq!(
        parse_cargo_test_output(err, out).err(),
        Some(Error::StructuralMismatch { runners: 2, blocks: 1 })
    );
}

#[test]
fn declared_count_mismatch() {
    let out = "running 3 tests\ntest a ... ok\ntest b ... ok\n\ntest result: ok. 2 passed; 0 failed; 0 ignored; 0 measured; 0 filtered out; finished in 0.00s\n";
    assert_eq!(
        parse_stdout(out).err(),
        Some(Error::CountMismatch { block: 0, declared: 3, found: 2 })
    );
}

#[test]
fn error_unclassifiable_path() {
    let err = "     Running foo/bar.rs (target/debug/deps/bar-0123456789abcdef)\n";
    assert_eq!(
        parse_stderr(err).err(),
        Some(Error::UnclassifiablePath { path: "foo/bar.rs".to_string() })
    );
}

#[test]
fn error_malformed_binary_path() {
    let err = "     Running tests/a.rs (target/debug/deps/nohash)\n";
    assert_eq!(
        parse_stderr(err).err(),
        Some(Error::MalformedBinaryPath { binary: "target/debug/deps/nohash".to_string() })
    );
    let err = "     Running examples/a.rs (build/debug/deps/a-0123)\n";
    assert_eq!(
        parse_stderr(err).err(),
        Some(Error::MalformedBinaryPath { binary: "build/debug/deps/a-0123".to_string() })
    );
}

#[test]
fn error_missing_summary() {
    let out = "running 1 test\ntest a ... ok\n";
    assert_eq!(parse_stdout(out).err(), Some(Error::MissingSummary { block: 0 }));
}

#[test]
fn error_empty_input() {
    assert_eq!(parse_stdout("").err(), Some(Error::EmptyInput));
    assert_eq!(parse_stdout("no header here\n").err(), Some(Error::EmptyInput));
}

#[test]
fn runner_kinds() {
    let err = "\
    Finished test target(s) in 0.00s
     Running unittests src/lib.rs (target/debug/deps/pkg-0123456789abcdef)
     Running unittests src/bin/tool.rs (target/debug/deps/tool-0123456789abcdef)
     Running tests/it.rs (target/release/deps/it-0123456789abcdef)
     Running examples/demo.rs (target/debug/deps/demo-0123456789abcdef)
     Running benches/speed.rs (target/debug/deps/speed-0123456789abcdef)
   Doc-tests pkg
";
    let runners = parse_stderr(err).unwrap();
    let kinds: Vec<TestType> = runners.iter().map(|r| r.ty).collect();
    assert_eq!(
        kinds,
        vec![
            TestType::UnitLib,
            TestType::UnitBin,
            TestType::Tests,
            TestType::Examples,
            TestType::Benches,
            TestType::Doc
        ]
    );
    let names: Vec<&str> = runners.iter().map(|r| r.src.bin_name.as_str()).collect();
    assert_eq!(names, vec!["pkg", "tool", "it", "demo", "speed", "pkg"]);
}

#[test]
fn outcome_line_shapes() {
    colored::control::set_override(false);
    let lines = vec![
        "test a::b - should panic ... ok",
        "test src/lib.rs - m::f (line 3) - compile fail ... FAILED",
        "test a::c ... ignored",
    ];
    let tree = make_pretty("r", &lines).unwrap();
    assert_eq!(
        tree.to_string(),
        "r\n├── a\n│   ├─ ✅ b - should panic\n│   └─ 🔕 c\n└── src/lib.rs - m\n    └─ ❌ f (line 3) - compile fail\n"
    );
    assert!(make_pretty("r", &vec!["not an outcome line"]).is_none());
    assert!(make_pretty("r", &vec!["test a ... ok ... ok"]).is_none());
}

#[test]
fn leaf_kept_over_later_branch() {
    colored::control::set_override(false);
    let lines = vec!["test a ... ok", "test a::b ... FAILED"];
    let tree = make_pretty("r", &lines).unwrap();
    assert_eq!(tree.to_string(), "r\n└─ ✅ a\n");
}

#[test]
fn status_classes() {
    assert_eq!(Status::new("ok"), Status::Pass);
    assert_eq!(Status::new("ignored, slow"), Status::Ignored);
    assert_eq!(Status::new("FAILED"), Status::Failed);
    assert_eq!(Status::new("fail"), Status::Failed);
    assert_eq!(Status::Pass.icon(), "─ ✅ ");
    assert_eq!(Status::Ignored.icon(), "─ 🔕 ");
    assert_eq!(Status::Failed.icon(), "─ ❌ ");
    assert_eq!(Status::Failed.glyph().item_indent, "─ ❌ ");
    assert_eq!(Status::Pass.glyph().last_item, "└");
}

#[test]
fn summary_formulas() {
    colored::control::set_override(false);
    let s = Stats {
        ok: false,
        total: 14,
        passed: 12,
        failed: 1,
        ignored: 1,
        measured: 0,
        filtered_out: 2,
        finished_in: 1_234_567_890,
    };
    assert_eq!(s.inlay_summary_string(), "14 tests in 1.23s: ✅ 12; ❌ 1; 🔕 1; ✂️ 2");
    assert_eq!(
        s.root_string("pkg"),
        "(FAIL) pkg ... (14 tests in 1.23s: ✅ 12; ❌ 1; 🔕 1; ✂️ 2)"
    );
    assert_eq!(
        s.subroot_string("src/lib.rs"),
        "(FAIL) src/lib.rs ... (14 tests in 1.23s: ✅ 12; ❌ 1; 🔕 1; ✂️ 2)"
    );
    assert_eq!(
        s.status_line(),
        "Status: FAIL; total 14 tests in 1.23s: 12 passed; 1 failed; 1 ignored; 0 measured; 2 filtered out"
    );
    let t = stats(true, 0, 0, 0, 0, 1_239_000_000);
    assert_eq!(t.inlay_summary_string(), "0 tests in 1.24s: ");
    let u = stats(true, 3, 0, 0, 0, 61_000_000_000);
    assert_eq!(u.inlay_summary_string(), "3 tests in 61.00s: ✅ 3");
}

#[test]
fn elapsed_time_parsing() {
    let out = "running 0 tests\n\ntest result: ok. 0 passed; 0 failed; 0 ignored; 0 measured; 5 filtered out; finished in 12.3456789012s\n";
    let infos = parse_stdout(out).unwrap();
    assert_eq!(infos[0].stats.finished_in, 12_345_678_901);
    assert_eq!(infos[0].stats.filtered_out, 5);
    assert!(infos[0].stats.ok);
}

#[test]
fn doc_runner_keeps_current_package() {
    let err = "\
    Finished test target(s) in 0.00s
     Running unittests src/lib.rs (target/debug/deps/alpha-0123456789abcdef)
   Doc-tests alpha
     Running tests/it.rs (target/debug/deps/it-0123456789abcdef)
";
    let out = "\
running 1 test
test a ... ok

test result: ok. 1 passed; 0 failed; 0 ignored; 0 measured; 0 filtered out; finished in 0.00s

running 1 test
test src/lib.rs - f (line 2) ... ok

test result: ok. 1 passed; 0 failed; 0 ignored; 0 measured; 0 filtered out; finished in 0.00s

running 1 test
test it ... ok

test result: ok. 1 passed; 0 failed; 0 ignored; 0 measured; 0 filtered out; finished in 0.00s
";
    let runners = parse_cargo_test(err, out).unwrap();
    let labels: Vec<Option<&str>> = runners.pkgs.keys().map(|k| k.as_deref()).collect();
    assert_eq!(labels, vec![Some("alpha"), Some("Doc Tests")]);
    let alpha = &runners.pkgs[&Some("alpha".to_string())];
    let paths: Vec<&str> = alpha.inner.iter().map(|d| d.runner.src.src_path.as_str()).collect();
    assert_eq!(paths, vec!["src/lib.rs", "tests/it.rs"]);
}

#[test]
fn block_text_and_header() {
    let out = "noise\nrunning 1 test\ntest a ... ok\n\ntest result: ok. 1 passed; 0 failed; 0 ignored; 0 measured; 0 filtered out; finished in 0.00s\n\nrunning 2 tests here\ntest b ... ok\ntest c ... ok\n\ntest result: ok. 2 passed; 0 failed; 0 ignored; 0 measured; 0 filtered out; finished in 0.00s";
    let infos = parse_stdout(out).unwrap();
    assert_eq!(infos.len(), 2);
    assert_eq!(
        infos[0].raw,
        "running 1 test\ntest a ... ok\n\ntest result: ok. 1 passed; 0 failed; 0 ignored; 0 measured; 0 filtered out; finished in 0.00s\n\n"
    );
    assert_eq!(
        infos[1].raw,
        "running 2 tests here\ntest b ... ok\ntest c ... ok\n\ntest result: ok. 2 passed; 0 failed; 0 ignored; 0 measured; 0 filtered out; finished in 0.00s"
    );
    assert_eq!(infos[0].parsed.head, "running 1 test");
    assert_eq!(infos[1].parsed.head, "running 2 tests");
    let single = "noise\nrunning 0 tests\n\ntest result: ok. 0 passed; 0 failed; 0 ignored; 0 measured; 0 filtered out; finished in 0.00s\n";
    assert_eq!(parse_stdout(single).unwrap()[0].raw, single);
}
