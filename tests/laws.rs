use cargo_pretty_test::parsing::{
    parse_cargo_test, parse_cargo_test_with_empty_ones, parse_stderr, parse_stdout, Stats,
};
use cargo_pretty_test::prettify::make_pretty;

const ERR: &str = "\
    Finished test target(s) in 0.00s
     Running unittests src/lib.rs (target/debug/deps/alpha-0123456789abcdef)
     Running tests/one.rs (target/debug/deps/one-0123456789abcdef)
     Running unittests src/lib.rs (target/debug/deps/beta-0123456789abcdef)
     Running tests/two.rs (target/debug/deps/two-0123456789abcdef)
   Doc-tests alpha
";

const OUT: &str = "\
running 1 test
test a ... ok

test result: ok. 1 passed; 0 failed; 0 ignored; 0 measured; 0 filtered out; finished in 0.01s

running 0 tests

test result: ok. 0 passed; 0 failed; 0 ignored; 0 measured; 0 filtered out; finished in 0.00s

running 2 tests
test x::y ... ok
test x::z ... FAILED

test result: FAILED. 1 passed; 1 failed; 0 ignored; 0 measured; 0 filtered out; finished in 0.02s

running 1 test
test t ... ok

test result: ok. 1 passed; 0 failed; 0 ignored; 0 measured; 0 filtered out; finished in 0.03s

running 1 test
test src/lib.rs - (line 1) ... ok

test result: ok. 1 passed; 0 failed; 0 ignored; 0 measured; 0 filtered out; finished in 0.04s
";

#[test]
fn surviving_runners_match_nonempty_blocks() {
    let pairs = parse_cargo_test_with_empty_ones(ERR, OUT).unwrap();
    let nonempty = pairs.iter().filter(|(_, i)| i.stats.total > 0).count();
    let runners = parse_cargo_test(ERR, OUT).unwrap();
    let kept: usize = runners.pkgs.values().map(|g| g.inner.len()).sum();
    assert_eq!(nonempty, 4);
    assert_eq!(kept, nonempty);
    let labels: Vec<Option<&str>> = runners.pkgs.keys().map(|k| k.as_deref()).collect();
    assert_eq!(labels, vec![Some("alpha"), Some("beta"), Some("Doc Tests")]);
    let beta = &runners.pkgs[&Some("beta".to_string())];
    assert_eq!(beta.inner.len(), 2);
    assert_eq!(beta.stats.total, 3);
    assert!(!beta.stats.ok);
    assert_eq!(beta.stats.finished_in, 50_000_000);
}

#[test]
fn merge_in_any_order() {
    let a = Stats { ok: true, total: 1, passed: 1, failed: 0, ignored: 0, measured: 0, filtered_out: 0, finished_in: 10 };
    let b = Stats { ok: false, total: 2, passed: 1, failed: 1, ignored: 0, measured: 1, filtered_out: 3, finished_in: 20 };
    let c = Stats { ok: true, total: 4, passed: 3, failed: 0, ignored: 1, measured: 0, filtered_out: 0, finished_in: 30 };
    assert_eq!(a.merge(&b), b.merge(&a));
    assert_eq!(a.merge(&b).merge(&c), a.merge(&b.merge(&c)));
    let all = c.merge(&a).merge(&b);
    assert_eq!(all.total, 7);
    assert_eq!(all.passed, 5);
    assert_eq!(all.failed, 1);
    assert_eq!(all.finished_in, 60);
    assert!(!all.ok);
    assert!(a.merge(&c).ok);
    assert_eq!(Stats::default().merge(&a), a);
    let mut d = a;
    d.absorb(&c);
    assert_eq!(d, a.merge(&c));
    let big = Stats { ok: true, total: u32::MAX, passed: 0, failed: 0, ignored: 0, measured: 0, filtered_out: 0, finished_in: u64::MAX };
    assert_eq!(big.merge(&a).total, u32::MAX);
    assert_eq!(big.merge(&a).finished_in, u64::MAX);
}

#[test]
fn reordered_lines_sort_the_same() {
    colored::control::set_override(false);
    let one = "running 3 tests\ntest b::y ... ok\ntest a ... FAILED\ntest b::x ... ignored\n\ntest result: FAILED. 1 passed; 1 failed; 1 ignored; 0 measured; 0 filtered out; finished in 0.00s\n";
    let two = "running 3 tests\ntest a ... FAILED\ntest b::x ... ignored\ntest b::y ... ok\n\ntest result: FAILED. 1 passed; 1 failed; 1 ignored; 0 measured; 0 filtered out; finished in 0.00s\n";
    let first_parse = parse_stdout(one).unwrap();
    let second_parse = parse_stdout(two).unwrap();
    assert_eq!(first_parse[0].parsed.tree, second_parse[0].parsed.tree);
    let l1: Vec<&str> = first_parse[0].parsed.tree.iter().map(|s| s.as_str()).collect();
    let l2: Vec<&str> = second_parse[0].parsed.tree.iter().map(|s| s.as_str()).collect();
    assert_eq!(
        make_pretty("t", &l1).unwrap().to_string(),
        make_pretty("t", &l2).unwrap().to_string()
    );
}

#[test]
fn classification_twice_is_equal() {
    let first = parse_stderr(ERR).unwrap();
    let second = parse_stderr(ERR).unwrap();
    assert_eq!(first, second);
}

#[test]
fn permuted_outcome_lines_draw_the_same() {
    colored::control::set_override(false);
    let one = vec!["test b::y ... ok", "test a ... FAILED", "test b::x ... ignored", "test c::d::e ... ok"];
    let two = vec!["test c::d::e ... ok", "test b::x ... ignored", "test a ... FAILED", "test b::y ... ok"];
    let t1 = make_pretty("t", &one).unwrap().to_string();
    let t2 = make_pretty("t", &two).unwrap().to_string();
    assert_eq!(t1, t2);
    assert_eq!(t1, "t\n├─ ❌ a\n├── b\n│   ├─ 🔕 x\n│   └─ ✅ y\n└── c\n    └── d\n        └─ ✅ e\n");
}
