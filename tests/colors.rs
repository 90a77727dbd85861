use cargo_pretty_test::parsing::Stats;
use cargo_pretty_test::prettify::Status;
use cargo_pretty_test::summary::status;

#[test]
fn colours_when_forced_on() {
    colored::control::set_override(true);
    assert_eq!(Status::Failed.set_color("x"), "\x1b[31mx\x1b[0m");
    assert_eq!(Status::Ignored.set_color("x"), "\x1b[90mx\x1b[0m");
    assert_eq!(Status::Pass.set_color("x"), "x");
    assert_eq!(status(true), "\x1b[1;32mOK\x1b[0m");
    assert_eq!(status(false), "\x1b[1;31mFAIL\x1b[0m");
    let s = Stats {
        ok: true,
        total: 1,
        passed: 1,
        failed: 0,
        ignored: 0,
        measured: 0,
        filtered_out: 0,
        finished_in: 0,
    };
    assert_eq!(
        s.root_string("pkg"),
        "(\x1b[1;32mOK\x1b[0m) \x1b[1;34mpkg\x1b[0m ... (\x1b[1m1 tests in 0.00s: ✅ 1\x1b[0m)"
    );
    colored::control::set_override(false);
    assert_eq!(Status::Failed.set_color("x"), "x");
}
