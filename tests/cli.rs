use cargo_pretty_test::cli::{color_choice, forward_plan, SetColor};

fn strings(v: &[&str]) -> Vec<String> {
    v.iter().map(|s| s.to_string()).collect()
}

#[test]
fn colour_choice_from_flags_and_env() {
    let flag = strings(&["cargo-pretty-test", "--color", "never"]);
    assert_eq!(color_choice(&flag, Some("always")), Some(SetColor::Never));
    let joined = strings(&["cargo-pretty-test", "--color=auto"]);
    assert_eq!(color_choice(&joined, None), Some(SetColor::Auto));
    let plain = strings(&["cargo-pretty-test", "--workspace"]);
    assert_eq!(color_choice(&plain, Some("ALWAYS")), Some(SetColor::Always));
    assert_eq!(color_choice(&plain, Some("Never")), Some(SetColor::Never));
    assert_eq!(color_choice(&plain, None), Some(SetColor::Unset));
    assert_eq!(color_choice(&plain, Some("sometimes")), None);
    let bad = strings(&["cargo-pretty-test", "--colorful"]);
    assert_eq!(color_choice(&bad, None), None);
    let dangling = strings(&["cargo-pretty-test", "--color"]);
    assert_eq!(color_choice(&dangling, None), None);
}

#[test]
fn forward_plan_as_subcommand() {
    let passin = strings(&["/home/u/.cargo/bin/cargo-pretty-test", "pretty-test", "--workspace", "-h"]);
    let plan = forward_plan(&passin, SetColor::Unset);
    assert_eq!(plan.pre, strings(&["--color=always"]));
    assert_eq!(plan.args, strings(&["--workspace", "-h"]));
    assert_eq!(plan.after, strings(&["--", "--color=always"]));
    assert!(plan.help);
}

#[test]
fn forward_plan_with_dashdash() {
    let passin = strings(&["cargo-pretty-test", "--no-fail-fast", "--", "--nocapture"]);
    let plan = forward_plan(&passin, SetColor::Never);
    assert!(plan.pre.is_empty());
    assert_eq!(plan.args, strings(&["--no-fail-fast", "--"]));
    assert_eq!(plan.after, strings(&["--color=never"]));
    assert!(!plan.help);
    let quiet = strings(&["cargo-pretty-test", "--nocapture", "--lib", "--nocapture"]);
    assert_eq!(forward_plan(&quiet, SetColor::Always).args, strings(&["--lib"]));
    let auto = forward_plan(&strings(&["cargo-pretty-test"]), SetColor::Auto);
    assert!(auto.args.is_empty());
    assert_eq!(auto.after, strings(&["--", "--color=auto"]));
}
