use cargo_pretty_test::prettify::{make_pretty, Status};

#[test]
fn works() {
    colored::control::set_override(false);
    let lines = vec!["test works ... ok"];
    let tree = make_pretty("test", &lines).unwrap();
    assert_eq!(tree.to_string(), "test\n└─ ✅ works\n");
}

#[test]
fn panicked() {
    colored::control::set_override(false);
    assert_eq!(Status::new("FAILED"), Status::Failed);
    let lines = vec!["test submod::panic::panicked ... FAILED"];
    let tree = make_pretty("test", &lines).unwrap();
    assert_eq!(
        tree.to_string(),
        "test\n└── submod\n    └── panic\n        └─ ❌ panicked\n"
    );
}

#[test]
fn normal_test() {
    colored::control::set_override(false);
    let lines = vec!["test submod::normal_test ... ok"];
    let tree = make_pretty("test", &lines).unwrap();
    assert_eq!(tree.to_string(), "test\n└── submod\n    └─ ✅ normal_test\n");
}
