use cmdscript::ast::Condition;
use cmdscript::env::Environment;

fn s(text: &str) -> String {
    text.to_string()
}

fn cond(left: &str, op: &str, right: &str) -> Condition {
    Condition { left: s(left), op: s(op), right: s(right) }
}

#[test]
fn new_environment_binds_nothing() {
    let env = Environment::new();
    assert_eq!(env.get("x"), None);
    assert_eq!(env.expand("$x and $y"), "$x and $y");
}

#[test]
fn set_then_get_returns_the_value() {
    let mut env = Environment::new();
    env.set(s("name"), s("value"));
    assert_eq!(env.get("name"), Some(s("value")));
    assert_eq!(env.get("other"), None);
}

#[test]
fn last_write_wins() {
    let mut env = Environment::new();
    env.set(s("x"), s("1"));
    env.set(s("y"), s("keep"));
    env.set(s("x"), s("2"));
    assert_eq!(env.get("x"), Some(s("2")));
    assert_eq!(env.get("y"), Some(s("keep")));
    assert_eq!(env.expand("$x"), "2");
}

#[test]
fn expand_replaces_every_occurrence() {
    let mut env = Environment::new();
    env.set(s("x"), s("ab"));
    assert_eq!(env.expand("$x-$x-$x"), "ab-ab-ab");
    assert_eq!(env.expand("x $ x"), "x $ x");
    assert_eq!(env.expand(""), "");
}

#[test]
fn expand_replaces_every_bound_name() {
    let mut env = Environment::new();
    env.set(s("target"), s("release"));
    env.set(s("jobs"), s("4"));
    assert_eq!(env.expand("build --$target -j$jobs"), "build --release -j4");
}

#[test]
fn expand_leaves_unbound_names_literal() {
    let env = Environment::new();
    assert_eq!(env.expand("$missing value"), "$missing value");
    let mut env = Environment::new();
    env.set(s("other"), s("1"));
    assert_eq!(env.expand("$missing value"), "$missing value");
}

#[test]
fn expand_takes_the_longer_name_first() {
    let mut env = Environment::new();
    env.set(s("a"), s("1"));
    env.set(s("ab"), s("2"));
    assert_eq!(env.expand("$ab $a"), "2 1");

    let mut env = Environment::new();
    env.set(s("ab"), s("2"));
    env.set(s("a"), s("1"));
    assert_eq!(env.expand("$ab $a"), "2 1");
}

#[test]
fn expand_takes_equally_long_names_in_order_of_binding() {
    let mut env = Environment::new();
    env.set(s("a"), s("$b"));
    env.set(s("b"), s("x"));
    assert_eq!(env.expand("$a"), "x");

    let mut env = Environment::new();
    env.set(s("b"), s("x"));
    env.set(s("a"), s("$b"));
    assert_eq!(env.expand("$a"), "$b");
}

#[test]
fn expand_does_not_rescan_a_replacement() {
    let mut env = Environment::new();
    env.set(s("x"), s("$x!"));
    assert_eq!(env.expand("$x"), "$x!");
}

#[test]
fn condition_equal() {
    let env = Environment::new();
    assert!(env.eval_condition(&cond("a", "==", "a")));
    assert!(!env.eval_condition(&cond("a", "==", "b")));
}

#[test]
fn condition_not_equal() {
    let env = Environment::new();
    assert!(env.eval_condition(&cond("a", "!=", "b")));
    assert!(!env.eval_condition(&cond("a", "!=", "a")));
}

#[test]
fn condition_greater_is_lexicographic() {
    let env = Environment::new();
    assert!(env.eval_condition(&cond("b", ">", "a")));
    assert!(!env.eval_condition(&cond("a", ">", "b")));
    assert!(!env.eval_condition(&cond("a", ">", "a")));
    assert!(env.eval_condition(&cond("9", ">", "10")));
    assert!(env.eval_condition(&cond("ab", ">", "a")));
}

#[test]
fn condition_less_is_lexicographic() {
    let env = Environment::new();
    assert!(env.eval_condition(&cond("a", "<", "b")));
    assert!(!env.eval_condition(&cond("b", "<", "a")));
    assert!(!env.eval_condition(&cond("a", "<", "a")));
    assert!(env.eval_condition(&cond("10", "<", "9")));
    assert!(env.eval_condition(&cond("", "<", "a")));
    assert!(env.eval_condition(&cond("abc", "<", "abd")));
    assert!(env.eval_condition(&cond("z", "<", "é")));
}

#[test]
fn condition_with_unknown_operator_is_false() {
    let env = Environment::new();
    assert!(!env.eval_condition(&cond("a", ">=", "a")));
    assert!(!env.eval_condition(&cond("a", "=", "a")));
    assert!(!env.eval_condition(&cond("a", "", "a")));
}

#[test]
fn condition_expands_both_operands() {
    let mut env = Environment::new();
    env.set(s("mode"), s("fast"));
    assert!(env.eval_condition(&cond("$mode", "==", "fast")));
    assert!(env.eval_condition(&cond("fast", "==", "$mode")));
    assert!(env.eval_condition(&cond("$mode", "!=", "slow")));
    assert!(env.eval_condition(&cond("$unset", "==", "$unset")));
}

#[test]
fn cloned_environment_is_independent() {
    let mut env = Environment::new();
    env.set(s("x"), s("1"));
    let copy = env.clone();
    env.set(s("x"), s("2"));
    assert_eq!(copy.get("x"), Some(s("1")));
    assert_eq!(env.get("x"), Some(s("2")));
}
