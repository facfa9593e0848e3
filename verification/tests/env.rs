use interp::{Builtin, EnvValue, Environment, Value};

fn name(s: &str) -> String {
    s.to_string()
}

fn val(n: i64) -> EnvValue {
    EnvValue::Value(Value::Integer(n))
}

#[test]
fn a_new_environment_has_an_empty_root() {
    let env = Environment::new();
    assert_eq!(env.len(), 1);
    assert_eq!(env.find(0, &name("FILE")), None);
    assert_eq!(env.find(1, &name("FILE")), None);
}

#[test]
fn open_links_a_scope_to_its_parent() {
    let mut env = Environment::new();
    assert_eq!(env.open(Some(0)), Some(1));
    assert_eq!(env.open(Some(1)), Some(2));
    assert_eq!(env.open(None), Some(3));
    assert_eq!(env.open(Some(4)), None);
    assert_eq!(env.open(Some(99)), None);
    assert_eq!(env.len(), 4);
    env.declare(0, name("x"), val(1));
    assert_eq!(env.find(2, &name("x")), Some(val(1)));
    assert_eq!(env.find(3, &name("x")), None);
}

#[test]
fn find_takes_the_nearest_binding() {
    let mut env = Environment::new();
    let child = env.open(Some(0)).unwrap();
    let grandchild = env.open(Some(child)).unwrap();
    env.declare(0, name("x"), val(1));
    env.declare(0, name("y"), val(10));
    env.declare(child, name("x"), val(2));
    assert_eq!(env.find(grandchild, &name("x")), Some(val(2)));
    assert_eq!(env.find(child, &name("x")), Some(val(2)));
    assert_eq!(env.find(0, &name("x")), Some(val(1)));
    assert_eq!(env.find(grandchild, &name("y")), Some(val(10)));
    assert_eq!(env.find(grandchild, &name("z")), None);
}

#[test]
fn declare_shadows_only_below() {
    let mut env = Environment::new();
    let a = env.open(Some(0)).unwrap();
    let b = env.open(Some(0)).unwrap();
    let below_a = env.open(Some(a)).unwrap();
    env.declare(0, name("x"), val(1));
    env.declare(a, name("x"), val(2));
    assert_eq!(env.find(a, &name("x")), Some(val(2)));
    assert_eq!(env.find(below_a, &name("x")), Some(val(2)));
    assert_eq!(env.find(b, &name("x")), Some(val(1)));
    assert_eq!(env.find(0, &name("x")), Some(val(1)));
    let later = env.open(Some(a)).unwrap();
    assert_eq!(env.find(later, &name("x")), Some(val(2)));
    env.declare(a, name("x"), val(3));
    assert_eq!(env.find(below_a, &name("x")), Some(val(3)));
    env.declare(77, name("x"), val(4));
    assert_eq!(env.len(), 5);
    assert_eq!(env.find(a, &name("x")), Some(val(3)));
}

#[test]
fn replace_changes_the_nearest_holder() {
    let mut env = Environment::new();
    let a = env.open(Some(0)).unwrap();
    let b = env.open(Some(0)).unwrap();
    let below_a = env.open(Some(a)).unwrap();
    env.declare(0, name("x"), val(1));
    assert!(env.replace(below_a, name("x"), val(5)));
    assert_eq!(env.find(0, &name("x")), Some(val(5)));
    assert_eq!(env.find(b, &name("x")), Some(val(5)));
    env.declare(a, name("x"), val(2));
    assert!(env.replace(below_a, name("x"), val(6)));
    assert_eq!(env.find(a, &name("x")), Some(val(6)));
    assert_eq!(env.find(0, &name("x")), Some(val(5)));
    assert_eq!(env.find(b, &name("x")), Some(val(5)));
    assert!(!env.replace(below_a, name("nowhere"), val(7)));
    assert_eq!(env.find(below_a, &name("nowhere")), None);
    assert!(!env.replace(0, name("only_in_a"), val(7)));
    assert!(!env.replace(50, name("x"), val(7)));
}

#[test]
fn merge_copies_and_overwrites() {
    let mut env = Environment::new();
    let from = env.open(None).unwrap();
    env.declare(0, name("kept"), val(1));
    env.declare(0, name("both"), val(2));
    env.declare(from, name("both"), val(20));
    env.declare(from, name("new"), val(30));
    env.merge(0, from);
    assert_eq!(env.find(0, &name("kept")), Some(val(1)));
    assert_eq!(env.find(0, &name("both")), Some(val(20)));
    assert_eq!(env.find(0, &name("new")), Some(val(30)));
    assert_eq!(env.find(from, &name("kept")), None);
    env.merge(0, from);
    assert_eq!(env.find(0, &name("both")), Some(val(20)));
    env.merge(0, 0);
    env.merge(0, 9);
    env.merge(9, 0);
    assert_eq!(env.find(0, &name("new")), Some(val(30)));
    assert_eq!(env.len(), 2);
}

#[test]
fn populate_default_keeps_other_names() {
    let mut env = Environment::new();
    env.declare(0, name("mine"), val(1));
    env.declare(0, name("len"), val(2));
    env.declare(0, name("FILE"), EnvValue::Value(Value::Str(name("here"))));
    env.populate_default(0);
    assert_eq!(env.find(0, &name("mine")), Some(val(1)));
    assert_eq!(env.find(0, &name("len")), Some(EnvValue::EnvCode(Builtin::Len)));
    assert_eq!(env.find(0, &name("FILE")), Some(EnvValue::Value(Value::Str(name("")))));
    env.populate_default(4);
    assert_eq!(env.len(), 1);
}

#[test]
fn native_procedures_are_equal_by_identity() {
    assert_eq!(EnvValue::EnvCode(Builtin::Add), EnvValue::EnvCode(Builtin::Add));
    assert_ne!(EnvValue::EnvCode(Builtin::Add), EnvValue::EnvCode(Builtin::Equal));
    assert_eq!(EnvValue::EnvCode(Builtin::Get).copy(), EnvValue::EnvCode(Builtin::Get));
    assert_eq!(val(3).copy(), val(3));
}
