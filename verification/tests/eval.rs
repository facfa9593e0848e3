use interp::builtins;
use interp::call::{bind, Binding};
use interp::interp::{call, classify, define, ifexpr, importexpr, run_module, DEPTH_LIMIT};
use interp::semantics::Form;
use interp::value::copy_all;
use interp::{Builtin, EnvValue, Environment, Error, ErrorKind, Host, InterpMode, Interpreter, Value};

struct TestHost {
    modules: Vec<(String, Vec<Value>)>,
    loads: Vec<String>,
    rewrites: usize,
    refuse: bool,
}

impl TestHost {
    fn new() -> TestHost {
        TestHost { modules: Vec::new(), loads: Vec::new(), rewrites: 0, refuse: false }
    }
}

impl Host for TestHost {
    fn float_add(&mut self, a: u64, b: u64) -> u64 {
        (f64::from_bits(a) + f64::from_bits(b)).to_bits()
    }

    fn float_from_int(&mut self, n: i64) -> u64 {
        (n as f64).to_bits()
    }

    fn float_text(&mut self, bits: u64) -> String {
        format!("{}", f64::from_bits(bits))
    }

    fn load(&mut self, path: &String) -> Option<Vec<Value>> {
        self.loads.push(path.clone());
        for (name, forms) in self.modules.iter() {
            if name == path {
                return Some(copy_all(forms));
            }
        }
        None
    }

    fn optimize(&mut self, program: Vec<Value>) -> Option<Vec<Value>> {
        self.rewrites += 1;
        if self.refuse {
            None
        } else {
            Some(program)
        }
    }
}

fn num(n: i64) -> Value {
    Value::Integer(n)
}

fn float(x: f64) -> Value {
    Value::Float(x.to_bits())
}

fn text(s: &str) -> Value {
    Value::Str(s.to_string())
}

fn id(s: &str) -> Value {
    Value::Ident(s.to_string())
}

fn sx(op: &str, operands: Vec<Value>) -> Value {
    Value::Sexpr { op: op.to_string(), operands }
}

fn arr(items: Vec<Value>) -> Value {
    Value::Array(items)
}

fn root() -> Environment {
    let mut env = Environment::new();
    env.populate_default(0);
    env
}

struct Run {
    env: Environment,
    stack: Vec<Value>,
    out: String,
    host: TestHost,
}

impl Run {
    fn new() -> Run {
        Run { env: root(), stack: Vec::new(), out: String::new(), host: TestHost::new() }
    }

    fn eval_in(&mut self, scope: usize, node: &Value) -> Result<Value, Error> {
        let before = self.stack.len();
        let r = Interpreter::execute_node(
            &mut self.env,
            scope,
            &mut self.stack,
            node,
            &mut self.out,
            &mut self.host,
            DEPTH_LIMIT,
        );
        match r {
            Ok(()) => {
                assert_eq!(self.stack.len(), before + 1);
                Ok(self.stack.pop().unwrap())
            }
            Err(e) => {
                self.stack.truncate(before);
                Err(e)
            }
        }
    }

    fn eval(&mut self, node: &Value) -> Result<Value, Error> {
        self.eval_in(0, node)
    }
}

fn name(s: &str) -> String {
    s.to_string()
}

#[test]
fn rest_parameter_scenario_gives_four() {
    let mut run = Run::new();
    let define_x = sx(
        "define",
        vec![
            id("x"),
            sx("fn", vec![arr(vec![id("a"), id("b...")]), sx("+", vec![id("a"), sx("len", vec![id("b")])])]),
        ],
    );
    assert!(matches!(run.eval(&define_x), Ok(Value::Code { .. })));
    let r = run.eval(&sx("x", vec![num(1), num(2), num(3), num(4)]));
    assert_eq!(r, Ok(num(4)));
}

#[test]
fn set_last_then_get_scenario() {
    let mut run = Run::new();
    run.env.declare(0, name("a"), EnvValue::Value(arr(vec![num(1), num(2), num(3)])));
    assert_eq!(run.eval(&sx("set", vec![id("a"), num(-1), num(9)])), Ok(Value::Nil));
    assert_eq!(run.eval(&sx("get", vec![id("a"), num(2)])), Ok(num(9)));
    assert_eq!(run.eval(&id("a")), Ok(arr(vec![num(1), num(2), num(9)])));
}

#[test]
fn if_prints_only_the_chosen_branch() {
    let mut run = Run::new();
    let form = sx(
        "if",
        vec![
            sx("=", vec![num(1), num(1)]),
            sx("print", vec![text("yes\\n")]),
            sx("print", vec![text("no\\n")]),
        ],
    );
    assert_eq!(run.eval(&form), Ok(num(0)));
    assert_eq!(run.out, "yes\n");
}

#[test]
fn if_false_takes_the_else_branch_or_nil() {
    let mut run = Run::new();
    let form = sx("if", vec![Value::Boolean(false), num(1), num(2)]);
    assert_eq!(run.eval(&form), Ok(num(2)));
    let form = sx("if", vec![Value::Boolean(false), num(1)]);
    assert_eq!(run.eval(&form), Ok(Value::Nil));
    let form = sx("if", vec![Value::Boolean(true), num(1)]);
    assert_eq!(run.eval(&form), Ok(num(1)));
    assert!(run.stack.is_empty());
}

#[test]
fn if_checks_its_operands() {
    let mut run = Run::new();
    assert_eq!(
        run.eval(&sx("if", vec![Value::Boolean(true)])),
        Err(Error::WrongCount { procedure: Builtin::If, given: 1 })
    );
    assert_eq!(
        run.eval(&sx("if", vec![Value::Boolean(true), num(1), num(2), num(3)])),
        Err(Error::WrongCount { procedure: Builtin::If, given: 4 })
    );
    assert_eq!(
        run.eval(&sx("if", vec![num(1), num(1), num(2)])),
        Err(Error::WrongType { procedure: Builtin::If, operand: 0 })
    );
    let mut stack = Vec::new();
    let r = ifexpr(
        &mut run.env,
        0,
        &mut stack,
        vec![Value::Boolean(true), id("nothing")],
        &mut run.out,
        &mut run.host,
        4,
    );
    assert_eq!(r, Err(Error::Unbound(name("nothing"))));
}

#[test]
fn sum_of_integers_is_exact() {
    let mut host = TestHost::new();
    assert_eq!(builtins::add(&vec![num(1), num(2), num(3)], &mut host), Ok(num(6)));
    assert_eq!(builtins::add(&vec![], &mut host), Ok(num(0)));
    assert_eq!(builtins::add(&vec![num(i64::MAX), num(1), num(-1)], &mut host), Ok(num(i64::MAX)));
    assert_eq!(builtins::add(&vec![num(i64::MIN), num(-1), num(1)], &mut host), Ok(num(i64::MIN)));
    assert_eq!(
        builtins::add(&vec![num(9007199254740993), num(0)], &mut host),
        Ok(num(9007199254740993))
    );
}

#[test]
fn sum_that_does_not_fit_fails() {
    let mut host = TestHost::new();
    assert_eq!(builtins::add(&vec![num(i64::MAX), num(1)], &mut host), Err(Error::Overflow));
    assert_eq!(builtins::add(&vec![num(i64::MIN), num(-1)], &mut host), Err(Error::Overflow));
}

#[test]
fn sum_with_a_float_is_a_float() {
    let mut host = TestHost::new();
    assert_eq!(builtins::add(&vec![num(1), float(2.5)], &mut host), Ok(float(3.5)));
    assert_eq!(builtins::add(&vec![float(0.25), float(0.5)], &mut host), Ok(float(0.75)));
    assert_eq!(builtins::add(&vec![float(1.0)], &mut host), Ok(float(1.0)));
    let mut run = Run::new();
    assert_eq!(run.eval(&sx("+", vec![float(1.5), num(2), num(3)])), Ok(float(6.5)));
    assert_eq!(run.eval(&sx("+", vec![num(1), num(2)])), Ok(num(3)));
}

#[test]
fn sum_rejects_what_is_no_number() {
    let mut host = TestHost::new();
    assert_eq!(
        builtins::add(&vec![num(1), text("2"), Value::Nil], &mut host),
        Err(Error::WrongType { procedure: Builtin::Add, operand: 1 })
    );
    assert_eq!(
        builtins::add(&vec![float(1.0), Value::Boolean(true)], &mut host),
        Err(Error::WrongType { procedure: Builtin::Add, operand: 1 })
    );
}

#[test]
fn equality_compares_with_the_first() {
    assert_eq!(builtins::equal(&vec![num(1), num(1), num(1)]), Ok(Value::Boolean(true)));
    assert_eq!(builtins::equal(&vec![num(1), num(2), num(3)]), Ok(Value::Boolean(false)));
    assert_eq!(builtins::equal(&vec![num(1), num(1), num(2)]), Ok(Value::Boolean(false)));
    assert_eq!(builtins::equal(&vec![num(1), text("1")]), Ok(Value::Boolean(false)));
    assert_eq!(builtins::equal(&vec![Value::Nil, Value::Boolean(false)]), Ok(Value::Boolean(false)));
    assert_eq!(
        builtins::equal(&vec![arr(vec![num(1), text("a")]), arr(vec![num(1), text("a")])]),
        Ok(Value::Boolean(true))
    );
    assert_eq!(
        builtins::equal(&vec![arr(vec![num(1)]), arr(vec![num(1), num(2)])]),
        Ok(Value::Boolean(false))
    );
    assert_eq!(
        builtins::equal(&vec![num(1)]),
        Err(Error::WrongCount { procedure: Builtin::Equal, given: 1 })
    );
    let mut run = Run::new();
    assert_eq!(run.eval(&sx("=", vec![num(1), num(2), num(3)])), Ok(Value::Boolean(false)));
    assert!(run.stack.is_empty());
}

#[test]
fn floats_compare_as_numbers() {
    assert!(interp::value::floats_equal(0.0f64.to_bits(), (-0.0f64).to_bits()));
    assert!(!interp::value::floats_equal(f64::NAN.to_bits(), f64::NAN.to_bits()));
    assert!(interp::value::floats_equal(1.5f64.to_bits(), 1.5f64.to_bits()));
    assert!(!interp::value::floats_equal(1.5f64.to_bits(), 2.5f64.to_bits()));
    assert!(interp::value::floats_equal(f64::INFINITY.to_bits(), f64::INFINITY.to_bits()));
    assert!(!interp::value::floats_equal(f64::INFINITY.to_bits(), f64::NEG_INFINITY.to_bits()));
    assert!(!float(f64::NAN).equals(&float(f64::NAN)));
    assert!(float(0.0).equals(&float(-0.0)));
    assert!(!float(1.0).equals(&num(1)));
}

#[test]
fn closures_are_equal_when_made_alike_in_one_scope() {
    let a = Value::Code { params: vec![id("x")], body: vec![id("x")], env: 0 };
    let b = Value::Code { params: vec![id("x")], body: vec![id("x")], env: 0 };
    let c = Value::Code { params: vec![id("x")], body: vec![id("x")], env: 1 };
    assert!(a.equals(&b));
    assert!(!a.equals(&c));
    assert!(a.copy().equals(&a));
}

#[test]
fn get_counts_from_either_end() {
    let a = || arr(vec![num(10), num(20), num(30)]);
    assert_eq!(builtins::get(&vec![a(), num(0)]), Ok(num(10)));
    assert_eq!(builtins::get(&vec![a(), num(2)]), Ok(num(30)));
    assert_eq!(builtins::get(&vec![a(), num(-1)]), Ok(num(30)));
    assert_eq!(builtins::get(&vec![a(), num(-3)]), Ok(num(10)));
    assert_eq!(
        builtins::get(&vec![a(), num(3)]),
        Err(Error::OutOfRange { index: 3, length: 3 })
    );
    assert_eq!(
        builtins::get(&vec![a(), num(4)]),
        Err(Error::OutOfRange { index: 4, length: 3 })
    );
    assert_eq!(
        builtins::get(&vec![a(), num(-4)]),
        Err(Error::OutOfRange { index: -4, length: 3 })
    );
    assert_eq!(
        builtins::get(&vec![a(), num(i64::MIN)]),
        Err(Error::OutOfRange { index: i64::MIN, length: 3 })
    );
    assert_eq!(
        builtins::get(&vec![arr(vec![]), num(0)]),
        Err(Error::OutOfRange { index: 0, length: 0 })
    );
    assert_eq!(
        builtins::get(&vec![a()]),
        Err(Error::WrongCount { procedure: Builtin::Get, given: 1 })
    );
    assert_eq!(
        builtins::get(&vec![num(1), num(0)]),
        Err(Error::WrongType { procedure: Builtin::Get, operand: 0 })
    );
    assert_eq!(
        builtins::get(&vec![a(), text("0")]),
        Err(Error::WrongType { procedure: Builtin::Get, operand: 1 })
    );
}

#[test]
fn normalize_names_a_place_or_nothing() {
    assert_eq!(builtins::normalize(0, 3), Some(0));
    assert_eq!(builtins::normalize(-1, 3), Some(2));
    assert_eq!(builtins::normalize(-3, 3), Some(0));
    assert_eq!(builtins::normalize(3, 3), None);
    assert_eq!(builtins::normalize(-4, 3), None);
    assert_eq!(builtins::normalize(0, 0), None);
    assert_eq!(builtins::normalize(-1, 0), None);
    assert_eq!(builtins::normalize(i64::MIN, usize::MAX), Some(usize::MAX - (1usize << 63)));
}

#[test]
fn set_replaces_one_element() {
    let mut env = root();
    env.declare(0, name("a"), EnvValue::Value(arr(vec![num(1), num(2), num(3)])));
    assert_eq!(builtins::set(&mut env, 0, vec![id("a"), num(-3), num(7)]), Ok(Value::Nil));
    assert_eq!(
        env.find(0, &name("a")),
        Some(EnvValue::Value(arr(vec![num(7), num(2), num(3)])))
    );
    assert_eq!(builtins::set(&mut env, 0, vec![id("a"), num(1), text("x")]), Ok(Value::Nil));
    assert_eq!(
        env.find(0, &name("a")),
        Some(EnvValue::Value(arr(vec![num(7), text("x"), num(3)])))
    );
}

#[test]
fn set_fails_outside_the_array() {
    let mut env = root();
    env.declare(0, name("a"), EnvValue::Value(arr(vec![num(1), num(2), num(3)])));
    assert_eq!(
        builtins::set(&mut env, 0, vec![id("a"), num(3), num(7)]),
        Err(Error::OutOfRange { index: 3, length: 3 })
    );
    assert_eq!(
        builtins::set(&mut env, 0, vec![id("a"), num(-4), num(7)]),
        Err(Error::OutOfRange { index: -4, length: 3 })
    );
    assert_eq!(
        builtins::set(&mut env, 0, vec![id("a"), num(17), num(7)]),
        Err(Error::OutOfRange { index: 17, length: 3 })
    );
    assert_eq!(
        env.find(0, &name("a")),
        Some(EnvValue::Value(arr(vec![num(1), num(2), num(3)])))
    );
}

#[test]
fn set_checks_its_operands() {
    let mut env = root();
    env.declare(0, name("n"), EnvValue::Value(num(1)));
    env.declare(0, name("a"), EnvValue::Value(arr(vec![num(1)])));
    assert_eq!(
        builtins::set(&mut env, 0, vec![id("missing"), num(0), num(7)]),
        Err(Error::Unbound(name("missing")))
    );
    assert_eq!(
        builtins::set(&mut env, 0, vec![id("n"), num(0), num(7)]),
        Err(Error::WrongType { procedure: Builtin::Update, operand: 0 })
    );
    assert_eq!(
        builtins::set(&mut env, 0, vec![id("print"), num(0), num(7)]),
        Err(Error::WrongType { procedure: Builtin::Update, operand: 0 })
    );
    assert_eq!(
        builtins::set(&mut env, 0, vec![num(5), num(0), num(7)]),
        Err(Error::WrongType { procedure: Builtin::Update, operand: 0 })
    );
    assert_eq!(
        builtins::set(&mut env, 0, vec![id("a"), text("0"), num(7)]),
        Err(Error::WrongType { procedure: Builtin::Update, operand: 1 })
    );
    assert_eq!(
        builtins::set(&mut env, 0, vec![id("a"), num(0)]),
        Err(Error::WrongCount { procedure: Builtin::Update, given: 2 })
    );
}

#[test]
fn set_on_an_array_itself_does_nothing() {
    let mut env = root();
    assert_eq!(
        builtins::set(&mut env, 0, vec![arr(vec![num(1)]), num(0), num(7)]),
        Ok(Value::Nil)
    );
    assert_eq!(
        builtins::set(&mut env, 0, vec![arr(vec![num(1)]), text("far"), num(7)]),
        Ok(Value::Nil)
    );
    let mut run = Run::new();
    assert_eq!(run.eval(&sx("set", vec![arr(vec![num(1)]), num(0), num(7)])), Ok(Value::Nil));
    assert!(run.stack.is_empty());
}

#[test]
fn len_counts_elements() {
    assert_eq!(builtins::len(&vec![arr(vec![num(1), num(2)])]), Ok(num(2)));
    assert_eq!(builtins::len(&vec![arr(vec![])]), Ok(num(0)));
    assert_eq!(
        builtins::len(&vec![text("ab")]),
        Err(Error::WrongType { procedure: Builtin::Len, operand: 0 })
    );
    assert_eq!(
        builtins::len(&vec![]),
        Err(Error::WrongCount { procedure: Builtin::Len, given: 0 })
    );
}

#[test]
fn type_names_every_kind() {
    let sym = |s: &str| Ok(Value::Symbol(s.to_string()));
    assert_eq!(builtins::type_obj(&vec![num(1)]), sym("integer"));
    assert_eq!(builtins::type_obj(&vec![float(1.0)]), sym("float"));
    assert_eq!(builtins::type_obj(&vec![arr(vec![])]), sym("array"));
    assert_eq!(builtins::type_obj(&vec![Value::List(vec![])]), sym("list"));
    assert_eq!(builtins::type_obj(&vec![text("")]), sym("string"));
    assert_eq!(builtins::type_obj(&vec![Value::Symbol(name("s"))]), sym("symbol"));
    assert_eq!(
        builtins::type_obj(&vec![Value::Code { params: vec![], body: vec![], env: 0 }]),
        sym("code")
    );
    assert_eq!(builtins::type_obj(&vec![Value::Boolean(true)]), sym("boolean"));
    assert_eq!(builtins::type_obj(&vec![Value::Nil]), sym("nil"));
    assert_eq!(
        builtins::type_obj(&vec![id("x")]),
        Err(Error::WrongType { procedure: Builtin::Type, operand: 0 })
    );
    assert_eq!(
        builtins::type_obj(&vec![sx("+", vec![])]),
        Err(Error::WrongType { procedure: Builtin::Type, operand: 0 })
    );
    assert_eq!(
        builtins::type_obj(&vec![num(1), num(2)]),
        Err(Error::WrongCount { procedure: Builtin::Type, given: 2 })
    );
    let mut run = Run::new();
    assert_eq!(run.eval(&sx("type", vec![sx("fn", vec![arr(vec![])])])), sym("code"));
}

#[test]
fn fn_makes_a_closure_over_the_current_scope() {
    let r = builtins::function(3, &vec![arr(vec![id("a")]), id("a"), num(1)]);
    assert_eq!(r, Ok(Value::Code { params: vec![id("a")], body: vec![id("a"), num(1)], env: 3 }));
    assert_eq!(
        builtins::function(0, &vec![]),
        Err(Error::WrongCount { procedure: Builtin::Function, given: 0 })
    );
    assert_eq!(
        builtins::function(0, &vec![id("a"), num(1)]),
        Err(Error::WrongType { procedure: Builtin::Function, operand: 0 })
    );
    let mut run = Run::new();
    let r = run.eval(&sx("fn", vec![arr(vec![id("a"), num(7)]), sx("nothing", vec![])]));
    assert_eq!(
        r,
        Ok(Value::Code { params: vec![id("a"), num(7)], body: vec![sx("nothing", vec![])], env: 0 })
    );
}

#[test]
fn print_writes_each_kind() {
    let mut host = TestHost::new();
    let mut out = String::new();
    let operands = vec![
        num(-12),
        text(" a\\tb\\\\c\\n"),
        Value::Symbol(name("sym")),
        Value::Boolean(true),
        Value::Boolean(false),
        float(1.5),
    ];
    assert_eq!(builtins::print(&operands, &mut out, &mut host), Ok(num(0)));
    assert_eq!(out, "-12 a\tb\\c\n'symtruefalse1.5");
}

#[test]
fn print_keeps_what_was_written_before_a_failure() {
    let mut host = TestHost::new();
    let mut out = String::from("> ");
    let r = builtins::print(&vec![num(1), text("ok"), Value::Nil, num(2)], &mut out, &mut host);
    assert_eq!(r, Err(Error::WrongType { procedure: Builtin::Print, operand: 2 }));
    assert_eq!(out, "> 1ok");
    let r = builtins::print(&vec![text("a"), text("b\\q"), text("c")], &mut out, &mut host);
    assert_eq!(r, Err(Error::BadEscape('q')));
    assert_eq!(out, "> 1oka");
    let r = builtins::print(&vec![text("tail\\")], &mut out, &mut host);
    assert_eq!(r, Err(Error::OpenEscape));
    assert_eq!(out, "> 1oka");
    let r = builtins::print(&vec![], &mut out, &mut host);
    assert_eq!(r, Err(Error::WrongCount { procedure: Builtin::Print, given: 0 }));
}

#[test]
fn print_refuses_arrays_and_closures() {
    let mut host = TestHost::new();
    let mut out = String::new();
    for v in vec![arr(vec![]), Value::List(vec![]), id("x"), sx("+", vec![])] {
        let r = builtins::print(&vec![v], &mut out, &mut host);
        assert_eq!(r, Err(Error::WrongType { procedure: Builtin::Print, operand: 0 }));
    }
    assert_eq!(out, "");
}

#[test]
fn atoms_evaluate_to_themselves() {
    let mut run = Run::new();
    for v in vec![
        num(5),
        float(2.0),
        text("s"),
        Value::Symbol(name("q")),
        Value::Boolean(false),
        Value::Nil,
        arr(vec![id("unbound"), sx("nothing", vec![])]),
        Value::List(vec![num(1)]),
        Value::Code { params: vec![], body: vec![], env: 0 },
    ] {
        let copy = v.copy();
        assert_eq!(run.eval(&v), Ok(copy));
    }
    assert_eq!(run.out, "");
}

#[test]
fn identifiers_evaluate_to_their_binding() {
    let mut run = Run::new();
    run.env.declare(0, name("x"), EnvValue::Value(num(3)));
    assert_eq!(run.eval(&id("x")), Ok(num(3)));
    assert_eq!(run.eval(&id("FILE")), Ok(text("")));
    assert_eq!(run.eval(&id("y")), Err(Error::Unbound(name("y"))));
    assert_eq!(run.eval(&id("print")), Err(Error::NativeAsValue(name("print"))));
}

#[test]
fn every_evaluation_pushes_exactly_one_value() {
    let mut run = Run::new();
    run.stack.push(num(100));
    run.stack.push(text("below"));
    let form = sx(
        "+",
        vec![num(1), sx("len", vec![arr(vec![num(1), num(2)])]), sx("+", vec![num(1), num(1)])],
    );
    let r = Interpreter::execute_node(
        &mut run.env,
        0,
        &mut run.stack,
        &form,
        &mut run.out,
        &mut run.host,
        DEPTH_LIMIT,
    );
    assert_eq!(r, Ok(()));
    assert_eq!(run.stack, vec![num(100), text("below"), num(5)]);
    let r = Interpreter::execute_node(
        &mut run.env,
        0,
        &mut run.stack,
        &sx("+", vec![num(1), id("missing")]),
        &mut run.out,
        &mut run.host,
        DEPTH_LIMIT,
    );
    assert_eq!(r, Err(Error::Unbound(name("missing"))));
    assert_eq!(run.stack[..3], [num(100), text("below"), num(5)]);
}

#[test]
fn calls_need_something_to_call() {
    let mut run = Run::new();
    run.env.declare(0, name("n"), EnvValue::Value(num(1)));
    assert_eq!(run.eval(&sx("nowhere", vec![num(1)])), Err(Error::Unbound(name("nowhere"))));
    assert_eq!(run.eval(&sx("n", vec![num(1)])), Err(Error::NotCallable(name("n"))));
}

#[test]
fn operator_names_decide_the_form() {
    assert_eq!(classify(&name("fn")), Form::Function);
    assert_eq!(classify(&name("if")), Form::Conditional);
    assert_eq!(classify(&name("define")), Form::Binding);
    assert_eq!(classify(&name("set")), Form::Binding);
    assert_eq!(classify(&name("+")), Form::Call);
    assert_eq!(classify(&name("iff")), Form::Call);
    assert_eq!(classify(&name("")), Form::Call);
}

#[test]
fn define_binds_in_the_current_scope() {
    let mut run = Run::new();
    assert_eq!(run.eval(&sx("define", vec![id("v"), sx("+", vec![num(1), num(2)])])), Ok(num(3)));
    assert_eq!(run.eval(&id("v")), Ok(num(3)));
    assert_eq!(run.eval(&sx("define", vec![id("v"), text("again")])), Ok(text("again")));
    assert_eq!(run.eval(&id("v")), Ok(text("again")));
    assert_eq!(
        run.eval(&sx("define", vec![id("v")])),
        Err(Error::WrongCount { procedure: Builtin::Define, given: 1 })
    );
    assert_eq!(
        run.eval(&sx("define", vec![num(1), num(2)])),
        Err(Error::WrongType { procedure: Builtin::Define, operand: 0 })
    );
}

#[test]
fn define_evaluates_a_name_that_is_a_call() {
    let mut run = Run::new();
    let form = sx("define", vec![sx("get", vec![arr(vec![id("p"), id("q")]), num(1)]), num(5)]);
    assert_eq!(run.eval(&form), Ok(num(5)));
    assert_eq!(run.eval(&id("q")), Ok(num(5)));
    assert_eq!(run.eval(&id("p")), Err(Error::Unbound(name("p"))));
    let form = sx("define", vec![sx("+", vec![num(1)]), num(5)]);
    assert_eq!(run.eval(&form), Err(Error::WrongType { procedure: Builtin::Define, operand: 0 }));
    assert!(run.stack.is_empty());
    let mut stack = vec![num(9)];
    let r = define(
        &mut run.env,
        0,
        &mut stack,
        vec![id("w"), arr(vec![])],
        &mut run.out,
        &mut run.host,
        0,
    );
    assert_eq!(r, Ok(arr(vec![])));
    assert_eq!(stack, vec![num(9)]);
}

#[test]
fn define_in_a_closure_stays_in_the_call() {
    let mut run = Run::new();
    run.eval(&sx("define", vec![id("x"), num(1)])).unwrap();
    let body = vec![sx("define", vec![id("x"), num(2)]), id("x")];
    let mut make = vec![arr(vec![])];
    make.extend(body);
    run.eval(&sx("define", vec![id("f"), sx("fn", make)])).unwrap();
    run.eval(&sx("define", vec![id("g"), sx("fn", vec![arr(vec![]), id("x")])])).unwrap();
    assert_eq!(run.eval(&sx("f", vec![])), Ok(num(2)));
    assert_eq!(run.eval(&id("x")), Ok(num(1)));
    assert_eq!(run.eval(&sx("g", vec![])), Ok(num(1)));
}

#[test]
fn a_closure_made_in_a_call_sees_that_call() {
    let mut run = Run::new();
    let inner = sx("fn", vec![arr(vec![]), id("n")]);
    let outer = sx("fn", vec![arr(vec![id("n")]), inner]);
    run.eval(&sx("define", vec![id("make"), outer])).unwrap();
    run.eval(&sx("define", vec![id("seven"), sx("make", vec![num(7)])])).unwrap();
    run.eval(&sx("define", vec![id("eight"), sx("make", vec![num(8)])])).unwrap();
    assert_eq!(run.eval(&sx("seven", vec![])), Ok(num(7)));
    assert_eq!(run.eval(&sx("eight", vec![])), Ok(num(8)));
    assert_eq!(run.eval(&id("n")), Err(Error::Unbound(name("n"))));
}

#[test]
fn set_in_an_enclosing_scope_is_seen_by_another_closure() {
    let mut run = Run::new();
    run.eval(&sx("define", vec![id("a"), arr(vec![num(1), num(2)])])).unwrap();
    let writer = sx("fn", vec![arr(vec![id("v")]), sx("set", vec![id("a"), num(0), id("v")])]);
    let reader = sx("fn", vec![arr(vec![]), sx("get", vec![id("a"), num(0)])]);
    run.eval(&sx("define", vec![id("write"), writer])).unwrap();
    run.eval(&sx("define", vec![id("read"), reader])).unwrap();
    assert_eq!(run.eval(&sx("read", vec![])), Ok(num(1)));
    assert_eq!(run.eval(&sx("write", vec![num(50)])), Ok(Value::Nil));
    assert_eq!(run.eval(&sx("read", vec![])), Ok(num(50)));
    assert_eq!(run.eval(&id("a")), Ok(arr(vec![num(50), num(2)])));
    assert_eq!(
        run.eval(&sx("set", vec![id("nowhere"), num(0), num(1)])),
        Err(Error::Unbound(name("nowhere")))
    );
}

#[test]
fn rest_parameter_takes_the_surplus_in_order() {
    let params = vec![id("a"), id("b"), id("more...")];
    let r = bind(&params, vec![num(1), num(2), num(3), num(4), num(5)]).unwrap();
    assert_eq!(
        r,
        vec![
            Binding { name: name("a"), value: num(1) },
            Binding { name: name("b"), value: num(2) },
            Binding { name: name("more"), value: arr(vec![num(3), num(4), num(5)]) },
        ]
    );
    let r = bind(&params, vec![num(1), num(2)]).unwrap();
    assert_eq!(r[2], Binding { name: name("more"), value: arr(vec![]) });
    assert_eq!(bind(&params, vec![num(1)]), Err(Error::MissingArgument(name("b"))));
}

#[test]
fn surplus_arguments_without_a_rest_parameter_are_dropped() {
    let r = bind(&vec![id("a")], vec![num(1), num(2), num(3)]).unwrap();
    assert_eq!(r, vec![Binding { name: name("a"), value: num(1) }]);
    assert_eq!(bind(&vec![], vec![num(1)]), Ok(vec![]));
    let mut run = Run::new();
    run.eval(&sx("define", vec![id("first"), sx("fn", vec![arr(vec![id("a")]), id("a")])])).unwrap();
    assert_eq!(run.eval(&sx("first", vec![num(1), num(2), num(3)])), Ok(num(1)));
    assert!(run.stack.is_empty());
}

#[test]
fn parameters_after_a_rest_parameter_find_nothing_left() {
    let r = bind(&vec![id("all..."), id("late...")], vec![num(1), num(2)]).unwrap();
    assert_eq!(r[0], Binding { name: name("all"), value: arr(vec![num(1), num(2)]) });
    assert_eq!(r[1], Binding { name: name("late"), value: arr(vec![]) });
    assert_eq!(
        bind(&vec![id("all..."), id("late")], vec![num(1), num(2)]),
        Err(Error::MissingArgument(name("late")))
    );
    let r = bind(&vec![id("...")], vec![num(1)]).unwrap();
    assert_eq!(r[0], Binding { name: name(""), value: arr(vec![num(1)]) });
    let r = bind(&vec![id("..")], vec![num(1)]).unwrap();
    assert_eq!(r[0], Binding { name: name(".."), value: num(1) });
}

#[test]
fn a_parameter_has_to_be_an_identifier() {
    assert_eq!(bind(&vec![id("a"), num(3)], vec![num(1), num(2)]), Err(Error::BadParameter(1)));
    assert_eq!(bind(&vec![text("a")], vec![]), Err(Error::BadParameter(0)));
    assert_eq!(bind(&vec![id("a"), num(3)], vec![]), Err(Error::MissingArgument(name("a"))));
    let mut run = Run::new();
    run.eval(&sx("define", vec![id("f"), sx("fn", vec![arr(vec![num(1)]), num(1)])])).unwrap();
    assert_eq!(run.eval(&sx("f", vec![])), Err(Error::BadParameter(0)));
    assert_eq!(run.eval(&sx("f", vec![num(1)])), Err(Error::BadParameter(0)));
}

#[test]
fn a_call_without_enough_arguments_names_the_parameter() {
    let mut run = Run::new();
    let f = sx("fn", vec![arr(vec![id("a"), id("b")]), id("a")]);
    run.eval(&sx("define", vec![id("f"), f])).unwrap();
    assert_eq!(run.eval(&sx("f", vec![num(1)])), Err(Error::MissingArgument(name("b"))));
    assert_eq!(run.eval(&sx("f", vec![])), Err(Error::MissingArgument(name("a"))));
}

#[test]
fn a_body_gives_its_last_value() {
    let mut run = Run::new();
    let f = sx("fn", vec![arr(vec![]), num(1), sx("print", vec![text("side")]), text("last")]);
    run.eval(&sx("define", vec![id("f"), f])).unwrap();
    assert_eq!(run.eval(&sx("f", vec![])), Ok(text("last")));
    assert_eq!(run.out, "side");
    run.eval(&sx("define", vec![id("e"), sx("fn", vec![arr(vec![])])])).unwrap();
    assert_eq!(run.eval(&sx("e", vec![])), Ok(Value::Nil));
    assert!(run.stack.is_empty());
}

#[test]
fn a_closure_with_a_lost_scope_cannot_be_called() {
    let mut run = Run::new();
    let mut stack = Vec::new();
    let r = call(
        &mut run.env,
        40,
        &vec![],
        &vec![num(1)],
        vec![],
        &mut stack,
        &mut run.out,
        &mut run.host,
        4,
    );
    assert_eq!(r, Err(Error::NoScope(40)));
    assert_eq!(run.env.len(), 1);
    run.env.declare(0, name("f"), EnvValue::Value(Value::Code { params: vec![], body: vec![], env: 9 }));
    assert_eq!(run.eval(&sx("f", vec![])), Err(Error::NoScope(9)));
}

#[test]
fn later_parameters_of_the_same_name_win() {
    let mut run = Run::new();
    let f = sx("fn", vec![arr(vec![id("a"), id("a")]), id("a")]);
    run.eval(&sx("define", vec![id("f"), f])).unwrap();
    assert_eq!(run.eval(&sx("f", vec![num(1), num(2)])), Ok(num(2)));
}

#[test]
fn evaluation_stops_at_the_depth_limit() {
    let mut run = Run::new();
    let mut stack = Vec::new();
    let nested = sx("+", vec![sx("+", vec![sx("+", vec![num(1)])])]);
    let r = Interpreter::execute_node(&mut run.env, 0, &mut stack, &nested, &mut run.out, &mut run.host, 3);
    assert_eq!(r, Ok(()));
    assert_eq!(stack, vec![num(1)]);
    let r = Interpreter::execute_node(&mut run.env, 0, &mut stack, &nested, &mut run.out, &mut run.host, 2);
    assert_eq!(r, Err(Error::TooDeep));
    let r = Interpreter::execute_node(&mut run.env, 0, &mut stack, &num(1), &mut run.out, &mut run.host, 0);
    assert_eq!(r, Ok(()));
    let r = Interpreter::execute_node(&mut run.env, 0, &mut stack, &sx("+", vec![]), &mut run.out, &mut run.host, 0);
    assert_eq!(r, Err(Error::TooDeep));
}

#[test]
fn endless_recursion_ends_at_the_limit() {
    let mut run = Run::new();
    let f = sx("fn", vec![arr(vec![]), sx("f", vec![])]);
    run.eval(&sx("define", vec![id("f"), f])).unwrap();
    assert_eq!(run.eval(&sx("f", vec![])), Err(Error::TooDeep));
    assert!(run.stack.is_empty());
}

#[test]
fn an_unknown_scope_binds_nothing() {
    let mut run = Run::new();
    assert_eq!(run.eval_in(5, &id("FILE")), Err(Error::Unbound(name("FILE"))));
    assert_eq!(run.eval_in(5, &num(1)), Ok(num(1)));
    assert_eq!(run.eval_in(5, &sx("+", vec![num(1)])), Err(Error::Unbound(name("+"))));
}

fn module_host() -> TestHost {
    let mut host = TestHost::new();
    host.modules.push((
        name("lib/./m.irl"),
        vec![
            sx("print", vec![text("loading\\n")]),
            sx("define", vec![id("x"), num(42)]),
            sx("define", vec![id("where"), id("FILE")]),
            sx("define", vec![id("twice"), sx("fn", vec![arr(vec![id("n")]), sx("+", vec![id("n"), id("n")])])]),
        ],
    ));
    host.modules.push((name("lib/./broken.irl"), vec![sx("define", vec![id("y"), num(1)]), id("nothing")]));
    host.modules.push((name("lib/./other.irl"), vec![sx("define", vec![id("x"), num(7)])]));
    host
}

fn module_run() -> Run {
    let mut run = Run::new();
    run.host = module_host();
    run.env.declare(0, name("FILE"), EnvValue::Value(text("lib/main.irl")));
    run
}

#[test]
fn import_makes_the_modules_names_visible() {
    let mut run = module_run();
    assert_eq!(run.eval(&sx("import", vec![text("./m")])), Ok(Value::Nil));
    assert_eq!(run.host.loads, vec![name("lib/./m.irl")]);
    assert_eq!(run.eval(&id("x")), Ok(num(42)));
    assert_eq!(run.eval(&sx("twice", vec![num(4)])), Ok(num(8)));
    assert_eq!(run.out, "loading\n");
}

#[test]
fn import_reads_beside_the_importing_file() {
    let mut host = TestHost::new();
    host.modules.push((name("lib/./m.irl"), vec![sx("define", vec![id("x"), num(42)])]));
    let mut run = Run::new();
    run.host = host;
    run.env.declare(0, name("FILE"), EnvValue::Value(text("lib/main.irl")));
    assert_eq!(run.eval(&sx("import", vec![text("./m")])), Ok(Value::Nil));
    assert_eq!(run.host.loads, vec![name("lib/./m.irl")]);
    assert_eq!(run.eval(&id("x")), Ok(num(42)));
    assert_eq!(run.eval(&id("FILE")), Ok(text("lib/./m.irl")));
    assert_eq!(run.host.rewrites, 1);
}

#[test]
fn importing_twice_runs_the_module_twice() {
    let mut run = module_run();
    assert_eq!(run.eval(&sx("import", vec![text("./m")])), Ok(Value::Nil));
    let first = run.env.find(0, &name("x"));
    run.env.declare(0, name("FILE"), EnvValue::Value(text("lib/main.irl")));
    assert_eq!(run.eval(&sx("import", vec![text("./m")])), Ok(Value::Nil));
    assert_eq!(run.env.find(0, &name("x")), first);
    assert_eq!(run.out, "loading\nloading\n");
    assert_eq!(run.host.loads.len(), 2);
}

#[test]
fn the_last_import_wins() {
    let mut run = module_run();
    assert_eq!(run.eval(&sx("define", vec![id("x"), num(1)])), Ok(num(1)));
    assert_eq!(run.eval(&sx("import", vec![text("./m"), text("../lib/./other")])), Err(Error::Unreadable(name("lib/./../lib/./other.irl"))));
    assert_eq!(run.eval(&id("x")), Ok(num(42)));
    assert_eq!(run.eval(&id("FILE")), Ok(text("lib/./m.irl")));
    run.env.declare(0, name("FILE"), EnvValue::Value(text("lib/main.irl")));
    assert_eq!(run.eval(&sx("import", vec![text("./m"), text("./other.irl")])), Err(Error::Unreadable(name("lib/././other.irl"))));
    run.env.declare(0, name("FILE"), EnvValue::Value(text("lib/main.irl")));
    assert_eq!(run.eval(&sx("import", vec![text("./other")])), Ok(Value::Nil));
    assert_eq!(run.eval(&id("x")), Ok(num(7)));
    assert_eq!(run.eval(&sx("twice", vec![num(2)])), Ok(num(4)));
}

#[test]
fn import_brings_the_modules_own_path_and_natives() {
    let mut run = module_run();
    assert_eq!(run.eval(&sx("import", vec![text("./m")])), Ok(Value::Nil));
    assert_eq!(run.eval(&id("where")), Ok(text("lib/./m.irl")));
    assert_eq!(run.eval(&id("FILE")), Ok(text("lib/./m.irl")));
    assert_eq!(run.env.find(0, &name("len")), Some(EnvValue::EnvCode(Builtin::Len)));
}

#[test]
fn import_into_a_call_binds_in_that_call() {
    let mut run = module_run();
    let f = sx("fn", vec![arr(vec![]), sx("import", vec![text("./m")]), id("x")]);
    run.eval(&sx("define", vec![id("f"), f])).unwrap();
    assert_eq!(run.eval(&sx("f", vec![])), Ok(num(42)));
    assert_eq!(run.eval(&id("x")), Err(Error::Unbound(name("x"))));
    assert_eq!(run.eval(&id("FILE")), Ok(text("lib/main.irl")));
}

#[test]
fn a_failure_in_a_module_comes_back_under_its_path() {
    let mut run = module_run();
    let r = run.eval(&sx("import", vec![text("./broken")]));
    let expected = Error::Import {
        path: name("lib/./broken.irl"),
        cause: Box::new(Error::Unbound(name("nothing"))),
    };
    assert_eq!(r, Err(expected));
    assert_eq!(run.eval(&id("y")), Err(Error::Unbound(name("y"))));
    let e = Error::Import { path: name("p"), cause: Box::new(Error::TooDeep) };
    assert_eq!(e.kind(), ErrorKind::Resource);
}

#[test]
fn import_checks_its_operands() {
    let mut run = module_run();
    assert_eq!(
        run.eval(&sx("import", vec![])),
        Err(Error::WrongCount { procedure: Builtin::Import, given: 0 })
    );
    assert_eq!(
        run.eval(&sx("import", vec![text("./m"), num(1)])),
        Err(Error::WrongType { procedure: Builtin::Import, operand: 1 })
    );
    assert_eq!(run.eval(&id("x")), Ok(num(42)));
    assert_eq!(
        run.eval(&sx("import", vec![text("m")])),
        Err(Error::NotRelative(name("m")))
    );
    assert_eq!(
        run.eval(&sx("import", vec![text("/abs/m")])),
        Err(Error::NotRelative(name("/abs/m")))
    );
    run.env.declare(0, name("FILE"), EnvValue::Value(text("lib/main.irl")));
    assert_eq!(
        run.eval(&sx("import", vec![text("./absent")])),
        Err(Error::Unreadable(name("lib/./absent.irl")))
    );
    run.env.declare(0, name("FILE"), EnvValue::Value(num(1)));
    assert_eq!(
        run.eval(&sx("import", vec![text("./m")])),
        Err(Error::WrongType { procedure: Builtin::Import, operand: 0 })
    );
    let r = importexpr(&mut run.env, 9, vec![text("./m")], &mut run.out, &mut run.host, 4);
    assert_eq!(r, Err(Error::Unbound(name("FILE"))));
}

#[test]
fn a_module_that_is_refused_fails_the_import() {
    let mut run = module_run();
    run.host.refuse = true;
    assert_eq!(
        run.eval(&sx("import", vec![text("./m")])),
        Err(Error::Import { path: name("lib/./m.irl"), cause: Box::new(Error::Rejected) })
    );
    assert_eq!(run.out, "");
}

#[test]
fn an_empty_module_brings_only_the_defaults() {
    let mut run = Run::new();
    run.env.declare(0, name("mine"), EnvValue::Value(num(1)));
    let r = run_module(&mut run.env, 0, name("dir/e.irl"), &vec![], &mut run.out, &mut run.host, 4);
    assert_eq!(r, Ok(()));
    assert_eq!(run.env.len(), 2);
    assert_eq!(run.env.find(0, &name("FILE")), Some(EnvValue::Value(text("dir/e.irl"))));
    assert_eq!(run.env.find(0, &name("mine")), Some(EnvValue::Value(num(1))));
    assert_eq!(run.env.find(1, &name("mine")), None);
}

#[test]
fn a_new_interpreter_knows_the_natives() {
    let interp = Interpreter::new();
    let env = interp.env();
    assert_eq!(env.len(), 1);
    assert_eq!(env.find(0, &name("FILE")), Some(EnvValue::Value(text(""))));
    let natives = [
        ("+", Builtin::Add),
        ("=", Builtin::Equal),
        ("print", Builtin::Print),
        ("if", Builtin::If),
        ("define", Builtin::Define),
        ("fn", Builtin::Function),
        ("get", Builtin::Get),
        ("set", Builtin::Update),
        ("len", Builtin::Len),
        ("import", Builtin::Import),
        ("type", Builtin::Type),
    ];
    for (n, b) in natives {
        assert_eq!(env.find(0, &name(n)), Some(EnvValue::EnvCode(b)));
    }
    assert_eq!(env.find(0, &name("-")), None);
    assert_eq!(interp.output(), "");
}

#[test]
fn execute_runs_every_form_in_the_root_scope() {
    let mut interp = Interpreter::new();
    let mut host = TestHost::new();
    interp.load_code(vec![
        sx("define", vec![id("n"), sx("+", vec![num(20), num(22)])]),
        sx("print", vec![id("n"), text("\\n")]),
        sx("print", vec![sx("type", vec![id("n")])]),
    ]);
    assert_eq!(interp.execute(&mut host), Ok(0));
    assert_eq!(interp.output(), "42\n'integer");
    assert_eq!(interp.env().find(0, &name("n")), Some(EnvValue::Value(num(42))));
    assert_eq!(interp.take_output(), "42\n'integer");
    assert_eq!(interp.output(), "");
    assert_eq!(interp.execute(&mut host), Ok(0));
    assert_eq!(interp.output(), "42\n'integer");
}

#[test]
fn execute_stops_at_the_first_failure() {
    let mut interp = Interpreter::new();
    let mut host = TestHost::new();
    interp.load_code(vec![
        sx("print", vec![text("a")]),
        sx("get", vec![arr(vec![]), num(0)]),
        sx("print", vec![text("b")]),
    ]);
    assert_eq!(interp.execute(&mut host), Err(Error::OutOfRange { index: 0, length: 0 }));
    assert_eq!(interp.output(), "a");
    let mut empty = Interpreter::new();
    assert_eq!(empty.execute(&mut host), Ok(0));
    assert_eq!(empty.output(), "");
}

#[test]
fn only_release_mode_asks_for_a_rewrite() {
    let mut host = TestHost::new();
    let mut interp = Interpreter::new();
    interp.load_code(vec![sx("print", vec![text("x")])]);
    assert_eq!(interp.execute(&mut host), Ok(0));
    assert_eq!(host.rewrites, 1);
    interp.set_mode(InterpMode::Debug);
    assert_eq!(interp.execute(&mut host), Ok(0));
    assert_eq!(host.rewrites, 1);
    host.refuse = true;
    assert_eq!(interp.execute(&mut host), Ok(0));
    interp.set_mode(InterpMode::Release);
    assert_eq!(interp.execute(&mut host), Err(Error::Rejected));
    assert_eq!(interp.output(), "xxx");
}

#[test]
fn set_file_names_the_importing_file() {
    let mut host = TestHost::new();
    host.modules.push((name("/srv/app/../shared/util.irl"), vec![sx("define", vec![id("u"), num(1)])]));
    let mut interp = Interpreter::new();
    interp.set_file(name("/srv/app/main.irl"));
    assert_eq!(interp.env().find(0, &name("FILE")), Some(EnvValue::Value(text("/srv/app/main.irl"))));
    interp.load_code(vec![sx("import", vec![text("../shared/util.txt")]), sx("print", vec![id("u")])]);
    assert_eq!(interp.execute(&mut host), Ok(0));
    assert_eq!(host.loads, vec![name("/srv/app/../shared/util.irl")]);
    assert_eq!(interp.output(), "1");
}

#[test]
fn the_interpreters_limit_bounds_nesting() {
    let mut host = TestHost::new();
    let mut interp = Interpreter::new();
    interp.set_mode(InterpMode::Debug);
    interp.load_code(vec![sx("+", vec![sx("+", vec![num(1)])])]);
    interp.set_limit(1);
    assert_eq!(interp.execute(&mut host), Err(Error::TooDeep));
    interp.set_limit(2);
    assert_eq!(interp.execute(&mut host), Ok(0));
}

#[test]
fn every_failure_has_its_kind() {
    let b = Builtin::Add;
    assert_eq!(Error::Unbound(name("x")).kind(), ErrorKind::Lookup);
    assert_eq!(Error::NotCallable(name("x")).kind(), ErrorKind::Lookup);
    assert_eq!(Error::NativeAsValue(name("x")).kind(), ErrorKind::Lookup);
    assert_eq!(Error::NoScope(1).kind(), ErrorKind::Lookup);
    assert_eq!(Error::WrongType { procedure: b, operand: 0 }.kind(), ErrorKind::Type);
    assert_eq!(Error::WrongCount { procedure: b, given: 0 }.kind(), ErrorKind::Arity);
    assert_eq!(Error::MissingArgument(name("x")).kind(), ErrorKind::Arity);
    assert_eq!(Error::BadParameter(0).kind(), ErrorKind::Arity);
    assert_eq!(Error::OutOfRange { index: 1, length: 0 }.kind(), ErrorKind::Bounds);
    assert_eq!(Error::Overflow.kind(), ErrorKind::Bounds);
    assert_eq!(Error::BadEscape('x').kind(), ErrorKind::Syntax);
    assert_eq!(Error::OpenEscape.kind(), ErrorKind::Syntax);
    assert_eq!(Error::Unreadable(name("p")).kind(), ErrorKind::Resource);
    assert_eq!(Error::NotRelative(name("p")).kind(), ErrorKind::Resource);
    assert_eq!(Error::Rejected.kind(), ErrorKind::Syntax);
    assert_eq!(Error::TooDeep.kind(), ErrorKind::Resource);
    let inner = Error::Import { path: name("a"), cause: Box::new(Error::BadEscape('x')) };
    let outer = Error::Import { path: name("b"), cause: Box::new(inner) };
    assert_eq!(outer.kind(), ErrorKind::Syntax);
}

#[test]
fn run_evaluates_the_forms_in_the_given_scope() {
    let mut r = Run::new();
    let inner = r.env.open(Some(0)).unwrap();
    let program = vec![
        sx("define", vec![id("local"), num(1)]),
        sx("print", vec![id("local")]),
    ];
    r.stack.push(num(7));
    let done = interp::interp::run(&mut r.env, inner, &mut r.stack, &program, &mut r.out, &mut r.host, 8);
    assert_eq!(done, Ok(()));
    assert!(r.stack.is_empty());
    assert_eq!(r.out, "1");
    assert_eq!(r.env.find(inner, &name("local")), Some(EnvValue::Value(num(1))));
    assert_eq!(r.env.find(0, &name("local")), None);
    let failing = vec![sx("print", vec![text("a")]), id("absent"), sx("print", vec![text("b")])];
    let done = interp::interp::run(&mut r.env, inner, &mut r.stack, &failing, &mut r.out, &mut r.host, 8);
    assert_eq!(done, Err(Error::Unbound(name("absent"))));
    assert_eq!(r.out, "1a");
}

#[test]
fn the_file_asked_for_is_decided_before_the_host() {
    let mut env = root();
    env.declare(0, name("FILE"), EnvValue::Value(text("src/app.irl")));
    let of = |env: &Environment, v: Value| interp::interp::module_of(env, 0, &v, 3);
    assert_eq!(of(&env, text("./util")), Ok(name("src/./util.irl")));
    assert_eq!(of(&env, text("util")), Err(Error::NotRelative(name("util"))));
    assert_eq!(of(&env, num(1)), Err(Error::WrongType { procedure: Builtin::Import, operand: 3 }));
    env.declare(0, name("FILE"), EnvValue::Value(num(1)));
    assert_eq!(of(&env, text("./util")), Err(Error::WrongType { procedure: Builtin::Import, operand: 3 }));
    let bare = Environment::new();
    assert_eq!(of(&bare, text("./util")), Err(Error::Unbound(name("FILE"))));
}

#[test]
fn print_fails_on_the_first_bad_operand_even_among_floats() {
    let mut host = TestHost::new();
    let mut out = String::new();
    let r = builtins::print(&vec![float(2.5), Value::Nil, float(1.0)], &mut out, &mut host);
    assert_eq!(r, Err(Error::WrongType { procedure: Builtin::Print, operand: 1 }));
    assert_eq!(out, "2.5");
}

#[test]
fn a_module_imports_relative_to_itself() {
    let mut host = TestHost::new();
    host.modules.push((name("a/./sub/outer.irl"), vec![sx("import", vec![text("./inner")])]));
    host.modules.push((name("a/./sub/./inner.irl"), vec![sx("define", vec![id("deep"), num(3)])]));
    let mut run = Run::new();
    run.host = host;
    run.env.declare(0, name("FILE"), EnvValue::Value(text("a/main.irl")));
    assert_eq!(run.eval(&sx("import", vec![text("./sub/outer")])), Ok(Value::Nil));
    assert_eq!(run.eval(&id("deep")), Ok(num(3)));
    assert_eq!(run.host.loads, vec![name("a/./sub/outer.irl"), name("a/./sub/./inner.irl")]);
}

#[test]
fn values_of_different_kinds_are_unequal() {
    let kinds = vec![
        num(0),
        float(0.0),
        Value::Boolean(false),
        Value::Nil,
        Value::Symbol(name("a")),
        text("a"),
        arr(vec![]),
        Value::List(vec![]),
        Value::Code { params: vec![], body: vec![], env: 0 },
        id("a"),
        sx("a", vec![]),
    ];
    for (i, a) in kinds.iter().enumerate() {
        for (j, b) in kinds.iter().enumerate() {
            assert_eq!(a.equals(b), i == j);
        }
    }
}
