//! The evaluator: how a node becomes a value, and the interpreter that runs
//! a program form by form.

use crate::builtins::{function, get, len, position, set_outcome, type_obj, value_result};
use crate::semantics::{
    agrees, applied, called, declared_each, define_outcome, evaluated, form_of, if_outcome,
    import_outcome, import_target, kept, lemma_prepared_stops, lemma_ran_stops,
    lemma_sequenced_stops, module_outcome, module_root, prepared, ran, sequenced, Form,
};
use crate::call::{bind, bindings_view, Binding};
use crate::env::{
    declared, extends, lemma_extends, lemma_extends_trans, lookup, opened, populated, Builtin,
    EnvValue, Environment, SpecEnvValue, SpecScope,
};
use crate::error::{Error, SpecError};
use crate::host::Host;
use crate::text::{is_text, resolve, text_result};
use crate::value::{copy_all, view_all, SpecValue, Value};
use vstd::prelude::*;

verus! {

/// Whether the host is asked to rewrite a program before it runs.
#[derive(Debug, Clone, Copy, PartialEq, Eq, Structural)]
pub enum InterpMode {
    /// The program runs as it was loaded.
    Debug,
    /// The program is rewritten first.
    Release,
}

proof fn lemma_kept_trans(
    s0: Seq<SpecScope>,
    s1: Seq<SpecScope>,
    s2: Seq<SpecScope>,
    o0: Seq<char>,
    o1: Seq<char>,
    o2: Seq<char>,
)
    requires
        kept(s0, s1, o0, o1),
        kept(s1, s2, o1, o2),
    ensures
        kept(s0, s2, o0, o2),
{
    lemma_extends_trans(s0, s1, s2);
}

proof fn lemma_kept_same(s: Seq<SpecScope>, o: Seq<char>)
    ensures
        kept(s, s, o, o),
{
}

proof fn lemma_declared_each_extends(
    scopes: Seq<SpecScope>,
    at: int,
    bindings: Seq<(Seq<char>, SpecValue)>,
)
    ensures
        extends(scopes, declared_each(scopes, at, bindings)),
    decreases bindings.len(),
{
    if bindings.len() > 0 {
        let inner = declared_each(scopes, at, bindings.drop_last());
        lemma_declared_each_extends(scopes, at, bindings.drop_last());
        lemma_extends(
            inner,
            at,
            bindings.last().0,
            SpecEnvValue::Value(bindings.last().1),
            0,
            None,
        );
        lemma_extends_trans(scopes, inner, declared_each(scopes, at, bindings));
    }
}

/// The form that an operator's name stands for.
pub fn classify(op: &String) -> (f: Form)
    ensures
        f == form_of(op@),
{
    if is_text(op, "fn") {
        Form::Function
    } else if is_text(op, "if") {
        Form::Conditional
    } else if is_text(op, "define") || is_text(op, "set") {
        Form::Binding
    } else {
        Form::Call
    }
}

/// Takes the topmost `ops` values off the stack, in the order they were
/// pushed.
fn take(stack: &mut Vec<Value>, ops: usize) -> (operands: Vec<Value>)
    requires
        ops <= old(stack)@.len(),
    ensures
        final(stack)@ == old(stack)@.take(old(stack)@.len() - ops),
        operands@ == old(stack)@.skip(old(stack)@.len() - ops),
        operands@.len() == ops,
{
    let at: usize = stack.len() - ops;
    let operands = stack.split_off(at);
    proof {
        assert(stack@ =~= old(stack)@.take(old(stack)@.len() - ops));
        assert(operands@ =~= old(stack)@.skip(old(stack)@.len() - ops));
    }
    operands
}

/// What an evaluation gave: the value that it left on top of the stack, or
/// its failure.
pub open spec fn pushed(r: Result<(), Error>, stack: Seq<Value>) -> Result<SpecValue, SpecError> {
    match r {
        Ok(_) => Ok(stack.last()@),
        Err(e) => Err(e@),
    }
}

/// What making operands ready gave: the values that it pushed, or its
/// failure.
pub open spec fn readied(r: Result<(), Error>, values: Seq<Value>) -> Result<
    Seq<SpecValue>,
    SpecError,
> {
    match r {
        Ok(_) => Ok(view_all(values)),
        Err(e) => Err(e@),
    }
}

/// The model of a failure, if it is one.
pub open spec fn unit_result(r: Result<(), Error>) -> Result<(), SpecError> {
    match r {
        Ok(_) => Ok(()),
        Err(e) => Err(e@),
    }
}

proof fn lemma_take_step<A>(items: Seq<A>, i: int)
    requires
        0 <= i < items.len(),
    ensures
        items.take(i + 1).drop_last() == items.take(i),
        items.take(i + 1).last() == items[i],
        items.take(i + 1).len() == i + 1,
{
    assert(items.take(i + 1).drop_last() =~= items.take(i));
}

/// Makes the operands of an S-expression ready on the stack, from the first
/// to the last: each one evaluated, or as it is written where the form says
/// so.
fn prepare<H: Host>(
    env: &mut Environment,
    scope: usize,
    stack: &mut Vec<Value>,
    form: Form,
    operands: &Vec<Value>,
    out: &mut String,
    host: &mut H,
    depth: usize,
) -> (r: Result<(), Error>)
    requires
        old(env).wf(),
    ensures
        final(env).wf(),
        kept(old(env)@, final(env)@, old(out)@, final(out)@),
        old(stack)@.is_prefix_of(final(stack)@),
        r is Ok ==> final(stack)@.len() == old(stack)@.len() + operands.len(),
        agrees(
            prepared(
                old(env)@,
                old(out)@,
                scope as int,
                form,
                view_all(operands@),
                depth as nat,
            ),
            final(env)@,
            final(out)@,
            readied(r, final(stack)@.skip(old(stack)@.len() as int)),
        ),
    decreases depth, 1int,
{
    let ghost ops = view_all(operands@);
    let ghost base = stack@.len() as int;
    let mut i: usize = 0;
    proof {
        lemma_kept_same(env@, out@);
        assert(ops.take(0) =~= Seq::<SpecValue>::empty());
        assert(view_all(stack@.skip(base)) =~= Seq::<SpecValue>::empty());
    }
    while i < operands.len()
        invariant
            i <= operands.len(),
            env.wf(),
            ops == view_all(operands@),
            base == old(stack)@.len(),
            kept(old(env)@, env@, old(out)@, out@),
            old(stack)@.is_prefix_of(stack@),
            stack@.len() == base + i,
            agrees(
                prepared(
                    old(env)@,
                    old(out)@,
                    scope as int,
                    form,
                    ops.take(i as int),
                    depth as nat,
                ),
                env@,
                out@,
                Ok::<Seq<SpecValue>, SpecError>(view_all(stack@.skip(base))),
            ),
        decreases operands.len() - i,
    {
        let ghost before = view_all(stack@.skip(base));
        proof {
            lemma_take_step(ops, i as int);
            assert(ops[i as int] == operands[i as int]@);
        }
        let raw = match form {
            Form::Function => true,
            Form::Conditional => i > 0,
            Form::Binding => i == 0,
            Form::Call => false,
        };
        if raw {
            stack.push(operands[i].copy());
            proof {
                assert(view_all(stack@.skip(base)) =~= before.push(ops[i as int]));
            }
        } else {
            let ghost env1 = env@;
            let ghost out1 = out@;
            let r = Interpreter::execute_node(env, scope, stack, &operands[i], out, host, depth);
            proof {
                lemma_kept_trans(old(env)@, env1, env@, old(out)@, out1, out@);
            }
            match r {
                Ok(()) => {
                    proof {
                        assert(view_all(stack@.skip(base)) =~= before.push(stack@.last()@));
                    }
                },
                Err(e) => {
                    proof {
                        lemma_prepared_stops(
                            old(env)@,
                            old(out)@,
                            scope as int,
                            form,
                            ops,
                            i + 1,
                            depth as nat,
                        );
                    }
                    return Err(e);
                },
            }
        }
        i += 1;
    }
    proof {
        assert(ops.take(operands.len() as int) =~= ops);
    }
    Ok(())
}

/// Calls a native procedure on the topmost `ops` values of the stack, which
/// it takes off, and gives the procedure's result.
fn apply<H: Host>(
    procedure: Builtin,
    env: &mut Environment,
    scope: usize,
    stack: &mut Vec<Value>,
    ops: usize,
    out: &mut String,
    host: &mut H,
    depth: usize,
) -> (r: Result<Value, Error>)
    requires
        old(env).wf(),
        ops <= old(stack)@.len(),
    ensures
        final(env).wf(),
        kept(old(env)@, final(env)@, old(out)@, final(out)@),
        old(stack)@.take(old(stack)@.len() - ops).is_prefix_of(final(stack)@),
        r is Ok ==> final(stack)@ == old(stack)@.take(old(stack)@.len() - ops),
        agrees(
            applied(
                procedure,
                old(env)@,
                old(out)@,
                scope as int,
                view_all(old(stack)@.skip(old(stack)@.len() - ops)),
                depth as nat,
            ),
            final(env)@,
            final(out)@,
            value_result(r),
        ),
    decreases depth, 5int,
{
    let operands = take(stack, ops);
    proof {
        lemma_kept_same(env@, out@);
        assert(out@ + Seq::<char>::empty() =~= out@);
    }
    match procedure {
        Builtin::Add => crate::builtins::add(&operands, host),
        Builtin::Equal => crate::builtins::equal(&operands),
        Builtin::Print => crate::builtins::print(&operands, out, host),
        Builtin::Get => get(&operands),
        Builtin::Len => len(&operands),
        Builtin::Type => type_obj(&operands),
        Builtin::Function => function(scope, &operands),
        Builtin::Update => {
            proof {
                lemma_set_extends(env@, scope as int, view_all(operands@));
            }
            crate::builtins::set(env, scope, operands)
        },
        Builtin::If => ifexpr(env, scope, stack, operands, out, host, depth),
        Builtin::Define => define(env, scope, stack, operands, out, host, depth),
        Builtin::Import => importexpr(env, scope, operands, out, host, depth),
    }
}

proof fn lemma_set_extends(scopes: Seq<SpecScope>, scope: int, operands: Seq<SpecValue>)
    ensures
        extends(scopes, set_outcome(scopes, scope, operands).0),
{
    lemma_extends(scopes, scope, Seq::empty(), SpecEnvValue::EnvCode(Builtin::Add), 0, None);
    if operands.len() == 3 {
        if let SpecValue::Ident(name) = operands[0] {
            if let Some(SpecEnvValue::Value(SpecValue::Array(items))) = lookup(scopes, scope, name) {
                if let SpecValue::Integer(i) = operands[1] {
                    if let Some(p) = position(i, items.len() as int) {
                        lemma_extends(
                            scopes,
                            scope,
                            name,
                            SpecEnvValue::Value(SpecValue::Array(items.update(p, operands[2]))),
                            0,
                            None,
                        );
                    }
                }
            }
        }
    }
}

/// `if`: evaluates the branch that the condition selects and gives its
/// value, or nil when the condition is false and there is no branch for
/// that. The operands are the condition, already evaluated, and the one or
/// two branches as they were written.
pub fn ifexpr<H: Host>(
    env: &mut Environment,
    scope: usize,
    stack: &mut Vec<Value>,
    operands: Vec<Value>,
    out: &mut String,
    host: &mut H,
    depth: usize,
) -> (r: Result<Value, Error>)
    requires
        old(env).wf(),
    ensures
        final(env).wf(),
        kept(old(env)@, final(env)@, old(out)@, final(out)@),
        old(stack)@.is_prefix_of(final(stack)@),
        r is Ok ==> final(stack)@ == old(stack)@,
        agrees(
            if_outcome(old(env)@, old(out)@, scope as int, view_all(operands@), depth as nat),
            final(env)@,
            final(out)@,
            value_result(r),
        ),
    decreases depth, 1int,
{
    let ghost ops = view_all(operands@);
    proof {
        lemma_kept_same(env@, out@);
    }
    if operands.len() < 2 || operands.len() > 3 {
        return Err(Error::WrongCount { procedure: Builtin::If, given: operands.len() });
    }
    proof {
        assert(ops[0] == operands[0]@);
        assert(ops[1] == operands[1]@);
        if operands.len() == 3 {
            assert(ops[2] == operands[2]@);
        }
    }
    let condition = match &operands[0] {
        Value::Boolean(b) => *b,
        _ => {
            return Err(Error::WrongType { procedure: Builtin::If, operand: 0 });
        },
    };
    if !condition && operands.len() == 2 {
        return Ok(Value::Nil);
    }
    let chosen: usize = if condition {
        1
    } else {
        2
    };
    let r = Interpreter::execute_node(env, scope, stack, &operands[chosen], out, host, depth);
    match r {
        Ok(()) => {
            let v = stack.pop().unwrap();
            proof {
                assert(stack@ =~= old(stack)@);
            }
            Ok(v)
        },
        Err(e) => Err(e),
    }
}

/// `define`: binds a name in the scope `scope` itself and gives the value it
/// was bound to. The operands are the name, as it was written, and the
/// value, already evaluated. A name that is written as an S-expression is
/// evaluated first and has to come out as an identifier.
pub fn define<H: Host>(
    env: &mut Environment,
    scope: usize,
    stack: &mut Vec<Value>,
    operands: Vec<Value>,
    out: &mut String,
    host: &mut H,
    depth: usize,
) -> (r: Result<Value, Error>)
    requires
        old(env).wf(),
    ensures
        final(env).wf(),
        kept(old(env)@, final(env)@, old(out)@, final(out)@),
        old(stack)@.is_prefix_of(final(stack)@),
        r is Ok ==> final(stack)@ == old(stack)@,
        agrees(
            define_outcome(old(env)@, old(out)@, scope as int, view_all(operands@), depth as nat),
            final(env)@,
            final(out)@,
            value_result(r),
        ),
    decreases depth, 1int,
{
    let ghost ops = view_all(operands@);
    proof {
        lemma_kept_same(env@, out@);
    }
    let mut pair = operands;
    if pair.len() != 2 {
        return Err(Error::WrongCount { procedure: Builtin::Define, given: pair.len() });
    }
    proof {
        assert(ops[0] == pair[0]@);
        assert(ops[1] == pair[1]@);
    }
    let value = pair.pop().unwrap();
    let target = pair.pop().unwrap();
    let name = match &target {
        Value::Ident(name) => name.clone(),
        Value::Sexpr { .. } => {
            let r = Interpreter::execute_node(env, scope, stack, &target, out, host, depth);
            match r {
                Ok(()) => {},
                Err(e) => {
                    return Err(e);
                },
            }
            let named = stack.pop().unwrap();
            proof {
                assert(stack@ =~= old(stack)@);
            }
            match named {
                Value::Ident(name) => name,
                _ => {
                    return Err(Error::WrongType { procedure: Builtin::Define, operand: 0 });
                },
            }
        },
        _ => {
            return Err(Error::WrongType { procedure: Builtin::Define, operand: 0 });
        },
    };
    let ghost env1 = env@;
    env.declare(scope, name, EnvValue::Value(value.copy()));
    proof {
        lemma_extends(env1, scope as int, name@, SpecEnvValue::Value(value@), 0, None);
        lemma_extends_trans(old(env)@, env1, env@);
    }
    Ok(value)
}

/// Calls a closure: opens a scope whose parent is the scope that the closure
/// was made in, binds the arguments to the parameters there, and evaluates
/// the body's expressions in turn. Gives the value of the last one, or nil
/// for an empty body.
pub fn call<H: Host>(
    env: &mut Environment,
    captured: usize,
    params: &Vec<Value>,
    body: &Vec<Value>,
    args: Vec<Value>,
    stack: &mut Vec<Value>,
    out: &mut String,
    host: &mut H,
    depth: usize,
) -> (r: Result<Value, Error>)
    requires
        old(env).wf(),
    ensures
        final(env).wf(),
        kept(old(env)@, final(env)@, old(out)@, final(out)@),
        old(stack)@.is_prefix_of(final(stack)@),
        r is Ok ==> final(stack)@ == old(stack)@,
        agrees(
            called(
                old(env)@,
                old(out)@,
                captured as nat,
                view_all(params@),
                view_all(body@),
                view_all(args@),
                depth as nat,
            ),
            final(env)@,
            final(out)@,
            value_result(r),
        ),
    decreases depth, 1int,
{
    proof {
        lemma_kept_same(env@, out@);
    }
    let ghost meant = called(
        old(env)@,
        old(out)@,
        captured as nat,
        view_all(params@),
        view_all(body@),
        view_all(args@),
        depth as nat,
    );
    let mut bindings = bind(params, args)?;
    let ghost names = bindings_view(bindings@);
    let scope = match env.open(Some(captured)) {
        Some(scope) => scope,
        None => {
            return Err(Error::NoScope(captured));
        },
    };
    let ghost env1 = env@;
    let mut i: usize = 0;
    proof {
        assert(names.take(0) =~= Seq::empty());
    }
    while i < bindings.len()
        invariant
            i <= bindings.len(),
            env.wf(),
            names.len() == bindings.len(),
            forall|j: int| i <= j < bindings.len() ==> (#[trigger] bindings[j])@ == names[j],
            env@ == declared_each(env1, scope as int, names.take(i as int)),
        decreases bindings.len() - i,
    {
        let mut b = Binding { name: String::new(), value: Value::Nil };
        core::mem::swap(&mut b, &mut bindings[i]);
        proof {
            assert(b@ == names[i as int]);
            lemma_take_step(names, i as int);
        }
        env.declare(scope, b.name, EnvValue::Value(b.value));
        i += 1;
    }
    let ghost env2 = env@;
    let ghost code = view_all(body@);
    proof {
        assert(names.take(bindings.len() as int) =~= names);
        lemma_extends(
            old(env)@,
            0,
            Seq::empty(),
            SpecEnvValue::EnvCode(Builtin::Add),
            0,
            Some(captured as int),
        );
        lemma_declared_each_extends(env1, scope as int, names);
        lemma_extends_trans(old(env)@, env1, env@);
        assert(meant == sequenced(env2, old(out)@, scope as int, code, depth as nat));
        assert(code.take(0) =~= Seq::<SpecValue>::empty());
    }
    let mut result = Value::Nil;
    let mut k: usize = 0;
    while k < body.len()
        invariant
            k <= body.len(),
            env.wf(),
            code == view_all(body@),
            kept(old(env)@, env@, old(out)@, out@),
            stack@ == old(stack)@,
            meant == sequenced(env2, old(out)@, scope as int, code, depth as nat),
            meant == called(
                old(env)@,
                old(out)@,
                captured as nat,
                view_all(params@),
                view_all(body@),
                view_all(args@),
                depth as nat,
            ),
            agrees(
                sequenced(env2, old(out)@, scope as int, code.take(k as int), depth as nat),
                env@,
                out@,
                Ok::<SpecValue, SpecError>(result@),
            ),
        decreases body.len() - k,
    {
        let ghost env3 = env@;
        let ghost out3 = out@;
        proof {
            lemma_take_step(code, k as int);
            assert(code[k as int] == body[k as int]@);
        }
        let r = Interpreter::execute_node(env, scope, stack, &body[k], out, host, depth);
        proof {
            lemma_kept_trans(old(env)@, env3, env@, old(out)@, out3, out@);
        }
        match r {
            Ok(()) => {},
            Err(e) => {
                proof {
                    lemma_sequenced_stops(
                        env2,
                        old(out)@,
                        scope as int,
                        code,
                        k + 1,
                        depth as nat,
                    );
                }
                return Err(e);
            },
        }
        result = stack.pop().unwrap();
        proof {
            assert(stack@ =~= old(stack)@);
        }
        k += 1;
    }
    proof {
        assert(code.take(body.len() as int) =~= code);
    }
    Ok(result)
}

/// `import`: runs each module that an operand names and copies the bindings
/// of the module's root scope into the scope `scope`. Gives nil.
pub fn importexpr<H: Host>(
    env: &mut Environment,
    scope: usize,
    operands: Vec<Value>,
    out: &mut String,
    host: &mut H,
    depth: usize,
) -> (r: Result<Value, Error>)
    requires
        old(env).wf(),
    ensures
        final(env).wf(),
        kept(old(env)@, final(env)@, old(out)@, final(out)@),
        r matches Ok(v) ==> v@ == SpecValue::Nil,
        import_outcome(old(env)@, scope as int, view_all(operands@)) matches Some(e) ==> {
            &&& r matches Err(x) && x@ == e
            &&& final(env)@ == old(env)@
            &&& final(out)@ == old(out)@
        },
    decreases depth, 4int,
{
    proof {
        lemma_kept_same(env@, out@);
    }
    if operands.len() == 0 {
        return Err(Error::WrongCount { procedure: Builtin::Import, given: 0 });
    }
    let mut i: usize = 0;
    while i < operands.len()
        invariant
            0 < operands.len(),
            i <= operands.len(),
            env.wf(),
            kept(old(env)@, env@, old(out)@, out@),
            i == 0 ==> env@ == old(env)@ && out@ == old(out)@,
            i > 0 ==> import_outcome(old(env)@, scope as int, view_all(operands@)) is None,
        decreases operands.len() - i,
    {
        let ghost env1 = env@;
        let ghost out1 = out@;
        proof {
            assert(view_all(operands@)[i as int] == operands[i as int]@);
        }
        let r = import_one(env, scope, &operands[i], i, out, host, depth);
        proof {
            lemma_kept_trans(old(env)@, env1, env@, old(out)@, out1, out@);
        }
        match r {
            Ok(()) => {},
            Err(e) => {
                return Err(e);
            },
        }
        i += 1;
    }
    Ok(Value::Nil)
}

/// The file that `import` asks the host for when `operand` is its operand at
/// `position`, or the failure that ends the import before the host is asked.
pub fn module_of(env: &Environment, scope: usize, operand: &Value, position: usize) -> (r: Result<
    String,
    Error,
>)
    requires
        env.wf(),
    ensures
        text_result(r) == import_target(env@, scope as int, operand@, position as int),
{
    let path = match operand {
        Value::Str(path) => path,
        _ => {
            return Err(Error::WrongType { procedure: Builtin::Import, operand: position });
        },
    };
    let file = match env.find(scope, &String::from_str("FILE")) {
        Some(EnvValue::Value(Value::Str(file))) => file,
        Some(_) => {
            return Err(Error::WrongType { procedure: Builtin::Import, operand: position });
        },
        None => {
            return Err(Error::Unbound(String::from_str("FILE")));
        },
    };
    match resolve(file.as_str(), path.as_str()) {
        Some(resolved) => Ok(resolved),
        None => Err(Error::NotRelative(path.clone())),
    }
}

/// Imports the module that the operand at `position` names: asks the host
/// for the module's forms and for their rewrite, and runs what it gets.
fn import_one<H: Host>(
    env: &mut Environment,
    scope: usize,
    operand: &Value,
    position: usize,
    out: &mut String,
    host: &mut H,
    depth: usize,
) -> (r: Result<(), Error>)
    requires
        old(env).wf(),
    ensures
        final(env).wf(),
        kept(old(env)@, final(env)@, old(out)@, final(out)@),
        import_target(old(env)@, scope as int, operand@, position as int) matches Err(e) ==> {
            &&& r matches Err(x) && x@ == e
            &&& final(env)@ == old(env)@
            &&& final(out)@ == old(out)@
        },
        r is Ok ==> import_target(old(env)@, scope as int, operand@, position as int) is Ok,
    decreases depth, 3int,
{
    proof {
        lemma_kept_same(env@, out@);
    }
    let resolved = module_of(env, scope, operand, position)?;
    let program = match host.load(&resolved) {
        Some(program) => program,
        None => {
            return Err(Error::Unreadable(resolved));
        },
    };
    let program = match host.optimize(program) {
        Some(program) => program,
        None => {
            return Err(Error::Import { path: resolved, cause: Box::new(Error::Rejected) });
        },
    };
    run_module(env, scope, resolved, &program, out, host, depth)
}

/// Runs a module's forms in a new root scope, which starts with the default
/// bindings and the module's own path, and then copies that scope's bindings
/// into the scope `scope`. A failure in the module comes back under the
/// module's path.
pub fn run_module<H: Host>(
    env: &mut Environment,
    scope: usize,
    path: String,
    program: &Vec<Value>,
    out: &mut String,
    host: &mut H,
    depth: usize,
) -> (r: Result<(), Error>)
    requires
        old(env).wf(),
    ensures
        final(env).wf(),
        kept(old(env)@, final(env)@, old(out)@, final(out)@),
        r matches Err(x) ==> x@ matches SpecError::Import { path: p, cause: _ } && p == path@,
        agrees(
            module_outcome(
                old(env)@,
                old(out)@,
                scope as int,
                path@,
                view_all(program@),
                depth as nat,
            ),
            final(env)@,
            final(out)@,
            unit_result(r),
        ),
    decreases depth, 2int,
{
    let ghost env0 = env@;
    let root = match env.open(None) {
        Some(root) => root,
        None => {
            return Err(Error::Import { path, cause: Box::new(Error::NoScope(0)) });
        },
    };
    let ghost env1 = env@;
    env.populate_default(root);
    let ghost env2 = env@;
    env.declare(root, String::from_str("FILE"), EnvValue::Value(Value::Str(path.clone())));
    let ghost env3 = env@;
    proof {
        lemma_extends(env0, 0, Seq::empty(), SpecEnvValue::EnvCode(Builtin::Add), 0, None);
        lemma_extends(env1, root as int, Seq::empty(), SpecEnvValue::EnvCode(Builtin::Add), 0, None);
        lemma_extends(
            env2,
            root as int,
            "FILE"@,
            SpecEnvValue::Value(SpecValue::Str(path@)),
            0,
            None,
        );
        lemma_extends_trans(env0, env1, env2);
        lemma_extends_trans(env0, env2, env3);
        assert(env3 == module_root(env0, path@));
    }
    let mut fresh: Vec<Value> = Vec::new();
    let r = run(env, root, &mut fresh, program, out, host, depth);
    let ghost env5 = env@;
    proof {
        lemma_extends_trans(env0, env3, env5);
    }
    match r {
        Ok(()) => {},
        Err(e) => {
            return Err(Error::Import { path, cause: Box::new(e) });
        },
    }
    env.merge(scope, root);
    proof {
        lemma_extends(
            env5,
            scope as int,
            Seq::empty(),
            SpecEnvValue::EnvCode(Builtin::Add),
            root as int,
            None,
        );
        lemma_extends_trans(env0, env5, env@);
    }
    Ok(())
}

/// How deep evaluation may nest unless the interpreter is told otherwise.
pub const DEPTH_LIMIT: usize = 256;

/// An interpreter: the scopes, of which the one with index 0 is the root, the
/// operand stack that the evaluation of a form works on, the program that was
/// loaded, and what the program has written so far.
pub struct Interpreter {
    mode: InterpMode,
    program: Vec<Value>,
    env: Environment,
    stack: Vec<Value>,
    output: String,
    limit: usize,
}

/// The model of an exit status or a failure.
pub open spec fn status_result(r: Result<i32, Error>) -> Result<(), SpecError> {
    match r {
        Ok(_) => Ok(()),
        Err(e) => Err(e@),
    }
}

/// Runs the forms of a program in the scope `scope`, each on an empty stack,
/// and stops at the first that fails.
pub fn run<H: Host>(
    env: &mut Environment,
    scope: usize,
    stack: &mut Vec<Value>,
    program: &Vec<Value>,
    out: &mut String,
    host: &mut H,
    limit: usize,
) -> (r: Result<(), Error>)
    requires
        old(env).wf(),
    ensures
        final(env).wf(),
        kept(old(env)@, final(env)@, old(out)@, final(out)@),
        final(stack)@.len() == 0,
        agrees(
            ran(old(env)@, old(out)@, scope as int, view_all(program@), limit as nat),
            final(env)@,
            final(out)@,
            unit_result(r),
        ),
    decreases limit, 1int,
{
    let ghost forms = view_all(program@);
    proof {
        lemma_kept_same(env@, out@);
        assert(forms.take(0) =~= Seq::<SpecValue>::empty());
    }
    stack.clear();
    let mut i: usize = 0;
    while i < program.len()
        invariant
            i <= program.len(),
            env.wf(),
            forms == view_all(program@),
            kept(old(env)@, env@, old(out)@, out@),
            stack@.len() == 0,
            agrees(
                ran(old(env)@, old(out)@, scope as int, forms.take(i as int), limit as nat),
                env@,
                out@,
                Ok::<(), SpecError>(()),
            ),
        decreases program.len() - i,
    {
        let ghost env1 = env@;
        let ghost out1 = out@;
        proof {
            lemma_take_step(forms, i as int);
            assert(forms[i as int] == program[i as int]@);
        }
        let r = Interpreter::execute_node(env, scope, stack, &program[i], out, host, limit);
        proof {
            lemma_kept_trans(old(env)@, env1, env@, old(out)@, out1, out@);
        }
        stack.clear();
        match r {
            Ok(()) => {},
            Err(e) => {
                proof {
                    lemma_ran_stops(old(env)@, old(out)@, scope as int, forms, i + 1, limit as nat);
                }
                return Err(e);
            },
        }
        i += 1;
    }
    proof {
        assert(forms.take(program.len() as int) =~= forms);
    }
    Ok(())
}

impl Interpreter {
    /// The invariant of the representation.
    pub closed spec fn wf(&self) -> bool {
        self.env.wf()
    }

    /// The mode that the interpreter is in.
    pub closed spec fn mode(&self) -> InterpMode {
        self.mode
    }

    /// The forms of the program that was loaded.
    pub closed spec fn program(&self) -> Seq<SpecValue> {
        view_all(self.program@)
    }

    /// What the programs that ran have written and nobody has taken yet.
    pub closed spec fn written(&self) -> Seq<char> {
        self.output@
    }

    /// How deep evaluation may nest.
    pub closed spec fn limit(&self) -> nat {
        self.limit as nat
    }

    /// The scopes; the root scope has index 0.
    pub closed spec fn scopes(&self) -> Seq<SpecScope> {
        self.env@
    }

    /// The number of values on the operand stack.
    pub closed spec fn pending(&self) -> nat {
        self.stack@.len()
    }

    /// An interpreter in release mode, with no program, whose root scope
    /// holds the default bindings.
    pub fn new() -> (r: Interpreter)
        ensures
            r.wf(),
            r.mode() == InterpMode::Release,
            r.program() == Seq::<SpecValue>::empty(),
            r.written() == Seq::<char>::empty(),
            r.limit() == DEPTH_LIMIT,
            r.pending() == 0,
            r.scopes() == populated(opened(Seq::empty(), None), 0),
    {
        let mut env = Environment::new();
        env.populate_default(0);
        let r = Interpreter {
            mode: InterpMode::Release,
            program: Vec::new(),
            env,
            stack: Vec::new(),
            output: String::new(),
            limit: DEPTH_LIMIT,
        };
        assert(r.program() =~= Seq::<SpecValue>::empty());
        r
    }

    /// Sets the mode.
    pub fn set_mode(&mut self, mode: InterpMode)
        ensures
            final(self).mode() == mode,
            final(self).wf() == old(self).wf(),
            final(self).program() == old(self).program(),
            final(self).written() == old(self).written(),
            final(self).limit() == old(self).limit(),
            final(self).pending() == old(self).pending(),
            final(self).scopes() == old(self).scopes(),
    {
        self.mode = mode;
    }

    /// Sets how deep evaluation may nest.
    pub fn set_limit(&mut self, limit: usize)
        ensures
            final(self).limit() == limit,
            final(self).wf() == old(self).wf(),
            final(self).mode() == old(self).mode(),
            final(self).program() == old(self).program(),
            final(self).written() == old(self).written(),
            final(self).pending() == old(self).pending(),
            final(self).scopes() == old(self).scopes(),
    {
        self.limit = limit;
    }

    /// Sets the path of the current file: what the root scope binds `FILE`
    /// to, and what the paths of imported modules are relative to.
    pub fn set_file(&mut self, file: String)
        requires
            old(self).wf(),
        ensures
            final(self).wf(),
            final(self).scopes() == declared(
                old(self).scopes(),
                0,
                "FILE"@,
                SpecEnvValue::Value(SpecValue::Str(file@)),
            ),
            final(self).mode() == old(self).mode(),
            final(self).program() == old(self).program(),
            final(self).written() == old(self).written(),
            final(self).limit() == old(self).limit(),
            final(self).pending() == old(self).pending(),
    {
        self.env.declare(0, String::from_str("FILE"), EnvValue::Value(Value::Str(file)));
    }

    /// Loads a program, given as its top-level forms, in place of the one
    /// that was loaded before.
    pub fn load_code(&mut self, code: Vec<Value>)
        ensures
            final(self).program() == view_all(code@),
            final(self).wf() == old(self).wf(),
            final(self).mode() == old(self).mode(),
            final(self).written() == old(self).written(),
            final(self).limit() == old(self).limit(),
            final(self).pending() == old(self).pending(),
            final(self).scopes() == old(self).scopes(),
    {
        self.program = code;
    }

    /// The scopes, to look names up in.
    pub fn env(&self) -> (r: &Environment)
        ensures
            r@ == self.scopes(),
            r.wf() == self.wf(),
    {
        &self.env
    }

    /// What the programs that ran have written and nobody has taken yet.
    pub fn output(&self) -> (r: &String)
        ensures
            r@ == self.written(),
    {
        &self.output
    }

    /// Takes what the programs that ran have written.
    pub fn take_output(&mut self) -> (r: String)
        ensures
            r@ == old(self).written(),
            final(self).written() == Seq::<char>::empty(),
            final(self).wf() == old(self).wf(),
            final(self).mode() == old(self).mode(),
            final(self).program() == old(self).program(),
            final(self).limit() == old(self).limit(),
            final(self).pending() == old(self).pending(),
            final(self).scopes() == old(self).scopes(),
    {
        let mut taken = String::new();
        core::mem::swap(&mut taken, &mut self.output);
        taken
    }

    /// Runs the program that was loaded: each form in the root scope, on an
    /// empty stack, until one fails. In release mode the host rewrites the
    /// program first, and what runs is what the host gave. Gives the exit
    /// status 0 when every form was evaluated, or the failure of the form
    /// that was not.
    pub fn execute<H: Host>(&mut self, host: &mut H) -> (r: Result<i32, Error>)
        requires
            old(self).wf(),
        ensures
            final(self).wf(),
            kept(old(self).scopes(), final(self).scopes(), old(self).written(), final(self).written()),
            final(self).mode() == old(self).mode(),
            final(self).program() == old(self).program(),
            final(self).limit() == old(self).limit(),
            final(self).pending() == 0,
            r matches Ok(status) ==> status == 0,
            old(self).mode() == InterpMode::Debug ==> agrees(
                ran(
                    old(self).scopes(),
                    old(self).written(),
                    0,
                    old(self).program(),
                    old(self).limit(),
                ),
                final(self).scopes(),
                final(self).written(),
                status_result(r),
            ),
    {
        proof {
            lemma_kept_same(self.env@, self.output@);
        }
        let r = if self.mode == InterpMode::Debug {
            run(&mut self.env, 0, &mut self.stack, &self.program, &mut self.output, host, self.limit)
        } else {
            match host.optimize(copy_all(&self.program)) {
                Some(program) => run(
                    &mut self.env,
                    0,
                    &mut self.stack,
                    &program,
                    &mut self.output,
                    host,
                    self.limit,
                ),
                None => {
                    self.stack.clear();
                    Err(Error::Rejected)
                },
            }
        };
        match r {
            Ok(()) => Ok(0),
            Err(e) => Err(e),
        }
    }

    /// Evaluates `node` in the scope `scope` and pushes its value: exactly one
    /// value more is on the stack afterwards, and what was on it before is
    /// untouched. At most `depth` S-expressions may be nested in the
    /// evaluation; a closure's body counts as nested in the call.
    pub fn execute_node<H: Host>(
        env: &mut Environment,
        scope: usize,
        stack: &mut Vec<Value>,
        node: &Value,
        out: &mut String,
        host: &mut H,
        depth: usize,
    ) -> (r: Result<(), Error>)
        requires
            old(env).wf(),
        ensures
            final(env).wf(),
            kept(old(env)@, final(env)@, old(out)@, final(out)@),
            old(stack)@.is_prefix_of(final(stack)@),
            r is Ok ==> final(stack)@.len() == old(stack)@.len() + 1,
            r is Err && (!(node is Sexpr) || depth == 0) ==> final(stack)@ == old(stack)@,
            agrees(
                evaluated(old(env)@, old(out)@, scope as int, node@, depth as nat),
                final(env)@,
                final(out)@,
                pushed(r, final(stack)@),
            ),
        decreases depth, 0int,
    {
        proof {
            lemma_kept_same(env@, out@);
        }
        match node {
            Value::Sexpr { op, operands } => {
                if depth == 0 {
                    return Err(Error::TooDeep);
                }
                let form = classify(op);
                let ghost base = stack@.len() as int;
                let ready = prepare(env, scope, stack, form, operands, out, host, depth - 1);
                match ready {
                    Ok(()) => {},
                    Err(e) => {
                        return Err(e);
                    },
                }
                let ghost env1 = env@;
                let ghost out1 = out@;
                let ghost stack1 = stack@;
                let n: usize = operands.len();
                proof {
                    assert(stack1.len() - n == base);
                }
                match env.find(scope, op) {
                    None => Err(Error::Unbound(op.clone())),
                    Some(EnvValue::EnvCode(b)) => {
                        let v = apply(b, env, scope, stack, n, out, host, depth - 1);
                        proof {
                            lemma_kept_trans(old(env)@, env1, env@, old(out)@, out1, out@);
                            assert(stack1.take(stack1.len() - n) =~= old(stack)@);
                        }
                        match v {
                            Ok(v) => {
                                stack.push(v);
                                Ok(())
                            },
                            Err(e) => Err(e),
                        }
                    },
                    Some(EnvValue::Value(Value::Code { params, body, env: captured })) => {
                        let args = take(stack, n);
                        proof {
                            assert(stack@ =~= old(stack)@);
                        }
                        let v = call(env, captured, &params, &body, args, stack, out, host, depth - 1);
                        proof {
                            lemma_kept_trans(old(env)@, env1, env@, old(out)@, out1, out@);
                        }
                        match v {
                            Ok(v) => {
                                stack.push(v);
                                Ok(())
                            },
                            Err(e) => Err(e),
                        }
                    },
                    Some(_) => Err(Error::NotCallable(op.clone())),
                }
            },
            Value::Ident(name) => match env.find(scope, name) {
                Some(EnvValue::Value(v)) => {
                    stack.push(v);
                    Ok(())
                },
                Some(EnvValue::EnvCode(_)) => Err(Error::NativeAsValue(name.clone())),
                None => Err(Error::Unbound(name.clone())),
            },
            other => {
                stack.push(other.copy());
                Ok(())
            },
        }
    }
}

} // verus!
