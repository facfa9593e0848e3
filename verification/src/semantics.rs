//! What evaluation means: the value of a node, and what its evaluation does
//! to the scopes and to the output, as mathematical functions of the node and
//! of the state it is evaluated in.
//!
//! The functions here give `None` where the answer depends on the host: when
//! floats are added or printed, and when a module is imported.

use crate::builtins::{
    all_same, closed_over, first_non_numeric, got, has_float, integer_total, measured, printed,
    set_outcome, typed,
};
use crate::call::bound;
use crate::env::{
    declared, extends, lookup, merged, opened, populated, Builtin, SpecEnvValue, SpecScope,
};
use crate::text::{is_relative, module_file};
use crate::error::SpecError;
use crate::value::SpecValue;
use vstd::prelude::*;

verus! {

/// How the operands of an S-expression are made ready, which its operator's
/// name decides before anything is evaluated.
#[derive(Debug, Clone, Copy, PartialEq, Eq, Structural)]
pub enum Form {
    /// `fn`: no operand is evaluated.
    Function,
    /// `if`: only the first operand is evaluated.
    Conditional,
    /// `define` and `set`: every operand but the first is evaluated.
    Binding,
    /// Anything else: every operand is evaluated.
    Call,
}

/// The form that an operator's name stands for.
pub open spec fn form_of(op: Seq<char>) -> Form {
    if op == "fn"@ {
        Form::Function
    } else if op == "if"@ {
        Form::Conditional
    } else if op == "define"@ || op == "set"@ {
        Form::Binding
    } else {
        Form::Call
    }
}

/// Whether the operand at `position` of a form goes onto the stack as it is
/// written, without being evaluated.
pub open spec fn is_raw(form: Form, position: int) -> bool {
    match form {
        Form::Function => true,
        Form::Conditional => position > 0,
        Form::Binding => position == 0,
        Form::Call => false,
    }
}

/// What evaluation may do to the scopes and to the output: add scopes and
/// bindings, rebind names, and write more.
pub open spec fn kept(
    scopes: Seq<SpecScope>,
    scopes_after: Seq<SpecScope>,
    out: Seq<char>,
    out_after: Seq<char>,
) -> bool {
    extends(scopes, scopes_after) && out.is_prefix_of(out_after)
}

/// How an evaluation ends: the scopes and the output as it leaves them, and
/// what it gives.
pub ghost struct Done<T> {
    pub scopes: Seq<SpecScope>,
    pub out: Seq<char>,
    pub result: Result<T, SpecError>,
}

/// An evaluation that ends with the given state and result.
pub open spec fn done<T>(scopes: Seq<SpecScope>, out: Seq<char>, result: Result<T, SpecError>) -> Option<
    Done<T>,
> {
    Some(Done { scopes, out, result })
}

/// Whether an evaluation that ended with these scopes, this output and this
/// result ended as `meant`, where `meant` says how it has to end.
pub open spec fn agrees<T>(
    meant: Option<Done<T>>,
    scopes: Seq<SpecScope>,
    out: Seq<char>,
    result: Result<T, SpecError>,
) -> bool {
    meant matches Some(d) ==> d.scopes == scopes && d.out == out && d.result == result
}

/// What a node that is no S-expression evaluates to in the scope `scope`: an
/// identifier to the value it is bound to, anything else to itself. `None`
/// for an S-expression.
pub open spec fn atom_outcome(scopes: Seq<SpecScope>, scope: int, node: SpecValue) -> Option<
    Result<SpecValue, SpecError>,
> {
    match node {
        SpecValue::Sexpr { .. } => None,
        SpecValue::Ident(name) => Some(
            match lookup(scopes, scope, name) {
                Some(SpecEnvValue::Value(v)) => Ok(v),
                Some(SpecEnvValue::EnvCode(_)) => Err(SpecError::NativeAsValue(name)),
                None => Err(SpecError::Unbound(name)),
            },
        ),
        _ => Some(Ok(node)),
    }
}

/// Which branch `if` evaluates: `Ok(None)` when the condition is false and
/// there is no branch for that.
pub open spec fn if_choice(operands: Seq<SpecValue>) -> Result<Option<SpecValue>, SpecError> {
    if operands.len() < 2 || operands.len() > 3 {
        Err(SpecError::WrongCount { procedure: Builtin::If, given: operands.len() as int })
    } else {
        match operands[0] {
            SpecValue::Boolean(true) => Ok(Some(operands[1])),
            SpecValue::Boolean(false) => if operands.len() == 3 {
                Ok(Some(operands[2]))
            } else {
                Ok(None)
            },
            _ => Err(SpecError::WrongType { procedure: Builtin::If, operand: 0 }),
        }
    }
}

/// The scopes after each binding of the list is declared in the scope `at`,
/// from the first to the last.
pub open spec fn declared_each(
    scopes: Seq<SpecScope>,
    at: int,
    bindings: Seq<(Seq<char>, SpecValue)>,
) -> Seq<SpecScope>
    decreases bindings.len(),
{
    if bindings.len() == 0 {
        scopes
    } else {
        declared(
            declared_each(scopes, at, bindings.drop_last()),
            at,
            bindings.last().0,
            SpecEnvValue::Value(bindings.last().1),
        )
    }
}

/// The scopes after a root scope for the module at `path` is added: a scope
/// without a parent that holds the default bindings and, as the current
/// file, the module's path.
pub open spec fn module_root(scopes: Seq<SpecScope>, path: Seq<char>) -> Seq<SpecScope> {
    declared(
        populated(opened(scopes, None), scopes.len() as int),
        scopes.len() as int,
        "FILE"@,
        SpecEnvValue::Value(SpecValue::Str(path)),
    )
}

/// The evaluation of `node` in the scope `scope`, with at most `depth`
/// S-expressions nested in it. An S-expression makes its operands ready as
/// its operator's name says, then looks the operator up and calls what it
/// finds: a native procedure or a closure.
pub open spec fn evaluated(
    scopes: Seq<SpecScope>,
    out: Seq<char>,
    scope: int,
    node: SpecValue,
    depth: nat,
) -> Option<Done<SpecValue>>
    decreases depth, 0int, 0nat,
{
    match node {
        SpecValue::Sexpr { op, operands } => if depth == 0 {
            done(scopes, out, Err(SpecError::TooDeep))
        } else {
            match prepared(scopes, out, scope, form_of(op), operands, (depth - 1) as nat) {
                None => None,
                Some(ready) => match ready.result {
                    Err(e) => done(ready.scopes, ready.out, Err(e)),
                    Ok(args) => match lookup(ready.scopes, scope, op) {
                        None => done(ready.scopes, ready.out, Err(SpecError::Unbound(op))),
                        Some(SpecEnvValue::EnvCode(procedure)) => applied(
                            procedure,
                            ready.scopes,
                            ready.out,
                            scope,
                            args,
                            (depth - 1) as nat,
                        ),
                        Some(SpecEnvValue::Value(SpecValue::Code { params, body, env })) => called(
                            ready.scopes,
                            ready.out,
                            env,
                            params,
                            body,
                            args,
                            (depth - 1) as nat,
                        ),
                        Some(_) => done(ready.scopes, ready.out, Err(SpecError::NotCallable(op))),
                    },
                },
            }
        },
        _ => match atom_outcome(scopes, scope, node) {
            Some(result) => done(scopes, out, result),
            None => None,
        },
    }
}

/// The operands of a form made ready, from the first to the last: each one
/// evaluated, or as it is written where the form says so. The first failure
/// ends it.
pub open spec fn prepared(
    scopes: Seq<SpecScope>,
    out: Seq<char>,
    scope: int,
    form: Form,
    operands: Seq<SpecValue>,
    depth: nat,
) -> Option<Done<Seq<SpecValue>>>
    decreases depth, 1int, operands.len(),
{
    if operands.len() == 0 {
        done(scopes, out, Ok(Seq::empty()))
    } else {
        match prepared(scopes, out, scope, form, operands.drop_last(), depth) {
            None => None,
            Some(before) => match before.result {
                Err(e) => Some(before),
                Ok(values) => if is_raw(form, operands.len() - 1) {
                    done(before.scopes, before.out, Ok(values.push(operands.last())))
                } else {
                    match evaluated(before.scopes, before.out, scope, operands.last(), depth) {
                        None => None,
                        Some(last) => match last.result {
                            Err(e) => done(last.scopes, last.out, Err(e)),
                            Ok(v) => done(last.scopes, last.out, Ok(values.push(v))),
                        },
                    }
                },
            },
        }
    }
}

/// The expressions of a body evaluated in turn; what the last one gives, or
/// nil for no expression. The first failure ends it.
pub open spec fn sequenced(
    scopes: Seq<SpecScope>,
    out: Seq<char>,
    scope: int,
    body: Seq<SpecValue>,
    depth: nat,
) -> Option<Done<SpecValue>>
    decreases depth, 1int, body.len(),
{
    if body.len() == 0 {
        done(scopes, out, Ok(SpecValue::Nil))
    } else {
        match sequenced(scopes, out, scope, body.drop_last(), depth) {
            None => None,
            Some(before) => match before.result {
                Err(e) => Some(before),
                Ok(_) => evaluated(before.scopes, before.out, scope, body.last(), depth),
            },
        }
    }
}

/// The call of a closure that was made in the scope `captured`: the
/// arguments are bound to the parameters in a new scope below `captured`, and
/// the body is evaluated there.
pub open spec fn called(
    scopes: Seq<SpecScope>,
    out: Seq<char>,
    captured: nat,
    params: Seq<SpecValue>,
    body: Seq<SpecValue>,
    args: Seq<SpecValue>,
    depth: nat,
) -> Option<Done<SpecValue>>
    decreases depth, 2int, 0nat,
{
    match bound(params, args, 0) {
        Err(e) => done(scopes, out, Err(e)),
        Ok(bindings) => if captured >= scopes.len() {
            done(scopes, out, Err(SpecError::NoScope(captured as int)))
        } else {
            sequenced(
                declared_each(
                    opened(scopes, Some(captured as int)),
                    scopes.len() as int,
                    bindings,
                ),
                out,
                scopes.len() as int,
                body,
                depth,
            )
        },
    }
}

/// `if` on its operands: the condition, already evaluated, and the branches
/// as they were written.
pub open spec fn if_outcome(
    scopes: Seq<SpecScope>,
    out: Seq<char>,
    scope: int,
    operands: Seq<SpecValue>,
    depth: nat,
) -> Option<Done<SpecValue>>
    decreases depth, 1int, 0nat,
{
    match if_choice(operands) {
        Err(e) => done(scopes, out, Err(e)),
        Ok(None) => done(scopes, out, Ok(SpecValue::Nil)),
        Ok(Some(branch)) => evaluated(scopes, out, scope, branch, depth),
    }
}

/// The name that the first operand of `define` stands for, after `operand`
/// was evaluated where it is an S-expression.
pub open spec fn defined_name(operand: SpecValue) -> Result<Seq<char>, SpecError> {
    match operand {
        SpecValue::Ident(name) => Ok(name),
        _ => Err(SpecError::WrongType { procedure: Builtin::Define, operand: 0 }),
    }
}

/// `define` on its operands: the name as it was written and the value,
/// already evaluated.
pub open spec fn define_outcome(
    scopes: Seq<SpecScope>,
    out: Seq<char>,
    scope: int,
    operands: Seq<SpecValue>,
    depth: nat,
) -> Option<Done<SpecValue>>
    decreases depth, 1int, 0nat,
{
    if operands.len() != 2 {
        done(
            scopes,
            out,
            Err(SpecError::WrongCount { procedure: Builtin::Define, given: operands.len() as int }),
        )
    } else {
        match operands[0] {
            SpecValue::Sexpr { .. } => match evaluated(scopes, out, scope, operands[0], depth) {
                None => None,
                Some(named) => match named.result {
                    Err(e) => done(named.scopes, named.out, Err(e)),
                    Ok(v) => match defined_name(v) {
                        Err(e) => done(named.scopes, named.out, Err(e)),
                        Ok(name) => done(
                            declared(
                                named.scopes,
                                scope,
                                name,
                                SpecEnvValue::Value(operands[1]),
                            ),
                            named.out,
                            Ok(operands[1]),
                        ),
                    },
                },
            },
            _ => match defined_name(operands[0]) {
                Err(e) => done(scopes, out, Err(e)),
                Ok(name) => done(
                    declared(scopes, scope, name, SpecEnvValue::Value(operands[1])),
                    out,
                    Ok(operands[1]),
                ),
            },
        }
    }
}

/// `+` on its operands, where the host has no say: when an operand is no
/// number, and when all are integers.
pub open spec fn add_outcome(operands: Seq<SpecValue>) -> Option<Result<SpecValue, SpecError>> {
    match first_non_numeric(operands) {
        Some(i) => Some(Err(SpecError::WrongType { procedure: Builtin::Add, operand: i })),
        None => if has_float(operands) {
            None
        } else {
            Some(integer_total(operands))
        },
    }
}

/// `=` on its operands.
pub open spec fn equal_outcome(operands: Seq<SpecValue>) -> Result<SpecValue, SpecError> {
    if operands.len() < 2 {
        Err(SpecError::WrongCount { procedure: Builtin::Equal, given: operands.len() as int })
    } else {
        Ok(SpecValue::Boolean(all_same(operands)))
    }
}

/// `print` on its operands, where the host has no say: when there is no
/// float among them. The second component is what is written.
pub open spec fn print_outcome(operands: Seq<SpecValue>) -> Option<
    (Result<SpecValue, SpecError>, Seq<char>),
> {
    if operands.len() == 0 {
        Some(
            (Err(SpecError::WrongCount { procedure: Builtin::Print, given: 0 }), Seq::empty()),
        )
    } else if has_float(operands) {
        None
    } else {
        Some(
            (
                match printed(operands).1 {
                    None => Ok(SpecValue::Integer(0)),
                    Some(e) => Err(e),
                },
                printed(operands).0,
            ),
        )
    }
}

/// The call of a native procedure on its operands in the scope `scope`.
pub open spec fn applied(
    procedure: Builtin,
    scopes: Seq<SpecScope>,
    out: Seq<char>,
    scope: int,
    operands: Seq<SpecValue>,
    depth: nat,
) -> Option<Done<SpecValue>>
    decreases depth, 2int, 0nat,
{
    match procedure {
        Builtin::Add => match add_outcome(operands) {
            Some(result) => done(scopes, out, result),
            None => None,
        },
        Builtin::Equal => done(scopes, out, equal_outcome(operands)),
        Builtin::Print => match print_outcome(operands) {
            Some((result, text)) => done(scopes, out + text, result),
            None => None,
        },
        Builtin::Get => done(scopes, out, got(operands)),
        Builtin::Len => done(scopes, out, measured(operands)),
        Builtin::Type => done(scopes, out, typed(operands)),
        Builtin::Function => done(scopes, out, closed_over(operands, scope as nat)),
        Builtin::Update => done(
            set_outcome(scopes, scope, operands).0,
            out,
            set_outcome(scopes, scope, operands).1,
        ),
        Builtin::If => if_outcome(scopes, out, scope, operands, depth),
        Builtin::Define => define_outcome(scopes, out, scope, operands, depth),
        Builtin::Import => match import_outcome(scopes, scope, operands) {
            Some(e) => done(scopes, out, Err(e)),
            None => None,
        },
    }
}

/// The forms of a program evaluated in turn in the scope `scope`; the first
/// failure ends it.
pub open spec fn ran(
    scopes: Seq<SpecScope>,
    out: Seq<char>,
    scope: int,
    program: Seq<SpecValue>,
    depth: nat,
) -> Option<Done<()>>
    decreases program.len(),
{
    if program.len() == 0 {
        done(scopes, out, Ok(()))
    } else {
        match ran(scopes, out, scope, program.drop_last(), depth) {
            None => None,
            Some(before) => match before.result {
                Err(e) => Some(before),
                Ok(_) => match evaluated(before.scopes, before.out, scope, program.last(), depth) {
                    None => None,
                    Some(last) => match last.result {
                        Err(e) => done(last.scopes, last.out, Err(e)),
                        Ok(_) => done(last.scopes, last.out, Ok(())),
                    },
                },
            },
        }
    }
}

/// A module run and merged: its forms are evaluated in a new root scope, and
/// that scope's bindings are then copied into the scope `scope`. A failure
/// in the module comes back under the module's path, and nothing is copied.
pub open spec fn module_outcome(
    scopes: Seq<SpecScope>,
    out: Seq<char>,
    scope: int,
    path: Seq<char>,
    program: Seq<SpecValue>,
    depth: nat,
) -> Option<Done<()>> {
    match ran(module_root(scopes, path), out, scopes.len() as int, program, depth) {
        None => None,
        Some(d) => match d.result {
            Err(e) => done(d.scopes, d.out, Err(SpecError::Import { path, cause: Box::new(e) })),
            Ok(_) => done(merged(d.scopes, scope, scopes.len() as int), d.out, Ok(())),
        },
    }
}

/// The file that `import` asks the host for when `operand` is its operand at
/// `position`, or the failure that ends the import before the host is asked:
/// the operand has to be a string that holds a relative path, and `FILE` has
/// to be bound to a string.
pub open spec fn import_target(
    scopes: Seq<SpecScope>,
    scope: int,
    operand: SpecValue,
    position: int,
) -> Result<Seq<char>, SpecError> {
    match operand {
        SpecValue::Str(path) => match lookup(scopes, scope, "FILE"@) {
            Some(SpecEnvValue::Value(SpecValue::Str(file))) => if is_relative(path) {
                Ok(module_file(file, path))
            } else {
                Err(SpecError::NotRelative(path))
            },
            Some(_) => Err(SpecError::WrongType { procedure: Builtin::Import, operand: position }),
            None => Err(SpecError::Unbound("FILE"@)),
        },
        _ => Err(SpecError::WrongType { procedure: Builtin::Import, operand: position }),
    }
}

/// `import` on its operands, where the host has no say: when there is no
/// operand, and when the first operand fails before the host is asked.
pub open spec fn import_outcome(scopes: Seq<SpecScope>, scope: int, operands: Seq<SpecValue>) -> Option<
    SpecError,
> {
    if operands.len() == 0 {
        Some(SpecError::WrongCount { procedure: Builtin::Import, given: 0 })
    } else {
        match import_target(scopes, scope, operands[0], 0) {
            Err(e) => Some(e),
            Ok(_) => None,
        }
    }
}

/// Where the evaluation of a part of the operands fails or depends on the
/// host, the evaluation of all of them ends the same way.
pub proof fn lemma_prepared_stops(
    scopes: Seq<SpecScope>,
    out: Seq<char>,
    scope: int,
    form: Form,
    operands: Seq<SpecValue>,
    k: int,
    depth: nat,
)
    requires
        0 <= k <= operands.len(),
        prepared(scopes, out, scope, form, operands.take(k), depth) matches Some(d) ==> d.result is Err,
    ensures
        prepared(scopes, out, scope, form, operands, depth) == prepared(
            scopes,
            out,
            scope,
            form,
            operands.take(k),
            depth,
        ),
    decreases operands.len() - k,
{
    if k == operands.len() {
        assert(operands.take(k) =~= operands);
    } else {
        let shorter = operands.drop_last();
        assert(shorter.take(k) =~= operands.take(k));
        lemma_prepared_stops(scopes, out, scope, form, shorter, k, depth);
    }
}

/// Where the evaluation of a part of a body fails or depends on the host,
/// the evaluation of the whole body ends the same way.
pub proof fn lemma_sequenced_stops(
    scopes: Seq<SpecScope>,
    out: Seq<char>,
    scope: int,
    body: Seq<SpecValue>,
    k: int,
    depth: nat,
)
    requires
        0 <= k <= body.len(),
        sequenced(scopes, out, scope, body.take(k), depth) matches Some(d) ==> d.result is Err,
    ensures
        sequenced(scopes, out, scope, body, depth) == sequenced(
            scopes,
            out,
            scope,
            body.take(k),
            depth,
        ),
    decreases body.len() - k,
{
    if k == body.len() {
        assert(body.take(k) =~= body);
    } else {
        let shorter = body.drop_last();
        assert(shorter.take(k) =~= body.take(k));
        lemma_sequenced_stops(scopes, out, scope, shorter, k, depth);
    }
}

/// Where a part of a program fails or depends on the host, the whole
/// program ends the same way.
pub proof fn lemma_ran_stops(
    scopes: Seq<SpecScope>,
    out: Seq<char>,
    scope: int,
    program: Seq<SpecValue>,
    k: int,
    depth: nat,
)
    requires
        0 <= k <= program.len(),
        ran(scopes, out, scope, program.take(k), depth) matches Some(d) ==> d.result is Err,
    ensures
        ran(scopes, out, scope, program, depth) == ran(
            scopes,
            out,
            scope,
            program.take(k),
            depth,
        ),
    decreases program.len() - k,
{
    if k == program.len() {
        assert(program.take(k) =~= program);
    } else {
        let shorter = program.drop_last();
        assert(shorter.take(k) =~= program.take(k));
        lemma_ran_stops(scopes, out, scope, shorter, k, depth);
    }
}

} // verus!
