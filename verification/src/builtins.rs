//! The native procedures that work on their operands alone. Each takes the
//! operands of one call, in the order they were written, and gives the
//! call's result.

use crate::env::{lookup, replaced, Builtin, EnvValue, Environment, SpecEnvValue, SpecScope};
use crate::error::{Error, SpecError};
use crate::host::Host;
use crate::text::{decimal, decimal_text, text_result, unescape, unescaped};
use crate::value::{copy_all, same, tag, view_all, SpecValue, Value};
use vstd::prelude::*;

verus! {

/// The model of a value or a failure.
pub open spec fn value_result(r: Result<Value, Error>) -> Result<SpecValue, SpecError> {
    match r {
        Ok(v) => Ok(v@),
        Err(e) => Err(e@),
    }
}

/// The position of the first operand that is no number, if there is one.
pub open spec fn first_non_numeric(operands: Seq<SpecValue>) -> Option<int>
    decreases operands.len(),
{
    if operands.len() == 0 {
        None
    } else {
        match first_non_numeric(operands.drop_last()) {
            Some(i) => Some(i),
            None => if operands.last() is Integer || operands.last() is Float {
                None
            } else {
                Some(operands.len() - 1)
            },
        }
    }
}

/// Whether some operand is a float.
pub open spec fn has_float(operands: Seq<SpecValue>) -> bool {
    exists|i: int| 0 <= i < operands.len() && (#[trigger] operands[i]) is Float
}

/// The exact sum of the integers among the operands.
pub open spec fn int_sum(operands: Seq<SpecValue>) -> int
    decreases operands.len(),
{
    if operands.len() == 0 {
        0
    } else {
        int_sum(operands.drop_last()) + match operands.last() {
            SpecValue::Integer(n) => n,
            _ => 0,
        }
    }
}

/// What `+` gives for operands that are all integers: their exact sum, or a
/// failure if the sum does not fit in 64 bits.
pub open spec fn integer_total(operands: Seq<SpecValue>) -> Result<SpecValue, SpecError> {
    if i64::MIN <= int_sum(operands) <= i64::MAX {
        Ok(SpecValue::Integer(int_sum(operands)))
    } else {
        Err(SpecError::Overflow)
    }
}

/// Whether every operand after the first is structurally equal to the first.
pub open spec fn all_same(operands: Seq<SpecValue>) -> bool {
    forall|i: int| 0 < i < operands.len() ==> same(operands[0], #[trigger] operands[i])
}

/// The place in an array of `length` elements that `index` names: itself if
/// it is not negative, counted back from the end if it is; `None` if that
/// place does not exist.
pub open spec fn position(index: int, length: int) -> Option<int> {
    if 0 <= index < length {
        Some(index)
    } else if -length <= index < 0 {
        Some(length + index)
    } else {
        None
    }
}

/// What `get` gives.
pub open spec fn got(operands: Seq<SpecValue>) -> Result<SpecValue, SpecError> {
    if operands.len() != 2 {
        Err(SpecError::WrongCount { procedure: Builtin::Get, given: operands.len() as int })
    } else {
        match operands[0] {
            SpecValue::Array(items) => match operands[1] {
                SpecValue::Integer(i) => match position(i, items.len() as int) {
                    Some(p) => Ok(items[p]),
                    None => Err(SpecError::OutOfRange { index: i, length: items.len() as int }),
                },
                _ => Err(SpecError::WrongType { procedure: Builtin::Get, operand: 1 }),
            },
            _ => Err(SpecError::WrongType { procedure: Builtin::Get, operand: 0 }),
        }
    }
}

/// What `len` gives.
pub open spec fn measured(operands: Seq<SpecValue>) -> Result<SpecValue, SpecError> {
    if operands.len() != 1 {
        Err(SpecError::WrongCount { procedure: Builtin::Len, given: operands.len() as int })
    } else {
        match operands[0] {
            SpecValue::Array(items) => if items.len() <= i64::MAX {
                Ok(SpecValue::Integer(items.len() as int))
            } else {
                Err(SpecError::Overflow)
            },
            _ => Err(SpecError::WrongType { procedure: Builtin::Len, operand: 0 }),
        }
    }
}

/// What `type` gives.
pub open spec fn typed(operands: Seq<SpecValue>) -> Result<SpecValue, SpecError> {
    if operands.len() != 1 {
        Err(SpecError::WrongCount { procedure: Builtin::Type, given: operands.len() as int })
    } else {
        match tag(operands[0]) {
            Some(name) => Ok(SpecValue::Symbol(name)),
            None => Err(SpecError::WrongType { procedure: Builtin::Type, operand: 0 }),
        }
    }
}

/// What `fn` gives in the scope `scope`: a closure over that scope, with the
/// first operand's elements as parameters and the other operands as body.
pub open spec fn closed_over(operands: Seq<SpecValue>, scope: nat) -> Result<SpecValue, SpecError> {
    if operands.len() == 0 {
        Err(SpecError::WrongCount { procedure: Builtin::Function, given: 0 })
    } else {
        match operands[0] {
            SpecValue::Array(params) => Ok(
                SpecValue::Code { params, body: operands.skip(1), env: scope },
            ),
            _ => Err(SpecError::WrongType { procedure: Builtin::Function, operand: 0 }),
        }
    }
}

/// What `print` writes for the operand at position `at`: an integer in
/// decimal, a string with its escape sequences replaced, a symbol after a
/// quote, a boolean as `true` or `false`. Nothing else can be printed, but
/// for a float: its text is the host's, and counts as empty here.
pub open spec fn shown(v: SpecValue, at: int) -> Result<Seq<char>, SpecError> {
    match v {
        SpecValue::Integer(n) => Ok(decimal(n)),
        SpecValue::Float(_) => Ok(Seq::empty()),
        SpecValue::Str(text) => unescaped(text),
        SpecValue::Symbol(name) => Ok("'"@ + name),
        SpecValue::Boolean(b) => Ok(
            if b {
                "true"@
            } else {
                "false"@
            },
        ),
        _ => Err(SpecError::WrongType { procedure: Builtin::Print, operand: at }),
    }
}

/// What `print` writes, but for the texts of floats, and how it ends: the
/// operands' texts from the left, up to the first that fails.
pub open spec fn printed(operands: Seq<SpecValue>) -> (Seq<char>, Option<SpecError>)
    decreases operands.len(),
{
    if operands.len() == 0 {
        (Seq::empty(), None)
    } else {
        let (text, failure) = printed(operands.drop_last());
        match failure {
            Some(e) => (text, Some(e)),
            None => match shown(operands.last(), operands.len() - 1) {
                Ok(more) => (text + more, None),
                Err(e) => (text, Some(e)),
            },
        }
    }
}

/// What `set` does in the scope `scope`, and what it gives. With the name of
/// an array as first operand, the name is rebound, in the nearest scope that
/// binds it, to the array with one element replaced. With an array itself as
/// first operand, nothing happens.
pub open spec fn set_outcome(scopes: Seq<SpecScope>, scope: int, operands: Seq<SpecValue>) -> (
    Seq<SpecScope>,
    Result<SpecValue, SpecError>,
) {
    if operands.len() != 3 {
        (
            scopes,
            Err(SpecError::WrongCount { procedure: Builtin::Update, given: operands.len() as int }),
        )
    } else {
        match operands[0] {
            SpecValue::Array(_) => (scopes, Ok(SpecValue::Nil)),
            SpecValue::Ident(name) => match lookup(scopes, scope, name) {
                None => (scopes, Err(SpecError::Unbound(name))),
                Some(SpecEnvValue::Value(SpecValue::Array(items))) => match operands[1] {
                    SpecValue::Integer(i) => match position(i, items.len() as int) {
                        Some(p) => (
                            replaced(
                                scopes,
                                scope,
                                name,
                                SpecEnvValue::Value(SpecValue::Array(items.update(p, operands[2]))),
                            ),
                            Ok(SpecValue::Nil),
                        ),
                        None => (
                            scopes,
                            Err(SpecError::OutOfRange { index: i, length: items.len() as int }),
                        ),
                    },
                    _ => (
                        scopes,
                        Err(SpecError::WrongType { procedure: Builtin::Update, operand: 1 }),
                    ),
                },
                Some(_) => (
                    scopes,
                    Err(SpecError::WrongType { procedure: Builtin::Update, operand: 0 }),
                ),
            },
            _ => (scopes, Err(SpecError::WrongType { procedure: Builtin::Update, operand: 0 })),
        }
    }
}

/// Counting from the end. In an array that is not empty, -1 names the last
/// element and the negated length names the first; an index whose magnitude
/// exceeds the length names nothing, and neither does the length itself.
pub proof fn law_position(index: int, length: int)
    requires
        length >= 0,
    ensures
        length > 0 ==> position(-1, length) == Some(length - 1),
        length > 0 ==> position(-length, length) == Some(0int),
        index > length || index < -length ==> position(index, length) is None,
        position(length, length) is None,
        position(index, length) matches Some(p) ==> 0 <= p < length,
{
}

/// The place that `index` names in an array of `length` elements.
pub fn normalize(index: i64, length: usize) -> (r: Option<usize>)
    ensures
        r is Some == position(index as int, length as int) is Some,
        r matches Some(p) ==> Some(p as int) == position(index as int, length as int),
{
    if index >= 0 {
        if (index as u64) < (length as u64) {
            Some(index as usize)
        } else {
            None
        }
    } else {
        let back: u64 = (-(index as i128)) as u64;
        if back <= length as u64 {
            Some(length - (back as usize))
        } else {
            None
        }
    }
}

proof fn lemma_take_step(operands: Seq<SpecValue>, i: int)
    requires
        0 <= i < operands.len(),
    ensures
        operands.take(i + 1).drop_last() == operands.take(i),
        operands.take(i + 1).last() == operands[i],
{
    assert(operands.take(i + 1).drop_last() =~= operands.take(i));
}

/// `+`: the sum of the operands. Integers give their exact sum as an
/// integer, or a failure if it does not fit. With a float among the operands
/// the result is a float, added up by the host from the last operand to the
/// first, starting from zero. An operand that is no number is a failure.
pub fn add<H: Host>(operands: &Vec<Value>, host: &mut H) -> (r: Result<Value, Error>)
    ensures
        match first_non_numeric(view_all(operands@)) {
            Some(i) => value_result(r) == Err::<SpecValue, SpecError>(
                SpecError::WrongType { procedure: Builtin::Add, operand: i },
            ),
            None => if has_float(view_all(operands@)) {
                r matches Ok(v) && v@ is Float
            } else {
                value_result(r) == integer_total(view_all(operands@))
            },
        },
{
    let ghost ops = view_all(operands@);
    let mut total: i128 = 0;
    let mut floats = false;
    let mut i: usize = 0;
    assert(ops.take(0) =~= Seq::<SpecValue>::empty());
    while i < operands.len()
        invariant
            i <= operands.len(),
            ops == view_all(operands@),
            first_non_numeric(ops.take(i as int)) is None,
            total == int_sum(ops.take(i as int)),
            floats == has_float(ops.take(i as int)),
            -(i as int) * 0x8000_0000_0000_0000 <= total <= (i as int) * 0x8000_0000_0000_0000,
        decreases operands.len() - i,
    {
        proof {
            lemma_take_step(ops, i as int);
            lemma_has_float_step(ops, i as int);
            assert(ops[i as int] == operands[i as int]@);
        }
        match &operands[i] {
            Value::Integer(n) => {
                total = total + (*n as i128);
            },
            Value::Float(_) => {
                floats = true;
            },
            _ => {
                proof {
                    lemma_first_non_numeric(ops, i as int);
                }
                return Err(Error::WrongType { procedure: Builtin::Add, operand: i });
            },
        }
        i += 1;
    }
    assert(ops.take(operands.len() as int) =~= ops);
    if !floats {
        if total < (i64::MIN as i128) || total > (i64::MAX as i128) {
            return Err(Error::Overflow);
        }
        return Ok(Value::Integer(total as i64));
    }
    let mut sum: u64 = 0;
    let mut k: usize = operands.len();
    while k > 0
        invariant
            k <= operands.len(),
        decreases k,
    {
        k -= 1;
        let term: u64 = match &operands[k] {
            Value::Float(bits) => *bits,
            Value::Integer(n) => host.float_from_int(*n),
            _ => 0,
        };
        sum = host.float_add(sum, term);
    }
    Ok(Value::Float(sum))
}

proof fn lemma_first_non_numeric(operands: Seq<SpecValue>, i: int)
    requires
        0 <= i < operands.len(),
        first_non_numeric(operands.take(i)) is None,
        !(operands[i] is Integer || operands[i] is Float),
    ensures
        first_non_numeric(operands) == Some(i),
    decreases operands.len() - i,
{
    if i + 1 == operands.len() {
        assert(operands.drop_last() =~= operands.take(i));
    } else {
        let shorter = operands.drop_last();
        assert(shorter.take(i) =~= operands.take(i));
        lemma_first_non_numeric(shorter, i);
    }
}

/// `=`: whether every operand after the first is structurally equal to the
/// first. Operands of different kinds are unequal; that is no failure.
pub fn equal(operands: &Vec<Value>) -> (r: Result<Value, Error>)
    ensures
        value_result(r) == if operands.len() < 2 {
            Err::<SpecValue, SpecError>(
                SpecError::WrongCount { procedure: Builtin::Equal, given: operands.len() as int },
            )
        } else {
            Ok(SpecValue::Boolean(all_same(view_all(operands@))))
        },
{
    if operands.len() < 2 {
        return Err(Error::WrongCount { procedure: Builtin::Equal, given: operands.len() });
    }
    let ghost ops = view_all(operands@);
    let mut i: usize = 1;
    while i < operands.len()
        invariant
            1 <= i <= operands.len(),
            ops == view_all(operands@),
            forall|j: int| 0 < j < i ==> same(ops[0], #[trigger] ops[j]),
        decreases operands.len() - i,
    {
        if !operands[0].equals(&operands[i]) {
            assert(!same(ops[0], ops[i as int]));
            return Ok(Value::Boolean(false));
        }
        i += 1;
    }
    Ok(Value::Boolean(true))
}

/// `get`: the element of an array at an index, which may count from the end.
pub fn get(operands: &Vec<Value>) -> (r: Result<Value, Error>)
    ensures
        value_result(r) == got(view_all(operands@)),
{
    if operands.len() != 2 {
        return Err(Error::WrongCount { procedure: Builtin::Get, given: operands.len() });
    }
    proof {
        assert(view_all(operands@)[0] == operands[0]@);
        assert(view_all(operands@)[1] == operands[1]@);
    }
    match &operands[0] {
        Value::Array(items) => match &operands[1] {
            Value::Integer(index) => match normalize(*index, items.len()) {
                Some(p) => {
                    assert(view_all(items@).len() == items.len());
                    assert(view_all(items@)[p as int] == items[p as int]@);
                    Ok(items[p].copy())
                },
                None => {
                    assert(view_all(items@).len() == items.len());
                    Err(Error::OutOfRange { index: *index, length: items.len() })
                },
            },
            _ => Err(Error::WrongType { procedure: Builtin::Get, operand: 1 }),
        },
        _ => Err(Error::WrongType { procedure: Builtin::Get, operand: 0 }),
    }
}

/// `len`: the number of elements of an array.
pub fn len(operands: &Vec<Value>) -> (r: Result<Value, Error>)
    ensures
        value_result(r) == measured(view_all(operands@)),
{
    if operands.len() != 1 {
        return Err(Error::WrongCount { procedure: Builtin::Len, given: operands.len() });
    }
    proof {
        assert(view_all(operands@)[0] == operands[0]@);
    }
    match &operands[0] {
        Value::Array(items) => {
            assert(view_all(items@).len() == items.len());
            if items.len() as u64 <= i64::MAX as u64 {
                Ok(Value::Integer(items.len() as i64))
            } else {
                Err(Error::Overflow)
            }
        },
        _ => Err(Error::WrongType { procedure: Builtin::Len, operand: 0 }),
    }
}

/// `type`: a symbol that names the kind of the operand.
pub fn type_obj(operands: &Vec<Value>) -> (r: Result<Value, Error>)
    ensures
        value_result(r) == typed(view_all(operands@)),
{
    if operands.len() != 1 {
        return Err(Error::WrongCount { procedure: Builtin::Type, given: operands.len() });
    }
    match operands[0].kind_name() {
        Some(name) => Ok(Value::Symbol(name)),
        None => Err(Error::WrongType { procedure: Builtin::Type, operand: 0 }),
    }
}

/// `fn`: a closure over the scope `scope`. The first operand holds the
/// parameters, the others are the body; neither is looked into here.
pub fn function(scope: usize, operands: &Vec<Value>) -> (r: Result<Value, Error>)
    ensures
        value_result(r) == closed_over(view_all(operands@), scope as nat),
{
    if operands.len() == 0 {
        return Err(Error::WrongCount { procedure: Builtin::Function, given: 0 });
    }
    match &operands[0] {
        Value::Array(params) => {
            let mut body: Vec<Value> = Vec::new();
            let mut i: usize = 1;
            while i < operands.len()
                invariant
                    1 <= i <= operands.len(),
                    body.len() == i - 1,
                    forall|j: int| 0 <= j < body.len() ==> body[j]@ == operands[j + 1]@,
                decreases operands.len() - i,
            {
                body.push(operands[i].copy());
                i += 1;
            }
            assert(view_all(body@) =~= view_all(operands@).skip(1));
            Ok(Value::Code { params: copy_all(params), body, env: scope })
        },
        _ => Err(Error::WrongType { procedure: Builtin::Function, operand: 0 }),
    }
}

proof fn lemma_has_float_step(operands: Seq<SpecValue>, i: int)
    requires
        0 <= i < operands.len(),
    ensures
        has_float(operands.take(i + 1)) == (has_float(operands.take(i)) || operands[i] is Float),
        has_float(operands.take(i)) ==> has_float(operands),
        operands[i] is Float ==> has_float(operands),
{
    let shorter = operands.take(i);
    let longer = operands.take(i + 1);
    if has_float(longer) {
        let j = choose|j: int| 0 <= j < longer.len() && (#[trigger] longer[j]) is Float;
        if j < i {
            assert(shorter[j] is Float);
        }
    }
    if has_float(shorter) {
        let j = choose|j: int| 0 <= j < shorter.len() && (#[trigger] shorter[j]) is Float;
        assert(longer[j] is Float);
        assert(operands[j] is Float);
    }
    if operands[i] is Float {
        assert(longer[i] is Float);
    }
}

proof fn lemma_printed_stops(operands: Seq<SpecValue>, i: int, e: SpecError)
    requires
        0 <= i < operands.len(),
        printed(operands.take(i)).1 is None,
        shown(operands[i], i) == Err::<Seq<char>, SpecError>(e),
    ensures
        printed(operands) == (printed(operands.take(i)).0, Some(e)),
    decreases operands.len() - i,
{
    if i + 1 == operands.len() {
        assert(operands.drop_last() =~= operands.take(i));
    } else {
        let shorter = operands.drop_last();
        assert(shorter.take(i) =~= operands.take(i));
        lemma_printed_stops(shorter, i, e);
    }
}

/// The text of one operand of `print` that is no float.
fn show(v: &Value, at: usize) -> (r: Result<String, Error>)
    requires
        !(v is Float),
    ensures
        text_result(r) == shown(v@, at as int),
{
    match v {
        Value::Integer(n) => Ok(decimal_text(*n)),
        Value::Str(text) => unescape(text.as_str()),
        Value::Symbol(name) => {
            let mut text = String::from_str("'");
            text.append(name.as_str());
            Ok(text)
        },
        Value::Boolean(b) => {
            if *b {
                Ok(String::from_str("true"))
            } else {
                Ok(String::from_str("false"))
            }
        },
        _ => Err(Error::WrongType { procedure: Builtin::Print, operand: at }),
    }
}

/// `print`: writes the operands to `out`, from the left, and gives 0. The
/// first operand that cannot be printed is the failure; what was written
/// before it stays written. A float is written as the host renders it.
pub fn print<H: Host>(operands: &Vec<Value>, out: &mut String, host: &mut H) -> (r: Result<
    Value,
    Error,
>)
    ensures
        old(out)@.is_prefix_of(final(out)@),
        operands.len() == 0 ==> final(out)@ == old(out)@ && value_result(r) == Err::<
            SpecValue,
            SpecError,
        >(SpecError::WrongCount { procedure: Builtin::Print, given: 0 }),
        operands.len() > 0 ==> value_result(r) == match printed(view_all(operands@)).1 {
            None => Ok::<SpecValue, SpecError>(SpecValue::Integer(0)),
            Some(e) => Err(e),
        },
        operands.len() > 0 && !has_float(view_all(operands@)) ==> final(out)@ == old(out)@
            + printed(view_all(operands@)).0,
{
    if operands.len() == 0 {
        return Err(Error::WrongCount { procedure: Builtin::Print, given: 0 });
    }
    let ghost ops = view_all(operands@);
    let ghost start = out@;
    let mut i: usize = 0;
    proof {
        assert(ops.take(0) =~= Seq::<SpecValue>::empty());
        assert(start + Seq::<char>::empty() =~= start);
    }
    while i < operands.len()
        invariant
            i <= operands.len(),
            ops == view_all(operands@),
            start == old(out)@,
            start.is_prefix_of(out@),
            printed(ops.take(i as int)).1 is None,
            !has_float(ops.take(i as int)) ==> out@ == start + printed(ops.take(i as int)).0,
        decreases operands.len() - i,
    {
        proof {
            lemma_has_float_step(ops, i as int);
            lemma_take_step(ops, i as int);
            assert(ops[i as int] == operands[i as int]@);
        }
        match &operands[i] {
            Value::Float(bits) => {
                let text = host.float_text(*bits);
                out.append(text.as_str());
            },
            other => {
                match show(other, i) {
                    Ok(text) => {
                        out.append(text.as_str());
                        proof {
                            if !has_float(ops.take(i + 1)) {
                                assert(out@ =~= start + printed(ops.take(i + 1)).0);
                            }
                        }
                    },
                    Err(e) => {
                        proof {
                            lemma_printed_stops(ops, i as int, e@);
                        }
                        return Err(e);
                    },
                }
            },
        }
        i += 1;
    }
    proof {
        assert(ops.take(operands.len() as int) =~= ops);
    }
    Ok(Value::Integer(0))
}

/// `set`: replaces one element of the array that a name is bound to, by
/// rebinding the name in the nearest scope that binds it to an array with
/// the new element. The operands are the name, unevaluated, the index, which
/// may count from the end, and the new element. Gives nil.
pub fn set(env: &mut Environment, scope: usize, operands: Vec<Value>) -> (r: Result<Value, Error>)
    requires
        old(env).wf(),
    ensures
        final(env).wf(),
        (final(env)@, value_result(r)) == set_outcome(
            old(env)@,
            scope as int,
            view_all(operands@),
        ),
{
    let ghost ops = view_all(operands@);
    let mut operands = operands;
    if operands.len() != 3 {
        return Err(Error::WrongCount { procedure: Builtin::Update, given: operands.len() });
    }
    proof {
        assert(ops[0] == operands[0]@);
        assert(ops[1] == operands[1]@);
        assert(ops[2] == operands[2]@);
    }
    let value = operands.pop().unwrap();
    let index = operands.pop().unwrap();
    let target = operands.pop().unwrap();
    match target {
        Value::Array(_) => Ok(Value::Nil),
        Value::Ident(name) => match env.find(scope, &name) {
            None => Err(Error::Unbound(name)),
            Some(EnvValue::Value(Value::Array(items))) => match index {
                Value::Integer(i) => match normalize(i, items.len()) {
                    Some(p) => {
                        let mut items = items;
                        let ghost had = view_all(items@);
                        items[p] = value;
                        proof {
                            assert(view_all(items@) =~= had.update(p as int, value@));
                        }
                        env.replace(scope, name, EnvValue::Value(Value::Array(items)));
                        Ok(Value::Nil)
                    },
                    None => {
                        assert(view_all(items@).len() == items.len());
                        Err(Error::OutOfRange { index: i, length: items.len() })
                    },
                },
                _ => Err(Error::WrongType { procedure: Builtin::Update, operand: 1 }),
            },
            Some(_) => Err(Error::WrongType { procedure: Builtin::Update, operand: 0 }),
        },
        _ => Err(Error::WrongType { procedure: Builtin::Update, operand: 0 }),
    }
}

} // verus!
