//! Runtime values, which are also the nodes of a program, and their
//! mathematical model.

use vstd::prelude::*;

verus! {

/// A runtime value or a node of a program: evaluation replaces nodes by
/// values, so both share one representation.
#[derive(Debug, PartialEq)]
pub enum Value {
    Integer(i64),
    /// A binary64 number, held as its IEEE 754 bit pattern.
    Float(u64),
    Boolean(bool),
    Nil,
    Symbol(String),
    Str(String),
    Array(Vec<Value>),
    List(Vec<Value>),
    /// A closure: formal parameters, body expressions and the index of the
    /// scope it was made in.
    Code { params: Vec<Value>, body: Vec<Value>, env: usize },
    /// An identifier that has not been resolved.
    Ident(String),
    /// An S-expression that has not been evaluated.
    Sexpr { op: String, operands: Vec<Value> },
}

/// The mathematical model of a [`Value`].
pub ghost enum SpecValue {
    Integer(int),
    Float(u64),
    Boolean(bool),
    Nil,
    Symbol(Seq<char>),
    Str(Seq<char>),
    Array(Seq<SpecValue>),
    List(Seq<SpecValue>),
    Code { params: Seq<SpecValue>, body: Seq<SpecValue>, env: nat },
    Ident(Seq<char>),
    Sexpr { op: Seq<char>, operands: Seq<SpecValue> },
}

/// The models of a sequence of values, element by element.
pub open spec fn view_all(items: Seq<Value>) -> Seq<SpecValue>
    decreases items, 1int,
{
    Seq::new(
        items.len(),
        |i: int|
            if 0 <= i < items.len() {
                items[i].view()
            } else {
                SpecValue::Nil
            },
    )
}

impl View for Value {
    type V = SpecValue;

    open spec fn view(&self) -> SpecValue
        decreases self, 0int,
    {
        match self {
            Value::Integer(n) => SpecValue::Integer(*n as int),
            Value::Float(bits) => SpecValue::Float(*bits),
            Value::Boolean(b) => SpecValue::Boolean(*b),
            Value::Nil => SpecValue::Nil,
            Value::Symbol(name) => SpecValue::Symbol(name@),
            Value::Str(text) => SpecValue::Str(text@),
            Value::Array(items) => SpecValue::Array(view_all(items@)),
            Value::List(items) => SpecValue::List(view_all(items@)),
            Value::Code { params, body, env } => SpecValue::Code {
                params: view_all(params@),
                body: view_all(body@),
                env: *env as nat,
            },
            Value::Ident(name) => SpecValue::Ident(name@),
            Value::Sexpr { op, operands } => SpecValue::Sexpr {
                op: op@,
                operands: view_all(operands@),
            },
        }
    }
}

/// The bit pattern without its sign bit.
pub open spec fn float_magnitude(bits: u64) -> int {
    bits as int % 0x8000_0000_0000_0000
}

/// Whether a bit pattern encodes a NaN: all exponent bits set and a fraction
/// that is not zero.
pub open spec fn float_is_nan(bits: u64) -> bool {
    float_magnitude(bits) > 0x7ff0_0000_0000_0000
}

/// IEEE 754 equality of two binary64 bit patterns: a NaN equals nothing, the
/// two zeros equal each other, and any other number equals only itself.
pub open spec fn float_eq(a: u64, b: u64) -> bool {
    &&& !float_is_nan(a)
    &&& !float_is_nan(b)
    &&& (a == b || (float_magnitude(a) == 0 && float_magnitude(b) == 0))
}

/// Structural equality of two sequences: equal lengths, equal elements.
pub open spec fn same_all(a: Seq<SpecValue>, b: Seq<SpecValue>) -> bool
    decreases a, 1int,
{
    &&& a.len() == b.len()
    &&& forall|i: int| 0 <= i < a.len() ==> same(#[trigger] a[i], b[i])
}

/// Structural equality, the meaning of the language's `=`: values of
/// different kinds are never equal, floats compare as IEEE 754 numbers, and
/// closures are equal when they have equal parameters and bodies and were
/// made in the same scope.
pub open spec fn same(a: SpecValue, b: SpecValue) -> bool
    decreases a, 0int,
{
    match a {
        SpecValue::Integer(x) => b == SpecValue::Integer(x),
        SpecValue::Float(x) => b matches SpecValue::Float(y) && float_eq(x, y),
        SpecValue::Boolean(x) => b == SpecValue::Boolean(x),
        SpecValue::Nil => b is Nil,
        SpecValue::Symbol(x) => b == SpecValue::Symbol(x),
        SpecValue::Str(x) => b == SpecValue::Str(x),
        SpecValue::Array(x) => b matches SpecValue::Array(y) && same_all(x, y),
        SpecValue::List(x) => b matches SpecValue::List(y) && same_all(x, y),
        SpecValue::Code { params, body, env } => {
            &&& b matches SpecValue::Code { params: p, body: c, env: e }
            &&& same_all(params, p)
            &&& same_all(body, c)
            &&& env == e
        },
        SpecValue::Ident(x) => b == SpecValue::Ident(x),
        SpecValue::Sexpr { op, operands } => {
            &&& b matches SpecValue::Sexpr { op: o, operands: r }
            &&& op == o
            &&& same_all(operands, r)
        },
    }
}

/// The name of a value's kind, as the language's `type` reports it; raw
/// identifiers and S-expressions have none.
pub open spec fn tag(v: SpecValue) -> Option<Seq<char>> {
    match v {
        SpecValue::Integer(_) => Some("integer"@),
        SpecValue::Float(_) => Some("float"@),
        SpecValue::Array(_) => Some("array"@),
        SpecValue::List(_) => Some("list"@),
        SpecValue::Str(_) => Some("string"@),
        SpecValue::Symbol(_) => Some("symbol"@),
        SpecValue::Code { .. } => Some("code"@),
        SpecValue::Boolean(_) => Some("boolean"@),
        SpecValue::Nil => Some("nil"@),
        SpecValue::Ident(_) => None,
        SpecValue::Sexpr { .. } => None,
    }
}

/// Values of different kinds are never equal: two structurally equal values
/// are of the same kind.
pub proof fn law_same_kind(a: SpecValue, b: SpecValue)
    requires
        same(a, b),
    ensures
        a is Integer <==> b is Integer,
        a is Float <==> b is Float,
        a is Boolean <==> b is Boolean,
        a is Nil <==> b is Nil,
        a is Symbol <==> b is Symbol,
        a is Str <==> b is Str,
        a is Array <==> b is Array,
        a is List <==> b is List,
        a is Code <==> b is Code,
        a is Ident <==> b is Ident,
        a is Sexpr <==> b is Sexpr,
{
}

/// Compares two binary64 bit patterns as IEEE 754 numbers.
pub fn floats_equal(a: u64, b: u64) -> (r: bool)
    ensures
        r == float_eq(a, b),
{
    let ma: u64 = a % 0x8000_0000_0000_0000u64;
    let mb: u64 = b % 0x8000_0000_0000_0000u64;
    if ma > 0x7ff0_0000_0000_0000u64 || mb > 0x7ff0_0000_0000_0000u64 {
        false
    } else {
        a == b || (ma == 0 && mb == 0)
    }
}

/// A deep copy of each element.
pub fn copy_all(items: &Vec<Value>) -> (r: Vec<Value>)
    ensures
        view_all(r@) == view_all(items@),
    decreases items, 1int,
{
    let mut out: Vec<Value> = Vec::new();
    let mut i: usize = 0;
    while i < items.len()
        invariant
            i <= items.len(),
            out.len() == i,
            forall|j: int| 0 <= j < i ==> out[j]@ == items[j]@,
        decreases items.len() - i,
    {
        let v = items[i].copy();
        out.push(v);
        i += 1;
    }
    assert(view_all(out@) =~= view_all(items@));
    out
}

/// Whether two vectors hold structurally equal values at every index.
pub fn equal_all(a: &Vec<Value>, b: &Vec<Value>) -> (r: bool)
    ensures
        r == same_all(view_all(a@), view_all(b@)),
    decreases a, 1int,
{
    if a.len() != b.len() {
        return false;
    }
    let mut i: usize = 0;
    while i < a.len()
        invariant
            i <= a.len(),
            a.len() == b.len(),
            forall|j: int| 0 <= j < i ==> same(#[trigger] view_all(a@)[j], view_all(b@)[j]),
        decreases a.len() - i,
    {
        if !a[i].equals(&b[i]) {
            assert(!same(view_all(a@)[i as int], view_all(b@)[i as int]));
            return false;
        }
        i += 1;
    }
    true
}

impl Value {
    /// A deep copy.
    pub fn copy(&self) -> (r: Value)
        ensures
            r@ == self@,
        decreases self, 0int,
    {
        match self {
            Value::Integer(n) => Value::Integer(*n),
            Value::Float(bits) => Value::Float(*bits),
            Value::Boolean(b) => Value::Boolean(*b),
            Value::Nil => Value::Nil,
            Value::Symbol(name) => Value::Symbol(name.clone()),
            Value::Str(text) => Value::Str(text.clone()),
            Value::Array(items) => Value::Array(copy_all(items)),
            Value::List(items) => Value::List(copy_all(items)),
            Value::Code { params, body, env } => Value::Code {
                params: copy_all(params),
                body: copy_all(body),
                env: *env,
            },
            Value::Ident(name) => Value::Ident(name.clone()),
            Value::Sexpr { op, operands } => Value::Sexpr {
                op: op.clone(),
                operands: copy_all(operands),
            },
        }
    }

    /// Structural equality, as the language's `=` compares.
    pub fn equals(&self, other: &Value) -> (r: bool)
        ensures
            r == same(self@, other@),
        decreases self, 0int,
    {
        match self {
            Value::Integer(x) => match other {
                Value::Integer(y) => *x == *y,
                _ => false,
            },
            Value::Float(x) => match other {
                Value::Float(y) => floats_equal(*x, *y),
                _ => false,
            },
            Value::Boolean(x) => match other {
                Value::Boolean(y) => *x == *y,
                _ => false,
            },
            Value::Nil => match other {
                Value::Nil => true,
                _ => false,
            },
            Value::Symbol(x) => match other {
                Value::Symbol(y) => *x == *y,
                _ => false,
            },
            Value::Str(x) => match other {
                Value::Str(y) => *x == *y,
                _ => false,
            },
            Value::Array(x) => match other {
                Value::Array(y) => equal_all(x, y),
                _ => false,
            },
            Value::List(x) => match other {
                Value::List(y) => equal_all(x, y),
                _ => false,
            },
            Value::Code { params, body, env } => match other {
                Value::Code { params: p, body: c, env: e } => {
                    equal_all(params, p) && equal_all(body, c) && *env == *e
                },
                _ => false,
            },
            Value::Ident(x) => match other {
                Value::Ident(y) => *x == *y,
                _ => false,
            },
            Value::Sexpr { op, operands } => match other {
                Value::Sexpr { op: o, operands: r } => *op == *o && equal_all(operands, r),
                _ => false,
            },
        }
    }

    /// The name of this value's kind, or `None` for a raw identifier or
    /// S-expression.
    pub fn kind_name(&self) -> (r: Option<String>)
        ensures
            r is Some == tag(self@) is Some,
            r matches Some(name) ==> Some(name@) == tag(self@),
    {
        match self {
            Value::Integer(_) => Some(String::from_str("integer")),
            Value::Float(_) => Some(String::from_str("float")),
            Value::Array(_) => Some(String::from_str("array")),
            Value::List(_) => Some(String::from_str("list")),
            Value::Str(_) => Some(String::from_str("string")),
            Value::Symbol(_) => Some(String::from_str("symbol")),
            Value::Code { .. } => Some(String::from_str("code")),
            Value::Boolean(_) => Some(String::from_str("boolean")),
            Value::Nil => Some(String::from_str("nil")),
            Value::Ident(_) => None,
            Value::Sexpr { .. } => None,
        }
    }
}

} // verus!
