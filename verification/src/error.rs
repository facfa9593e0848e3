//! What can go wrong while a form is evaluated.

use crate::env::Builtin;
use vstd::prelude::*;

verus! {

/// The kinds of failure that evaluation distinguishes.
#[derive(Debug, Clone, Copy, PartialEq, Eq, Structural)]
pub enum ErrorKind {
    /// A name could not be resolved, or resolved to something unusable.
    Lookup,
    /// An operand of the wrong kind.
    Type,
    /// A wrong number of operands or arguments, or a malformed parameter.
    Arity,
    /// An index or a result outside the range that can be represented.
    Bounds,
    /// Malformed text: an escape sequence, or a program that was refused.
    Syntax,
    /// Something outside the evaluator ran out or could not be had.
    Resource,
}

/// A failure, with what caused it.
#[derive(Debug, PartialEq)]
pub enum Error {
    /// No scope on the chain binds this name.
    Unbound(String),
    /// The operator of a call is bound to a value that is no closure.
    NotCallable(String),
    /// A native procedure was named where a value is wanted.
    NativeAsValue(String),
    /// The environment holds no scope with this index.
    NoScope(usize),
    /// The operand at this position (counted from zero) has the wrong kind.
    WrongType { procedure: Builtin, operand: usize },
    /// The procedure does not take this many operands.
    WrongCount { procedure: Builtin, given: usize },
    /// A closure was called with no argument left for this parameter.
    MissingArgument(String),
    /// The parameter at this position is not an identifier.
    BadParameter(usize),
    /// The index does not fall within an array of this length.
    OutOfRange { index: i64, length: usize },
    /// An integer sum that does not fit in 64 bits.
    Overflow,
    /// A backslash followed by a character that starts no escape sequence.
    BadEscape(char),
    /// A backslash at the end of a string.
    OpenEscape,
    /// The module at this path could not be read or parsed.
    Unreadable(String),
    /// The module path is not relative to the importing file.
    NotRelative(String),
    /// The host refused the program when asked to rewrite it.
    Rejected,
    /// Evaluation nested deeper than the limit it was given.
    TooDeep,
    /// A failure inside the module imported from this path.
    Import { path: String, cause: Box<Error> },
}

/// The mathematical model of an [`Error`].
pub ghost enum SpecError {
    Unbound(Seq<char>),
    NotCallable(Seq<char>),
    NativeAsValue(Seq<char>),
    NoScope(int),
    WrongType { procedure: Builtin, operand: int },
    WrongCount { procedure: Builtin, given: int },
    MissingArgument(Seq<char>),
    BadParameter(int),
    OutOfRange { index: int, length: int },
    Overflow,
    BadEscape(char),
    OpenEscape,
    Unreadable(Seq<char>),
    NotRelative(Seq<char>),
    Rejected,
    TooDeep,
    Import { path: Seq<char>, cause: Box<SpecError> },
}

impl View for Error {
    type V = SpecError;

    open spec fn view(&self) -> SpecError
        decreases self,
    {
        match self {
            Error::Unbound(name) => SpecError::Unbound(name@),
            Error::NotCallable(name) => SpecError::NotCallable(name@),
            Error::NativeAsValue(name) => SpecError::NativeAsValue(name@),
            Error::NoScope(scope) => SpecError::NoScope(*scope as int),
            Error::WrongType { procedure, operand } => SpecError::WrongType {
                procedure: *procedure,
                operand: *operand as int,
            },
            Error::WrongCount { procedure, given } => SpecError::WrongCount {
                procedure: *procedure,
                given: *given as int,
            },
            Error::MissingArgument(name) => SpecError::MissingArgument(name@),
            Error::BadParameter(position) => SpecError::BadParameter(*position as int),
            Error::OutOfRange { index, length } => SpecError::OutOfRange {
                index: *index as int,
                length: *length as int,
            },
            Error::Overflow => SpecError::Overflow,
            Error::BadEscape(c) => SpecError::BadEscape(*c),
            Error::OpenEscape => SpecError::OpenEscape,
            Error::Unreadable(path) => SpecError::Unreadable(path@),
            Error::NotRelative(path) => SpecError::NotRelative(path@),
            Error::Rejected => SpecError::Rejected,
            Error::TooDeep => SpecError::TooDeep,
            Error::Import { path, cause } => SpecError::Import {
                path: path@,
                cause: Box::new((**cause).view()),
            },
        }
    }
}

/// The kind that a failure belongs to. A failure inside an imported module
/// has the kind of its cause.
pub open spec fn kind_of(e: SpecError) -> ErrorKind
    decreases e,
{
    match e {
        SpecError::Unbound(_) => ErrorKind::Lookup,
        SpecError::NotCallable(_) => ErrorKind::Lookup,
        SpecError::NativeAsValue(_) => ErrorKind::Lookup,
        SpecError::NoScope(_) => ErrorKind::Lookup,
        SpecError::WrongType { .. } => ErrorKind::Type,
        SpecError::WrongCount { .. } => ErrorKind::Arity,
        SpecError::MissingArgument(_) => ErrorKind::Arity,
        SpecError::BadParameter(_) => ErrorKind::Arity,
        SpecError::OutOfRange { .. } => ErrorKind::Bounds,
        SpecError::Overflow => ErrorKind::Bounds,
        SpecError::BadEscape(_) => ErrorKind::Syntax,
        SpecError::OpenEscape => ErrorKind::Syntax,
        SpecError::Unreadable(_) => ErrorKind::Resource,
        SpecError::NotRelative(_) => ErrorKind::Resource,
        SpecError::Rejected => ErrorKind::Syntax,
        SpecError::TooDeep => ErrorKind::Resource,
        SpecError::Import { path, cause } => kind_of(*cause),
    }
}

impl Error {
    /// The kind that this failure belongs to.
    pub fn kind(&self) -> (k: ErrorKind)
        ensures
            k == kind_of(self@),
        decreases self,
    {
        match self {
            Error::Unbound(_) => ErrorKind::Lookup,
            Error::NotCallable(_) => ErrorKind::Lookup,
            Error::NativeAsValue(_) => ErrorKind::Lookup,
            Error::NoScope(_) => ErrorKind::Lookup,
            Error::WrongType { .. } => ErrorKind::Type,
            Error::WrongCount { .. } => ErrorKind::Arity,
            Error::MissingArgument(_) => ErrorKind::Arity,
            Error::BadParameter(_) => ErrorKind::Arity,
            Error::OutOfRange { .. } => ErrorKind::Bounds,
            Error::Overflow => ErrorKind::Bounds,
            Error::BadEscape(_) => ErrorKind::Syntax,
            Error::OpenEscape => ErrorKind::Syntax,
            Error::Unreadable(_) => ErrorKind::Resource,
            Error::NotRelative(_) => ErrorKind::Resource,
            Error::Rejected => ErrorKind::Syntax,
            Error::TooDeep => ErrorKind::Resource,
            Error::Import { path, cause } => cause.kind(),
        }
    }
}

} // verus!
