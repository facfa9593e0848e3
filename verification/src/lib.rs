//! A tree-walking evaluator for a small Lisp-family scripting language.
//!
//! Programs arrive already parsed, as sequences of [`Value`] nodes. Evaluation
//! works on one operand stack that every nested evaluation shares, on a store
//! of lexical scopes linked by parent indices, and on a fixed table of native
//! procedures. What the library cannot do itself (floating-point arithmetic,
//! reading and parsing module files) it asks of a [`Host`].

pub mod builtins;
pub mod call;
pub mod env;
pub mod error;
pub mod host;
pub mod interp;
pub mod semantics;
pub mod text;
pub mod value;

pub use crate::env::{Builtin, EnvValue, Environment};
pub use crate::error::{Error, ErrorKind};
pub use crate::host::Host;
pub use crate::interp::{InterpMode, Interpreter};
pub use crate::value::Value;
