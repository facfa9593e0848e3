//! What the evaluator asks of the program that embeds it.

use crate::value::Value;
use vstd::prelude::*;

verus! {

/// The services that evaluation needs from outside: arithmetic on binary64
/// numbers, which travel as their IEEE 754 bit patterns, and access to the
/// source files of modules. The evaluator relies on nothing about what these
/// methods return.
pub trait Host {
    /// The sum of two binary64 numbers.
    fn float_add(&mut self, a: u64, b: u64) -> u64;

    /// The binary64 number for an integer.
    fn float_from_int(&mut self, n: i64) -> u64;

    /// A binary64 number as it is printed.
    fn float_text(&mut self, bits: u64) -> String;

    /// Reads the file at `path` and parses it into its top-level forms;
    /// `None` if the file cannot be read or is no program.
    fn load(&mut self, path: &String) -> Option<Vec<Value>>;

    /// Rewrites a program into an equivalent one that runs faster; `None` if
    /// the program is refused.
    fn optimize(&mut self, program: Vec<Value>) -> Option<Vec<Value>>;
}

} // verus!
