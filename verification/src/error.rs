//! Compile errors with their source position.
use vstd::prelude::*;

use crate::text::{nat_decimal, push_char, usize_to_decimal};

verus! {

/// A compile error: a message and the 1-based line and column it refers to.
#[derive(Debug, Clone, PartialEq, Eq)]
pub struct CompileError {
    pub message: String,
    pub line: usize,
    pub column: usize,
}

/// The mathematical content of a [`CompileError`].
pub struct SpecError {
    pub message: Seq<char>,
    pub line: nat,
    pub column: nat,
}

impl View for CompileError {
    type V = SpecError;

    open spec fn view(&self) -> SpecError {
        SpecError { message: self.message@, line: self.line as nat, column: self.column as nat }
    }
}

/// The error with message `message` at `line`:`column`.
pub open spec fn spec_error(message: Seq<char>, line: nat, column: nat) -> SpecError {
    SpecError { message, line, column }
}

/// The rendering `line:column: message` of an error.
pub open spec fn spec_error_text(e: SpecError) -> Seq<char> {
    nat_decimal(e.line) + seq![':'] + nat_decimal(e.column) + seq![':', ' '] + e.message
}

impl CompileError {
    pub(crate) fn new(message: String, line: usize, column: usize) -> (e: Self)
        ensures
            e@ == spec_error(message@, line as nat, column as nat),
    {
        CompileError { message, line, column }
    }

    /// The error as `line:column: message`.
    pub fn to_string(&self) -> (s: String)
        ensures
            s@ == spec_error_text(self@),
    {
        let mut s = usize_to_decimal(self.line);
        push_char(&mut s, ':');
        let column = usize_to_decimal(self.column);
        s.append(column.as_str());
        push_char(&mut s, ':');
        push_char(&mut s, ' ');
        s.append(self.message.as_str());
        s
    }
}

} // verus!
