//! The error type for TOMLX parsing and evaluation.

use vstd::prelude::*;

use crate::text::{decimal, decimal_text};

verus! {

/// A diagnostic reporting a TOMLX failure with file/line/column context.
#[derive(Debug)]
pub struct TomlxError {
    /// Path of the source file (real or synthetic).
    pub file: String,
    /// 1-indexed line number.
    pub line: usize,
    /// 1-indexed column number.
    pub col: usize,
    /// Human-readable description of the problem.
    pub message: String,
}

impl TomlxError {
    /// Constructs an error from its parts.
    pub fn new(file: String, line: usize, col: usize, message: String) -> (e: Self)
        ensures
            e.file == file,
            e.line == line,
            e.col == col,
            e.message == message,
    {
        TomlxError { file, line, col, message }
    }

    /// Constructs an error whose location is unknown.
    pub fn at_unknown(file: String, message: String) -> (e: Self)
        ensures
            e.file == file,
            e.line == 0,
            e.col == 0,
            e.message == message,
    {
        TomlxError { file, line: 0, col: 0, message }
    }

    /// What the error says.
    pub open spec fn says(&self) -> Seq<char> {
        self.file@ + ":"@ + decimal(self.line as nat) + ":"@ + decimal(self.col as nat) + ": "@ + self.message@
    }

    /// The error as one line of text.
    pub fn display(&self) -> (r: String)
        ensures
            r@ == self.says(),
    {
        let mut s = self.file.clone();
        s.append(":");
        s.append(decimal_text(self.line as u64).as_str());
        s.append(":");
        s.append(decimal_text(self.col as u64).as_str());
        s.append(": ");
        s.append(self.message.as_str());
        s
    }
}

impl Clone for TomlxError {
    fn clone(&self) -> (e: Self)
        ensures
            e == *self,
    {
        TomlxError { file: self.file.clone(), line: self.line, col: self.col, message: self.message.clone() }
    }
}

} // verus!
