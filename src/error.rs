//! The single error kind of the compiler.
use vstd::prelude::*;
use vstd::string::StringExecFns;
use crate::text::{decimal, decimal_string};

verus! {

/// A compilation failure: what went wrong and, when known, on which line.
#[derive(Debug, Clone)]
pub struct CompilationError {
    pub message: String,
    pub line_num: Option<usize>,
}

impl CompilationError {
    /// An error with the given message and no line number yet.
    pub fn new(message: &str) -> (r: Self)
        ensures
            r.message@ == message@,
            r.line_num is None,
    {
        CompilationError { message: String::from_str(message), line_num: None }
    }

    /// Records the line on which the error was found.
    pub fn add_line_num(&mut self, line_num: usize)
        ensures
            final(self).message == old(self).message,
            final(self).line_num == Some(line_num),
    {
        self.line_num = Some(line_num);
    }

    /// The message, without the line.
    pub fn message(&self) -> (r: String)
        ensures
            r@ == self.message@,
    {
        self.message.clone()
    }

    /// The diagnostic as shown to a user.
    pub fn to_text(&self) -> (r: String)
        ensures
            r@ == error_text(self.message@, self.line_num),
    {
        let mut s = String::from_str("Compilation Error: ");
        s.append(self.message.as_str());
        match self.line_num {
            Some(n) => {
                s.append(" on line ");
                let d = decimal_string(n as u64);
                s.append(d.as_str());
            },
            None => {},
        }
        s
    }
}

/// The diagnostic text of an error with the given message and line.
pub open spec fn error_text(message: Seq<char>, line: Option<usize>) -> Seq<char> {
    match line {
        Some(n) => "Compilation Error: "@ + message + " on line "@ + decimal(n as nat),
        None => "Compilation Error: "@ + message,
    }
}

} // verus!
