//! Functions of the workflow language's standard library, over plain
//! values.
use vstd::prelude::*;
use vstd::string::StringExecFns;

use crate::diagnostics::Span;

pub mod chunk;
pub mod read_lines;
pub mod select_first;
pub mod unzip;

verus! {

/// The function of this library that implements a signature.
#[derive(Copy, Clone, Debug, PartialEq, Eq, Structural)]
pub enum Implementation {
    /// `chunk::chunk`.
    Chunk,
    /// `read_lines::split_lines`, over the contents of the file.
    ReadLines,
    /// `select_first::select_first`.
    SelectFirst,
    /// `unzip::unzip`.
    Unzip,
}

/// One signature of a standard library function, in the language's type
/// notation, with the function that implements it.
pub struct Signature {
    pub text: &'static str,
    pub implementation: Implementation,
}

impl Signature {
    /// A signature with the given text, implemented by `implementation`.
    pub fn new(text: &'static str, implementation: Implementation) -> (r: Signature)
        ensures
            r.text@ == text@,
            r.implementation == implementation,
    {
        Signature { text, implementation }
    }
}

/// A standard library function: its signatures.
pub struct Function {
    pub signatures: Vec<Signature>,
}

impl Function {
    /// A function with one signature.
    pub fn single(signature: Signature) -> (r: Function)
        ensures
            r.signatures@.len() == 1,
            r.signatures@[0].text@ == signature.text@,
            r.signatures@[0].implementation == signature.implementation,
    {
        let mut signatures = Vec::new();
        signatures.push(signature);
        Function { signatures }
    }
}

/// The failure of a call to a standard library function, labelled at the
/// span of the argument or call that caused it.
#[derive(Clone, Debug)]
pub struct FunctionCallError {
    pub function: String,
    pub reason: String,
    pub span: Span,
}

/// The message of a failed call of `function` with `reason`.
pub open spec fn call_failed_message(function: Seq<char>, reason: Seq<char>) -> Seq<char> {
    "call to function `"@ + function + "` failed: "@ + reason
}

impl FunctionCallError {
    /// The error for a failed call of `function`, at `span`.
    pub fn new(function: &str, reason: &str, span: Span) -> (r: FunctionCallError)
        ensures
            r.function@ == function@,
            r.reason@ == reason@,
            r.span == span,
    {
        FunctionCallError { function: function.to_owned(), reason: reason.to_owned(), span }
    }

    /// The error's message.
    pub fn message(&self) -> (r: String)
        ensures
            r@ == call_failed_message(self.function@, self.reason@),
    {
        let mut m = "call to function `".to_owned();
        m.append(self.function.as_str());
        m.append("` failed: ");
        m.append(self.reason.as_str());
        m
    }
}

} // verus!
