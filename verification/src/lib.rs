//! Front end of a small statically-typed, Python-syntax-flavored language:
//! a tokenizer and a recursive-descent parser that turn source text into an
//! abstract syntax tree of typed function definitions.

pub mod lexer;
pub mod parser;
pub mod statements;
pub mod types;

use vstd::prelude::*;

verus! {

/// Returns the value inside an `Ok` result. The embedding program aborts on
/// the failing case before calling in; the library itself never panics, so
/// the failing inputs are excluded here.
pub fn unwrap_io<T>(res: Result<T, String>) -> (r: T)
    requires
        res is Ok,
    ensures
        r == res->Ok_0,
{
    match res {
        Ok(v) => v,
        Err(_) => unreached(),
    }
}

} // verus!
