use vstd::prelude::*;

pub mod ast;
pub mod emit;
pub mod grammar;
pub mod laws;
pub mod parse;
pub mod text;

verus! {

/// The one kind of failure the compiler reports: a fully rendered diagnostic.
#[derive(Debug)]
pub enum Error {
    ParseFailure(String),
    Unknown,
}

pub type Result<Value> = core::result::Result<Value, Error>;

} // verus!
