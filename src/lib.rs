//! A reader for a Lisp-family surface syntax: text is split into classified
//! tokens, tokens are read into a tree of atoms and lists, and a tree prints
//! back to canonical text.
use vstd::prelude::*;

pub mod form;
pub mod lexer;
pub mod reader;
pub mod roundtrip;
pub mod token;

verus! {

} // verus!
