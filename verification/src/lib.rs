//! Abaqus mesh input file (`.inp`) parser.
//!
//! Reads the mesh-defining keywords — `*NODE`, `*ELEMENT`, `*NSET`, `*ELSET`,
//! and `*INCLUDE` — and skips everything else (sections, materials, steps, ...).
//! Part/instance structure is flattened into one node/element namespace, and
//! sets with the same name are merged.
use vstd::prelude::*;

pub mod data;
pub mod keyword;
pub mod laws;
pub mod lexer;
pub mod mesh;
pub mod number;
pub mod parser;
pub mod semantics;
pub mod text;

pub use mesh::{ElementBlock, Error, Id, Mesh, NamedSet};
pub use parser::{parse_str, Include, Source};

verus! {

/// `String::push` appends one character.
pub assume_specification[ String::push ](s: &mut String, ch: char)
    ensures
        final(s)@ == old(s)@.push(ch),
;

} // verus!
