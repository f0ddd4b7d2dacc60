//! An interpreter for a Brainfuck-like language whose memory is a
//! four-dimensional cube of byte cells. The pipeline is a lexer, a
//! structural parser into a nested instruction tree, and a tree-walking
//! executor over a bounds-checked cube whose loops repeat while any cell
//! of the whole cube is non-zero.

pub mod cube;
pub mod lexer;
pub mod errors;
pub mod interp;
pub mod io;
pub mod locator;
pub mod parser;
