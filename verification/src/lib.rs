//! A small interpreter for an eight-instruction tape language.
//!
//! Program text is scanned into tokens, the tokens are structured into a tree
//! of instructions in which every bracket pair has become one loop node, and
//! the tree is walked against a tape of byte cells.

pub mod executor;
pub mod instruction;
pub mod numeral;
pub mod run_laws;
pub mod scanner;
pub mod structure_laws;
pub mod structurer;
pub mod tape;
