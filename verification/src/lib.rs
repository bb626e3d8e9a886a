//! A table-driven disassembler: an instruction set is described as a trie of
//! bit masks, machine words are matched against it, their operand fields are
//! extracted and rendered, and branch targets are given labels.

pub mod bits;
pub mod instrset;
pub mod text;
pub mod binreader;
pub mod branch;
pub mod deassemble;
pub mod parse;
