//! Reads the debugging information of an executable and prints what it declares.

pub mod big;
pub mod callers;
pub mod calls;
pub mod chain;
pub mod compare;
pub mod constants;
pub mod diff;
pub mod dwarf;
pub mod entry;
pub mod error;
pub mod expression;
pub mod fields;
pub mod file;
pub mod forest;
pub mod layout;
pub mod lists;
pub mod little;
pub mod machine;
pub mod members;
pub mod names;
pub mod namespace;
pub mod naming;
pub mod order;
pub mod outside;
pub mod parser;
pub mod print;
pub mod printed;
pub mod read;
pub mod size;
pub mod sort;
pub mod state;
pub mod subprogram;
pub mod text;
pub mod types;
pub mod unit;
pub mod walk;
