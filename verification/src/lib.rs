//! A variable-order statistical text generator: a tokenizer that splits text
//! into words and single symbols, and a model that counts which token follows
//! each short run of tokens and continues a prompt by weighted sampling.
//!
//! [`Brain`] works on text: it is trained on a text and continues a prompt.
//! [`Table`] is the frequency table under it and works on tokens. What they
//! compute is stated over the tokens of a text (`tokenizer`), the counts of a
//! token stream (`counts`) and the outcomes of generation (`generation`).

#![allow(unused_imports)]

pub mod brain;
pub mod counts;
pub mod generation;
pub mod table;
pub mod tokenizer;
mod sampling;
mod store;

pub use brain::Brain;
pub use table::Table;
