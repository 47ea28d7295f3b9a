//! Storage core of a small relational engine: the tuple codec, slotted pages,
//! on-disk B+ tree nodes, the in-memory B+ tree, page lock bookkeeping and the
//! command tokenizer and parser.
pub mod codec;
pub mod order;
pub mod parser;
pub mod slotted;
pub mod page;
pub mod new_page;
pub mod node;
pub mod tree;
pub mod buffer;
pub mod cli;
pub mod catalog;
