//! Layout computation core of a browser-style rendering engine.
//!
//! A tree of formatting-context nodes ("flows") is built from styled document
//! content, resolved through three ordered tree traversals into concrete
//! positions and sizes, and then converted into an ordered list of paint
//! primitives. A small actor-style mailbox models the message-passing unit
//! that hosts a layout computation.

pub mod actor;
pub mod display;
pub mod flow;
pub mod geometry;
pub mod layout;
pub mod tree;
