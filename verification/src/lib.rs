//! Editing core of a chat client's text-input field.
//!
//! The heart of the crate is [`input_field::InputFieldState`]: a flat UTF-8
//! text buffer together with a caret/selection model that works directly on
//! byte offsets while guaranteeing that every offset lands on a codepoint
//! boundary.  The [`scanner`] module holds the codepoint boundary scanner the
//! editor is built on, [`api`] the client handle that remembers the server
//! address, and [`interface`] the plain data types of the client/server wire
//! interface.

pub mod api;
pub mod input_field;
pub mod interface;
pub mod scanner;
