//! The wire protocol: values, commands and replies.
pub mod command;
pub mod error;
pub mod names;
pub mod response;
pub mod value;
