//! A small key-value store: a linear-hashing table, the length-prefixed wire
//! format of its values, commands and responses, and the command dispatcher.

pub mod command;
pub mod decimal;
pub mod readable;
pub mod resp;
pub mod response;
pub mod server;
pub mod table;
pub mod utf8;
pub mod value;
