//! A small line-oriented key-value store: command grammar, in-memory map,
//! binary snapshot codec, and per-line session dispatch.

pub mod codec;
pub mod command;
pub mod database;
pub mod session;
