//! A typed value codec for a remote-procedure-call wire protocol.
//!
//! The library converts native values (primitives, strings, fixed-arity
//! tuples, and ordered/unordered/keyed collections) to and from a
//! self-describing binary encoding, and classifies remote call outcomes
//! into success values or structured failures.

pub mod classify;
pub mod codec;
pub mod laws;
pub mod types;
pub mod wire;
