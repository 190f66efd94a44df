//! A compact, human-editable key/value configuration format.
//!
//! Values come in four shapes: quoted text, starred numeric literals,
//! bracketed lists and braced groups.  The crate holds the value model,
//! a mode-tracking lexer, a recursive parser, the matching serializer,
//! and text-level store operations (lookup, defaulted lookup, upsert)
//! over a line-oriented `key:value` format.

pub mod config;
pub mod errors;
pub mod laws;
pub mod mconf;
pub mod model;
pub mod mrpack;
pub mod mvers;
pub mod text;
