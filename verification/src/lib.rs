//! A template compilation and hierarchical routing engine.
//!
//! Markup sources are lexed into tokens, compiled into an ordered list of
//! parts carrying routing, embedding and asset directives, and assembled into
//! pages by matching a URL path one segment per route.

pub mod cache;
pub mod collection;
pub mod error;
pub mod page;
pub mod route;
pub mod sql;
pub mod template;
pub mod text;
pub mod token;
