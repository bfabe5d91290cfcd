//! A small web-page toolkit: a verified decomposer for absolute URL strings
//! and the value types for a simple document tree.

pub mod dom;
pub mod url;
