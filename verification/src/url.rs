//! URL handling: the parser that splits an absolute URL into its components.

pub mod parser;
