//! Verified core of a SystemVerilog preprocessor: the text it produces, the
//! map from every produced byte back to its source, and the decisions the
//! preprocessor takes on each directive.

pub mod range;
pub mod utf8_len;
pub mod preprocessed;
pub mod macro_text;
pub mod macros;
pub mod defines;
pub mod directives;
pub mod preprocessor;
pub mod laws;
