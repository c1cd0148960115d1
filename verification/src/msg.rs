//! The message grammar and the values it produces.

pub mod abnf;
pub mod assemble;
pub mod headers;
pub mod id;
pub mod method;
pub mod parse;
pub mod parser_aux;
pub mod uri;
pub mod version;
