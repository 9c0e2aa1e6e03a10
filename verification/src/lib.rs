//! A small `jq`-style filter language over JSON documents.

pub mod jq;
pub mod jq_interpreter;
pub mod laws;
pub mod json;
pub mod json_parser;
pub mod json_print;
pub mod jq_parser;
pub mod num;
pub mod util;
