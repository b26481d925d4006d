pub mod charclass;
pub mod glob;
pub mod grep;
pub mod grep_error;
pub mod parser;
pub mod regex;
