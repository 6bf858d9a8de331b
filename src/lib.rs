//! Evaluate expressions embedded in text or Markdown and write their results back
//! in place, leaving the surrounding prose untouched.

pub mod text;
pub mod document;
pub mod parser;
pub mod markdown;
pub mod lang;
pub mod detect;
