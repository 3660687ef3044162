//! Formats code fragments embedded in structured text documents.
//!
//! A document (markdown, org, or restructuredtext) is parsed into an ordered
//! list of codeblocks; each codeblock whose language has a configured
//! formatter chain is run through that chain, and the results are spliced
//! back into the document with indentation and line-offset tracking, together
//! with a changed/unchanged verdict.

pub mod config;
pub mod format;
pub mod tree;
pub mod utils;
