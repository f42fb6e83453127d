//! Rewrites the code blocks of a parsed document into markup produced by an
//! external syntax highlighter, leaving every other node as it was.

pub mod highlight;
pub mod laws;
pub mod rewrite;
pub mod tree;
