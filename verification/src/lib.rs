//! A bounded markup-and-stylesheet extraction engine with a pattern-based
//! content sanitizer.
//!
//! The library scans raw markup text into a flat, capped inventory of
//! elements, scans stylesheet text into a list of rules queryable by
//! selector substring, and offers a literal-substring sanitizer, a threat
//! heuristic, content hashing, and coarse URL/domain classification.
pub mod css;
pub mod html;
pub mod net;
pub mod security;
pub mod text;
