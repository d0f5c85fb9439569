//! A parser and flattening transpiler for a small nested-CSS dialect.
//!
//! The input language is a declaration list of property declarations,
//! at-rules (block or statement form) and qualified rules whose selectors
//! may reference the enclosing selector with `&`.  [`ast::RuntimeCss::parse`]
//! turns a text fragment into a tree, [`transpiler::TranspiledCss::transpile`]
//! resolves all nesting against a set of root selectors, and
//! [`transpiler::TranspiledCss::to_style_string`] renders the flat rules as
//! minified CSS.
//!
//! Around the core stand [`scan`], a second scanner for brace-delimited
//! fragments, and [`keyframes`], which rewrites `##name##` animation-name
//! tokens against a registry; [`laws`] states and proves the properties the
//! transpiler is meant to keep.

pub mod ast;
pub mod cursor;
pub mod keyframes;
pub mod laws;
pub mod scan;
pub mod text;
pub mod transpiler;
