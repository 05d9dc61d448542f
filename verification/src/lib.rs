//! Extraction of GPU resource bindings from shader sources written in a
//! preprocessor dialect with conditional compilation and named imports.
//!
//! A source file is host-language code with directives in it: `#define`,
//! `#ifdef` / `#ifndef` / `#if` with `#else` and `#endif`, `#import` of
//! another file by the name that file gives itself with
//! `#define_import_path`, and binding declarations of the form
//! `@group(G) @binding(B) var ...`. Given a set of flags and some entry
//! files, the library says which bindings are active.
//!
//! - [`grammar`] defines what a source file reads as, and [`parser`] reads
//!   it: [`parser::parse_document`] turns bytes into the tree of [`ast`].
//! - [`resolve`] defines the walk of a tree under a set of flags, and
//!   [`analyze`] performs it: [`analyze::WgslFiles`] collects sources,
//!   [`analyze::ParsedWgslFiles`] is the registry of their documents, with
//!   the queries [`bindings`](analyze::ParsedWgslFiles::bindings) and
//!   [`defines`](analyze::ParsedWgslFiles::defines).
//! - [`laws`] holds what is proved of the walk beyond the contracts of the
//!   functions.
//! - [`scan`], [`order`], [`flags`] and [`render`] are the parts that the
//!   others are made of: runs of bytes, the order of the output, the set
//!   of flags, and the text of an answer.
//!
//! Texts are bytes throughout: names, declarations, paths and the input
//! itself. Nothing is decoded, and a declaration comes out as the bytes
//! that went in.

pub mod ast;
pub mod scan;
pub mod grammar;
pub mod parser;
pub mod order;
pub mod flags;
pub mod resolve;
pub mod render;
pub mod analyze;
pub mod laws;
