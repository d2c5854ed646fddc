//! A compiler for a declarative, nested route DSL.
//!
//! The pipeline has two stages. [`parser::parse`] turns a token stream of the
//! form `scope("/api") { get "/ping" at health::ping ... }` into a
//! [`ast::RouteTree`], an ordered forest of scopes. [`compiler::compile`]
//! then flattens the tree into an ordered sequence of abstract router
//! operations (`BeginScope` / `Route` / `EndScope`) that an external router
//! builder can apply. [`replay::replay`] rebuilds a tree from such an
//! operation sequence, which ties the two stages together: compiling a tree
//! and replaying the result gives the tree back.

pub mod ast;
pub mod compiler;
pub mod parser;
pub mod replay;
pub mod token;
