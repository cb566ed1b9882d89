//! Local-first workspace search: the decisions behind exact, lexical and
//! fused retrieval, with their contracts.

pub mod astg;
pub mod bytes;
pub mod cli;
pub mod embed;
pub mod error;
pub mod eval;
pub mod extract;
pub mod front;
pub mod fuse;
pub mod globs;
pub mod jev;
pub mod lsp;
pub mod matching;
pub mod mcp;
pub mod order;
pub mod outline;
pub mod paths;
pub mod redact;
pub mod render;
pub mod rg;
pub mod route;
pub mod sections;
pub mod skill;
pub mod syntax;
pub mod text;
