pub mod text;
pub mod extractor;
pub mod syntax;
pub mod treesitter;
pub mod search;
pub mod embed;
pub mod eval;
pub mod mcp;
pub mod jsonrpc;
