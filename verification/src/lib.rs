//! A minimal language-server core: message framing over a byte stream, a
//! document model that reads a text file as a binary tree, and the dispatcher
//! that answers requests from that model.

pub mod editor;
pub mod lsp;
pub mod rpc;
pub mod text;
