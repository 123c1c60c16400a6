pub mod common;
pub mod mod_loader;
pub mod parser;
pub mod writer;
