pub mod backend;
pub mod numtext;
pub mod parser;
