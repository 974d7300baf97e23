pub mod text;
pub mod num;
pub mod named_map;
pub mod ast;
pub mod parser;
