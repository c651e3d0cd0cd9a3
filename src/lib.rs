//! Transpiles BBXML documents into BBCode text.
pub mod element;
pub mod parser;
pub mod project;
pub mod render;
pub mod table;
pub mod text;
