//! A small PDF reader: byte streams, PDF objects, an object parser and the
//! cross-reference table reader, with their behaviour stated and proved.
pub mod stream;
pub mod reader;
pub mod primitives;
pub mod lexer;
pub mod parser;
pub mod xref;
pub mod obj;
pub mod pdf_manager;
pub mod document;
