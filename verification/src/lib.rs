pub mod decimal;
pub mod error;
pub mod formatter;
pub mod grammar;
pub mod lexical;
pub mod number;
pub mod parser;
pub mod roundtrip;
pub mod text;
pub mod value;
pub mod whitespace;
