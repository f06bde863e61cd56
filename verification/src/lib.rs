pub mod chars;
pub mod formatting;
pub mod generator;
pub mod mutation;
pub mod words;
