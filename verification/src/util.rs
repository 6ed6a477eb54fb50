pub mod chars;
pub mod digits;
pub mod string;
pub mod toks;
pub mod treepath;
