pub mod content;
pub mod control;
pub mod error;
pub mod five;
pub mod four;
pub mod laws;
pub mod one;
pub mod one_eight;
pub mod one_nine;
pub mod scalar;
pub mod text;
pub mod three;
pub mod two;
pub mod two_hundred_one;
pub mod zero;
