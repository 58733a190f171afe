pub mod bits;
pub mod coder;
pub mod error;
pub mod grammar;
pub mod repair_decoder;
pub mod tuple_coder;
