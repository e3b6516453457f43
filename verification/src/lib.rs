pub mod cfg;
pub mod clock;
pub mod collections;
pub mod fa;
pub mod input_symbol;
pub mod language;
pub mod lexing;
pub mod queue;
pub mod text;
pub mod util;
