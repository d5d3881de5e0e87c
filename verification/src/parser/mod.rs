pub mod arithmetic;
pub mod calculation;
pub mod lexing;
pub mod parse_data;
pub mod parse_functions;
pub mod precedence;
pub mod reduction;
pub mod unbounded;
