pub mod bounds;
pub mod eval;
pub mod img;
pub mod laws;
pub mod ops;
pub mod parser;
pub mod pipeline;
pub mod rgb;
pub mod rng;
pub mod token;

pub use rgb::Rgb;
pub use rgb::Rgba;
pub use token::Token;
