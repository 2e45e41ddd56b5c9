pub mod lang;
pub mod number;
pub mod operator;
pub mod synth;
