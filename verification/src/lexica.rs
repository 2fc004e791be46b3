pub mod analysis;
pub mod automata;
pub mod regex;
pub mod tokens;
