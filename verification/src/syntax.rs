pub mod analysis;
pub mod first;
pub mod rules;
pub mod utils;
