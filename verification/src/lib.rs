pub mod lexica;
pub mod syntax;
