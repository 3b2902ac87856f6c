//! Trees and how they are grown.

pub mod cat;
pub mod param;
