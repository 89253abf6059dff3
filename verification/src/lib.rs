//! Letter statistics of a text over an alphabet with case and accent folding.

pub mod alphabet;
pub mod definition;
pub mod entropy;
pub mod error;
pub mod probabilities;
pub mod strings;
pub mod text_processor;
pub mod truncation;
