//! Nearest-neighbour table construction by descent over sparse ternary
//! embeddings, with its search, sorting and evaluation helpers.
//!
//! Similarities are the integer inner products of ternary vectors, so every
//! comparison the algorithm makes is exact and verified.

pub mod similarity;
pub mod dao;
pub mod nality;
pub mod update;
pub mod phases;
mod random;
pub mod join;
pub mod descent;
pub mod rdescent;
pub mod search;
pub mod sorting;
pub mod output;
pub mod evaluation;
