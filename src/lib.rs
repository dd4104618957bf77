//! A symbolic algebra engine: expression trees, their normalisation, template matching
//! against them, and equation actions that are applied to both sides alike.

pub mod expr;
pub mod order;
pub mod normalize;
pub mod reduce;
pub mod reduce_sum;
pub mod reduce_prod;
pub mod pattern;
pub mod binding;
pub mod matching;
pub mod equation;
pub mod action;
pub mod generate;
pub mod slot_ids;
pub mod laws;
pub mod utils;
pub mod parse;
pub mod render;
