//! Word-vector analogies: an embedding table read from text, vector algebra
//! in fixed point, signed word expressions and nearest-neighbour search.
//!
//! Components are integers in millionths (`vector::SCALE`), bounded by
//! `vector::LIMIT`, so every computation here is exact and proved.
use vstd::prelude::*;

pub mod decimal;
pub mod expression;
pub mod load;
pub mod search;
pub mod table;
pub mod vector;

verus! {

} // verus!
