//! The rules of Greedy: a rogue leaps across a grid of gold piles, consuming
//! every pile it passes, until no direction offers a clear run.

pub mod board;
pub mod direction;
pub mod rules;
pub mod setup;
