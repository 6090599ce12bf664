//! What the commands decide, and what they tell.

pub mod choices;
pub mod flow;
pub mod laws;
pub mod output;
