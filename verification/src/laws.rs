//! What the operations are for, stated on their inputs and results alone.

pub mod grammar;
pub mod hovers;
pub mod installs;
pub mod lines;
pub mod paths;
pub mod positions;
pub mod requests;
pub mod roots;
pub mod scoring;
pub mod search;
