//! What the operations of the library are for, as relations between their inputs and
//! their results.

pub mod arithmetic;
pub mod charts;
pub mod figures;
pub mod listing;
pub mod names;
pub mod outputs;
pub mod scanning;
pub mod showing;
pub mod states;
pub mod texts;
