//! One module per route family, named by the day of the hunt.
pub mod cookie;
pub mod day7;
pub mod day8;
pub mod four;
pub mod one;
pub mod seven;
pub mod six;
