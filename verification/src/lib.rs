//! The conformance suite for the Martian Robots CLI, as a verified library:
//! the contract as data, the generators that draw and respell missions, the
//! judges that grade what a program said, and a reference simulation.

pub mod text;
pub mod mission;
pub mod reference;
pub mod rng;
pub mod grammar;
pub mod tables;
pub mod raw;
pub mod data;
pub mod contract;
pub mod render;
pub mod drawing;
pub mod properties;
pub mod run;
pub mod expect;
pub mod spelling;
pub mod mutation;
pub mod cases;
pub mod modes;
pub mod reading;
pub mod faithful;
pub mod answers;
pub mod worked;
