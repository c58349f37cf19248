//! What holds of the library as a whole.

pub mod chains;
pub mod fields;
pub mod input;
pub mod lines;
pub mod messages;
pub mod reading;
