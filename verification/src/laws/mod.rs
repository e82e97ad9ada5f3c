//! Laws of the readings.

pub mod driving;
pub mod items;
pub mod meaning;
pub mod notation;
pub mod order;
pub mod streaming;
