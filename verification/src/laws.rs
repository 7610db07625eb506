//! What holds of the card set format as a whole.

pub mod line_endings;
pub mod regular;
pub mod rendering;
pub mod round_trip;
pub mod spans;
pub mod whole_input;
