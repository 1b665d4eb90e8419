//! Word segmentation for text written without spaces between words.
//!
//! Characters are mapped to integer indices through a character table,
//! a pre-trained classifier scores every position, and positions whose
//! boundary probability lies above the threshold start a new token.
pub mod char_map;
pub mod error;
pub mod segment;

pub use char_map::CharToXi;
pub use error::ChawuekError;
