//! Coordinates, piece identities and the errors of reading them.

pub mod color;
pub mod error;
pub mod pieces;
pub mod squares;

pub use color::Color;
pub use error::ParseError;
pub use pieces::Piece;
pub use squares::Square;
