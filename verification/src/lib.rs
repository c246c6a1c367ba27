//! Probing of Syzygy endgame tablebases for `cozy-chess` boards.
//!
//! A [`Tablebase`] holds the tables that were loaded, one for each material
//! configuration, and answers for a position with its win/draw/loss value
//! under the fifty-move rule.
pub mod board;
pub mod constants;
pub mod error;
pub mod expansion;
pub mod material;
pub mod pairs;
pub mod piece;
pub mod position;
pub mod search;
pub mod stream;
pub mod table;
pub mod tablebase;
pub mod wdl;

pub use error::SyzygyError;
pub use tablebase::Tablebase;
pub use wdl::Wdl;
