//! Rules engine of a Sokoban game.
//!
//! - `defs`: fields, directions and the error types.
//! - `grid`: cell indices of an area, steps between cells, and reachability.
//! - `level`: a level, its construction from text, and its validation (`Level::check`).
//! - `level_state`: a play session, with moves, pushes, undo and reset.
//! - `level_set`, `text`, `xml`: reading sets of levels, as plain text or as XML.
//! - `message`, `view`: texts of errors, and the layout of a level and of messages on a
//!   terminal.

mod defs;
mod grid;
mod level;
mod level_set;
mod level_state;
mod message;
mod text;
mod view;
mod xml;

pub use defs::{CheckError, CheckErrors, Direction, Field, LevelParseError, ParseError, XmlParseError};
pub use level::Level;
pub use level_set::{LevelResult, LevelSet};
pub use level_state::LevelState;
pub use view::{determine_display_and_level_position, wrap_message};
pub use xml::ReadError;
