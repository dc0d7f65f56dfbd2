//! A portable subset of `sed`: parsing and applying `s/pattern/replacement/flags`
//! substitution commands, with regex matching done by the `regex` crate.

pub mod text;
pub mod escapes;
pub mod command;
pub mod pattern;
pub mod sed;

pub use command::{parse_s_fields, split_commands, ParseError};
pub use escapes::{bre_to_ere, convert_replacement};
pub use sed::{Sed, SubstCmd};
