//! The verified core of a build calculator for the game Weird Gun Game.
//!
//! - `sheet`, `numeric`, `sheet_source`: reading the community spreadsheet
//!   (its CSV exports) into parts and cores.
//! - `ranking`, `topn`, `search`: ranking builds, keeping the best ones, and
//!   joining the searches of the cores.
//! - `table`: the category table and the layout of the penalty matrix read
//!   from a database.
//! - `download`, `storage`: the order of the file and network steps that
//!   refresh the data, and the names and groups they use.
//! - `text`: the string operations the rest is written with.

pub mod download;
pub mod numeric;
pub mod ranking;
pub mod search;
pub mod sheet;
pub mod sheet_source;
pub mod storage;
pub mod table;
pub mod text;
pub mod topn;
