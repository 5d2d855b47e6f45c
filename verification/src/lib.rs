//! Builds `ComicInfo.xml` metadata for comic archives.

pub mod actions;
pub mod archive;
pub mod decimal;
pub mod forms;
pub mod import;
pub mod job;
pub mod json;
pub mod naming;
pub mod natural;
pub mod number;
pub mod order;
pub mod patterns;
pub mod planning;
pub mod reader;
pub mod rules;
pub mod schema;
pub mod session;
pub mod sfm;
pub mod state;
pub mod tags;
pub mod text;
pub mod theme;
pub mod unicode;
pub mod worker;
pub mod xml;
