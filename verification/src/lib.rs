//! Management of ground-handling configuration profiles for flight-simulator
//! airports: parsing their loosely structured INI files, correlating them with
//! a reference table of airports, discovering installed profiles in a
//! directory listing, extracting geo-referenced sections, and resolving which
//! members of an archive to import.

pub mod airports;
pub mod assoc;
pub mod body;
pub mod coords;
pub mod csv;
pub mod discovery;
pub mod ids;
pub mod importer;
pub mod ini;
pub mod settings;
pub mod text;
