//! ROM collection manager: manifest parsing, matching of scanned files
//! against manifest entries, incremental scan reconciliation, catalog
//! rollups, and organiser planning.

pub mod catalog;
pub mod dat;
pub mod digest;
pub mod importer;
pub mod organise;
pub mod records;
pub mod scan;
pub mod text;
pub mod verify;
pub mod xml;
