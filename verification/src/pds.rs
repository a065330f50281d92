//! Pi Research / Cosworth PDS recordings.
pub mod bytes;
pub mod directory;
pub mod error;
pub mod definitions;
pub mod chunks;
pub mod file;
pub mod search;
pub mod table;
