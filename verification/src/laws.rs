//! What holds of the library as a whole: laws over its specifications, in terms of what goes in
//! and what comes out.
pub mod bytes;
pub mod comments;
pub mod export;
pub mod lists;
pub mod paths;
pub mod pds;
pub mod recording;
pub mod rules;
pub mod samples;
pub mod tables;
pub mod text;
pub mod wide;
