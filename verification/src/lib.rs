pub mod channels;
pub mod config;
pub mod deleted;
pub mod display;
pub mod filesystem_map;
pub mod paths;
pub mod recursive;
pub mod results;
pub mod snaps;
pub mod utility;
pub mod versions;
