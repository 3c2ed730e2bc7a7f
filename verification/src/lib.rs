//! The rules of a disk usage map: reading NTFS metadata, adding up folder
//! sizes and dates, refreshing part of a map, saving and restoring it, and
//! deciding what the window shows.
pub mod anchor;
pub mod app;
pub mod app_laws;
pub mod around_laws;
pub mod below;
pub mod bytes;
pub mod cache;
pub mod candidate_laws;
pub mod i18n;
pub mod kept_laws;
pub mod labels;
pub mod laws;
pub mod merge;
pub mod merge_laws;
pub mod mft;
pub mod path;
pub mod path_laws;
pub mod preserve;
pub mod rank;
pub mod rank_laws;
pub mod raw;
pub mod refresh_laws;
pub mod scan;
pub mod scan_laws;
pub mod sort;
pub mod spread;
pub mod subtree;
pub mod text;
pub mod text_laws;
pub mod tile_laws;
pub mod time;
pub mod tree;
pub mod updates;
pub mod walk;
pub mod whole;
