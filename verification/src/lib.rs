//! Score Sync core: the logic behind the staff-cropping editor — page-tab
//! captions, byte-size labels, undo/redo histories, list reordering and
//! selection, the import list, list text, export naming, settings parsing
//! and the small text parsers — each function with its contract.

pub mod bg;
pub mod config;
pub mod detect_cache;
pub mod edit;
pub mod error;
pub mod export;
pub mod file_assoc;
pub mod history;
pub mod import;
pub mod list_rows;
pub mod mem;
pub mod organize;
pub mod paths;
pub mod preview;
pub mod reorder;
pub mod tabs;
pub mod text;
pub mod window;
