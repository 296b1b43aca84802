//! Disk usage of a directory tree: aggregation of sizes over a snapshot of the
//! tree, filtering by depth, ordering by size and rendering of the report.

pub mod laws;
pub mod order;
pub mod paths;
pub mod render;
pub mod report;
pub mod tree;

pub use paths::normalize_path_arg;
pub use report::log_disk_usage;
pub use tree::{get_dir_data, get_disk_usage, get_file_size, Depth, FsNode, PathSizeMetadata, WalkError};
