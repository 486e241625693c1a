mod arena;
mod models;
mod path;
mod plan;
mod relink;
mod report;
mod scan;

pub use crate::arena::Arena;
pub use crate::models::{
    Database, Dev, Device, FileSizeSieve, FileSizeSieveEntry, IdenticalFile, IdenticalFiles, Ino,
    Inode, Inodes, MTime, Sha256Value, VisitedDirs,
};
pub use crate::scan::{
    allocated_size, Args, DedupError, DeviceView, EntryKind, FileMeta, HashRequest, WalkStep,
};
pub use crate::plan::{plan_group, plan_relink, total_gain, GroupPlan, PlanView};
pub use crate::relink::{relink, update_mtime, FsOp, FsOpView};
pub use crate::report::format_gain;
pub use crate::path::{copy_path, same_path, PathBytes};
