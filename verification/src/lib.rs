//! Verified core of a filesystem listing service.
//!
//! The library holds the traversal engine: path normalization, the
//! root-safety depth cap, classification of a resolved target, the
//! depth-limited directory walk over an explicit work list, per-entry
//! metadata records, and the deterministic ordering of the results.
//! The surrounding process performs the actual filesystem calls and
//! feeds their results to the engine as plain values.

pub mod model;
pub mod order;
pub mod request;
pub mod walk;

pub use model::Directory;
pub use model::Entry;
pub use model::EntryKind;
pub use model::File;
pub use model::FileMeta;
pub use model::ListResult;
pub use model::metadata_to_file;
pub use model::system_time_to_epoch;
pub use request::depth_param;
pub use request::effective_depth;
pub use request::has_dotdot;
pub use request::normalize_path;
pub use request::parse_u32;
pub use walk::PendingDir;
pub use walk::TargetAction;
pub use walk::Walker;
pub use walk::failure_aborts;
pub use walk::target_action;
