//! Orchestration logic for sharing a file tree over a content-addressed,
//! peer-to-peer transfer: path encoding, manifest building, progress
//! aggregation and the lifecycle of send and receive sessions.

pub mod manifest;
pub mod naming;
pub mod path;
pub mod progress;
pub mod receive;
pub mod session;

pub use manifest::{
    build_manifest, plan_sources, ContentHash, EntryKind, ImportedFile, IngestError, Manifest,
    ManifestEntry, SourceFile, WalkEntry,
};
pub use naming::{receive_dir_name, send_dir_name};
pub use path::{
    canonicalized_path_to_string, get_export_path, validate_path_component, PathComponent, PathError,
};
pub use progress::{AggregateProgress, ProgressAggregator, ProgressEvent, ProgressStep, Slot};
pub use receive::{
    download_totals, export_targets, first_conflict, DownloadTotals, ReceiveError,
};
pub use session::{
    teardown_result, ActiveSession, SessionError, SessionManager, ShutdownOutcome,
};
