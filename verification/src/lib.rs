//! Turn Android logcat into a redacted, clustered snapshot.
//!
//! Parse `adb logcat -v threadtime` lines, fold fatal/ANR stacks by pid into
//! events, redact secrets, fingerprint the noise-collapsed headlines, cluster
//! by fingerprint and keep a budgeted set of clusters. The crate does no I/O.

pub mod content;
pub mod event;
pub mod fingerprint;
pub mod parse;
pub mod pattern;
pub mod reduce;
pub mod severity;
pub mod snapshot;
pub mod text;

pub use content::{ContentType, LogLevel};
pub use event::{GroupedEvent, GroupedEventList, IndexedLogLine};
pub use fingerprint::{fingerprint, redact, DeviceLabel, DeviceModel};
pub use parse::{parse_threadtime, LogLine};
pub use reduce::{absorb, retain_clusters, trim_to_json_budget};
pub use severity::is_high_severity;
pub use snapshot::{Cluster, Snapshot, SnapshotOpts, SnapshotOptsBuilder};
