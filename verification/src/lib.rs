//! Region instrumentation: call sites open and close named, nested regions on
//! a thread; each finished generation of regions is handed over through a
//! FIFO queue and rebuilt into a forest of executions that can be exported as
//! trace events.

pub mod platform;
pub mod profile;
pub mod recording;
pub mod region;
pub mod tracing;

pub use platform::RecordingTimestamp;
pub use profile::{Instant, RegionBucket, RegionExecution, ThreadProfile};
pub use recording::{
    recv, try_recv, HandoffQueue, RawThreadProfile, RegionRecord, RegionRecordBackend, ThreadLocal,
};
pub use region::Region;
pub use tracing::ToChromeTracing;
