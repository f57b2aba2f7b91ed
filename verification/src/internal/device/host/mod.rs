//! Policies of the host: scheduling, memory demotion and provided buffers.

pub mod damon;
pub mod damon_sysfs;
pub mod provided_buffers;
pub mod sched_ext;

pub use damon::{AccessFrequencyScheme, DamonConfig};
pub use damon_sysfs::DamonSysfs;
pub use provided_buffers::{IoUringBuf, ProvidedBufferRingSpec};
pub use sched_ext::{SchedExtLoader, SchedExtPolicy, SchedTaskRole};
