//! RDMA work requests and queues, GPU-terminated Ethernet, and parsing on the
//! network card.

pub mod devx;
pub mod dpa;
pub mod flexio;
pub mod gpu_eth;
pub mod ibgda;
pub mod mlx5_wqe;

pub use devx::{
    DevxError, DevxGpuEthBackend, DevxGpuEthPlan, DevxSessionId, Mlx5DevxBackend, MockDevxBackend,
};
pub use dpa::DpaParsePipeline;
pub use flexio::{DpaStagingRegion, FlexIoHost};
pub use gpu_eth::{FlowSteeringRule, GpuRingPlacement};
pub use ibgda::{IbgdaError, IbgdaQueue, Mlx5DoorbellRecord, MLX5_WQE_BB};
pub use mlx5_wqe::Mlx5RdmaReadWqe;
