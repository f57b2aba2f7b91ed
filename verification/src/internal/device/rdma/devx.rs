//! Sessions of GPU-terminated Ethernet.
//!
//! A plan says where the rings are and what is steered into them. A backend
//! turns it into a session on a device.
use super::gpu_eth::{FlowSteeringRule, GpuRingPlacement};
use vstd::prelude::*;

verus! {

/// Rings, doorbell record and steering of a session.
#[derive(Debug, Clone, Copy, PartialEq, Eq, Structural)]
pub struct DevxGpuEthPlan {
    /// Ring of the queue pair.
    pub qp_ring: GpuRingPlacement,
    /// Ring of the completion queue.
    pub cq_ring: GpuRingPlacement,
    /// Address of the doorbell record.
    pub doorbell_record_gpu_va: u64,
    /// What is steered into the rings.
    pub steering: FlowSteeringRule,
}

impl DevxGpuEthPlan {
    /// The plan, where the doorbell record has an address.
    pub fn new(
        qp_ring: GpuRingPlacement,
        cq_ring: GpuRingPlacement,
        doorbell_record_gpu_va: u64,
        steering: FlowSteeringRule,
    ) -> (r: Option<Self>)
        ensures
            r == (if doorbell_record_gpu_va != 0 {
                Some(DevxGpuEthPlan { qp_ring, cq_ring, doorbell_record_gpu_va, steering })
            } else {
                None
            }),
    {
        if doorbell_record_gpu_va != 0 {
            Some(DevxGpuEthPlan { qp_ring, cq_ring, doorbell_record_gpu_va, steering })
        } else {
            None
        }
    }
}

/// A session of a backend.
#[derive(Debug, Clone, Copy, PartialEq, Eq, Hash, Structural)]
pub struct DevxSessionId(pub u64);

/// What turns plans into sessions.
pub trait DevxGpuEthBackend {
    /// What can go wrong.
    type Error;

    /// Whether the backend can count one more session.
    spec fn ready(&self) -> bool;

    /// Creates a session.
    fn create_session(&mut self, plan: DevxGpuEthPlan) -> (r: Result<DevxSessionId, Self::Error>)
        requires
            old(self).ready(),
    ;

    /// Takes a session down.
    fn destroy_session(&mut self, id: DevxSessionId) -> (r: Result<(), Self::Error>);
}

/// A backend without a device: it keeps the plans and counts the sessions.
#[derive(Debug)]
pub struct MockDevxBackend {
    /// The plans, in the order in which they came.
    pub created: Vec<DevxGpuEthPlan>,
    /// The last session.
    pub next_id: u64,
}

impl Default for MockDevxBackend {
    fn default() -> (backend: Self)
        ensures
            backend.created@.len() == 0,
            backend.next_id == 0,
    {
        MockDevxBackend { created: Vec::new(), next_id: 0 }
    }
}

impl DevxGpuEthBackend for MockDevxBackend {
    type Error = &'static str;

    open spec fn ready(&self) -> bool {
        self.next_id < u64::MAX
    }

    fn create_session(&mut self, plan: DevxGpuEthPlan) -> (r: Result<DevxSessionId, &'static str>)
        ensures
            final(self).created@ == old(self).created@.push(plan),
            final(self).next_id == old(self).next_id + 1,
            r == Ok::<DevxSessionId, &'static str>(DevxSessionId(final(self).next_id)),
    {
        self.created.push(plan);
        self.next_id += 1;
        Ok(DevxSessionId(self.next_id))
    }

    fn destroy_session(&mut self, id: DevxSessionId) -> (r: Result<(), &'static str>)
        ensures
            *final(self) == *old(self),
            r is Ok <==> 1 <= id.0 <= old(self).next_id,
            r matches Err(text) ==> text@ == "unknown session"@,
    {
        if id.0 == 0 || id.0 > self.next_id {
            Err("unknown session")
        } else {
            Ok(())
        }
    }
}

/// Why there is no session on a device.
#[derive(Debug, Clone, Copy, PartialEq, Eq)]
pub enum DevxError {
    /// The call is not supported, for the reason given.
    Unsupported(&'static str),
}

/// The backend of mlx5 devices. It is not linked: every call is unsupported.
#[derive(Debug)]
pub struct Mlx5DevxBackend {
    /// The device.
    pub device_name: Option<String>,
}

impl Default for Mlx5DevxBackend {
    fn default() -> (backend: Self)
        ensures
            backend.device_name is None,
    {
        Mlx5DevxBackend { device_name: None }
    }
}

impl DevxGpuEthBackend for Mlx5DevxBackend {
    type Error = DevxError;

    open spec fn ready(&self) -> bool {
        true
    }

    fn create_session(&mut self, plan: DevxGpuEthPlan) -> (r: Result<DevxSessionId, DevxError>)
        ensures
            *final(self) == *old(self),
            r matches Err(DevxError::Unsupported(text)) && text@
                == "Mlx5DevxBackend: link mlx5 DEVX on the ConnectX rig (cuda-registered QP/CQ rings + flow table)"@,
    {
        Err(
            DevxError::Unsupported(
                "Mlx5DevxBackend: link mlx5 DEVX on the ConnectX rig (cuda-registered QP/CQ rings + flow table)",
            ),
        )
    }

    fn destroy_session(&mut self, id: DevxSessionId) -> (r: Result<(), DevxError>)
        ensures
            *final(self) == *old(self),
            r matches Err(DevxError::Unsupported(text)) && text@ == "Mlx5DevxBackend: no live session"@,
    {
        Err(DevxError::Unsupported("Mlx5DevxBackend: no live session"))
    }
}

} // verus!
