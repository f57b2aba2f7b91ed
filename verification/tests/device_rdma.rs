//! RDMA entries and queues, GPU Ethernet, and the delta parser.
use aethergraph_core::internal::device::rdma::dpa::EdgeField;
use aethergraph_core::internal::device::rdma::flexio::{
    field_mask, DpaDeltaHeader, DPA_DELTA_MAGIC,
};
use aethergraph_core::internal::device::rdma::gpu_eth::FlowMatch;
use aethergraph_core::internal::device::rdma::{
    DevxError, DevxGpuEthBackend, DevxGpuEthPlan, DevxSessionId, DpaParsePipeline, DpaStagingRegion,
    FlexIoHost, FlowSteeringRule, GpuRingPlacement, IbgdaError, IbgdaQueue, Mlx5DevxBackend,
    Mlx5DoorbellRecord, Mlx5RdmaReadWqe, MockDevxBackend, MLX5_WQE_BB,
};
use std::mem::size_of;

fn session_plan() -> DevxGpuEthPlan {
    let qp = GpuRingPlacement::new(0x1000, 4096, 64).unwrap();
    let cq = GpuRingPlacement::new(0x2000, 4096, 16).unwrap();
    let rule = FlowSteeringRule::new(
        1,
        FlowMatch {
            ethernet_type: Some(0x0800),
            ip_protocol: Some(17),
            udp_dst_port: Some(9000),
        },
        42,
    )
    .unwrap();
    DevxGpuEthPlan::new(qp, cq, 0x3000, rule).unwrap()
}

#[test]
fn mock_backend_round_trips_session() {
    let plan = session_plan();
    let mut backend = MockDevxBackend::default();
    let id = backend.create_session(plan).unwrap();
    assert_eq!(id, DevxSessionId(1));
    assert_eq!(backend.created.len(), 1);
    backend.destroy_session(id).unwrap();
}

#[test]
fn unknown_sessions_and_unlinked_devices_are_errors() {
    let mut backend = MockDevxBackend::default();
    assert_eq!(
        backend.destroy_session(DevxSessionId(0)),
        Err("unknown session")
    );
    assert_eq!(
        backend.destroy_session(DevxSessionId(1)),
        Err("unknown session")
    );
    let mut live = Mlx5DevxBackend::default();
    assert_eq!(
        live.create_session(session_plan()).unwrap_err(),
        DevxError::Unsupported(
            "Mlx5DevxBackend: link mlx5 DEVX on the ConnectX rig \
             (cuda-registered QP/CQ rings + flow table)"
        )
    );
    assert_eq!(
        live.destroy_session(DevxSessionId(1)).unwrap_err(),
        DevxError::Unsupported("Mlx5DevxBackend: no live session")
    );
    let plan = session_plan();
    assert!(DevxGpuEthPlan::new(plan.qp_ring, plan.cq_ring, 0, plan.steering).is_none());
}

#[test]
fn pipeline_requires_schema_and_staging_capacity() {
    assert!(DpaParsePipeline::new(vec![], true, 4096).is_none());
    assert!(DpaParsePipeline::new(vec![EdgeField::SourceNode], true, 0).is_none());
    assert!(DpaParsePipeline::new(vec![EdgeField::SourceNode], true, 4096).is_some());
}

#[test]
fn plan_rejects_undersized_staging() {
    let pipe = DpaParsePipeline::new(vec![EdgeField::SourceNode], true, 4096).unwrap();
    let small = DpaStagingRegion::new(0x1000, 100).unwrap();
    assert!(FlexIoHost::plan(pipe.clone(), small).is_none());
    let ok = DpaStagingRegion::new(0x1000, 8192).unwrap();
    let host = FlexIoHost::plan(pipe, ok).unwrap();
    assert!(host.field_mask & 1 != 0);
    assert_eq!(host.control_block()[3] as u32, DPA_DELTA_MAGIC);
}

#[test]
fn control_block_packs_mask_flag_and_size() {
    let fields = vec![
        EdgeField::EventTimestamp,
        EdgeField::DestinationNode,
        EdgeField::DestinationNode,
    ];
    assert_eq!(field_mask(&fields), 0b1010);
    assert_eq!(field_mask(&[EdgeField::EdgeType]), 4);
    assert_eq!(field_mask(&[]), 0);
    let pipe = DpaParsePipeline::new(fields, true, 4096).unwrap();
    let host = FlexIoHost::plan(pipe, DpaStagingRegion::new(0x1000, 4096).unwrap()).unwrap();
    let word = 0b1010u64 | (1u64 << 32) | (4096u64 << 33);
    assert_eq!(
        host.control_block(),
        [0x1000, 4096, word, u64::from(DPA_DELTA_MAGIC)]
    );
    assert_eq!(
        host.attach().unwrap_err(),
        "FlexIoHost::attach needs BlueField-3 FlexIO runtime \
         (modules/aether_dpa + DOCA FlexIO)"
    );
    assert!(DpaStagingRegion::new(0, 1).is_none());
    assert!(DpaStagingRegion::new(1, 0).is_none());
}

#[test]
fn delta_header_marks_duplicates() {
    let header = DpaDeltaHeader::new(7, true);
    assert!(header.valid());
    assert_eq!(header.flags, 1);
    assert_eq!(DpaDeltaHeader::new(7, false).flags, 0);
    let mut wrong = header;
    wrong.magic = 0;
    assert!(!wrong.valid());
    assert_eq!(
        header.to_bytes(),
        [0x50, 0x44, 0x45, 0x41, 7, 0, 0, 0, 1, 0, 0, 0, 0, 0, 0, 0]
    );
}

#[test]
fn gpu_ring_requires_integral_nonzero_entries() {
    let ring = GpuRingPlacement::new(0x1000, 4096, 64).expect("valid ring");
    assert_eq!(ring.entries(), 64);
    assert_eq!(GpuRingPlacement::new(0, 4096, 64), None);
    assert_eq!(GpuRingPlacement::new(0x1000, 4095, 64), None);
}

#[test]
fn flow_rule_rejects_null_qp() {
    let matcher = FlowMatch {
        ethernet_type: Some(0x0800),
        ip_protocol: Some(17),
        udp_dst_port: Some(9000),
    };
    assert!(FlowSteeringRule::new(1, matcher, 0).is_none());
    assert_eq!(
        FlowSteeringRule::new(1, matcher, 42)
            .unwrap()
            .destination_qp,
        42
    );
    assert_eq!(FlowMatch::default().udp_dst_port, None);
}

#[test]
fn queue_rejects_bad_depth_or_qpn() {
    assert!(IbgdaQueue::new(1, 0).is_none());
    assert!(IbgdaQueue::new(1, 3).is_none());
    assert!(IbgdaQueue::new(0x0100_0000, 16).is_none());
    assert!(IbgdaQueue::new(7, 16).is_some());
}

#[test]
fn post_advances_doorbell_at_64b_stride() {
    let mut q = IbgdaQueue::new(0x42, 8).unwrap();
    let mut ring = vec![0u8; 8 * MLX5_WQE_BB];
    let idx = q.post_rdma_read(&mut ring, 0x1000, 1, 64, 0x2000, 2).unwrap();
    assert_eq!(idx, 0);
    assert_eq!(q.dbr.send_index(), 1);
    // The queue pair stands in the upper 24 bits of the second word.
    assert_eq!(ring[4..8], [0, 0, 0x42, 3]);
    let idx = q.post_rdma_read(&mut ring, 0x1000, 1, 64, 0x2000, 2).unwrap();
    assert_eq!(idx, 1);
    let wqe = Mlx5RdmaReadWqe::new(0x42, 1, 0x1000, 1, 64, 0x2000, 2);
    assert_eq!(wqe.qpn(), 0x42);
    assert_eq!(ring[64..112], wqe.to_bytes()[..]);
    assert_eq!(ring[48..64], [0; 16]);
    assert_eq!(ring[112..128], [0; 16]);
}

#[test]
fn post_rejects_when_full_until_retire() {
    let mut q = IbgdaQueue::new(0x42, 4).unwrap();
    let mut ring = vec![0u8; 4 * MLX5_WQE_BB];
    for _ in 0..4 {
        assert!(q.post_rdma_read(&mut ring, 0, 0, 0, 0, 0).is_ok());
    }
    assert_eq!(
        q.post_rdma_read(&mut ring, 0, 0, 0, 0, 0),
        Err(IbgdaError::QueueFull)
    );
    q.retire(2);
    assert_eq!(q.in_flight(), 2);
    assert!(q.post_rdma_read(&mut ring, 0, 0, 0, 0, 0).is_ok());
}

#[test]
fn indices_go_round() {
    let mut q = IbgdaQueue::new(1, 2).unwrap();
    let mut ring = vec![0u8; 2 * MLX5_WQE_BB];
    for i in 0..=0xffffu32 {
        let idx = q.post_rdma_read(&mut ring, 0, 0, 0, 0, 0).unwrap();
        assert_eq!(u32::from(idx), i);
        q.retire(1);
    }
    assert_eq!(q.in_flight(), 0);
    assert_eq!(q.post_rdma_read(&mut ring, 0, 0, 0, 0, 0), Ok(0));
    assert_eq!(q.in_flight(), 1);
    assert_eq!(q.dbr.send_index(), 1);
}

#[test]
fn doorbell_monotonic_ignores_stale_index() {
    let mut dbr = Mlx5DoorbellRecord::default();
    dbr.ring_send_monotonic(5);
    dbr.ring_send_monotonic(3);
    assert_eq!(dbr.send_index(), 5);
    dbr.ring_send_monotonic(7);
    assert_eq!(dbr.send_index(), 7);
    assert_eq!(dbr.send_db_be(), 7u16.to_be());
    dbr.ring_send_monotonic(0x8008);
    assert_eq!(dbr.send_index(), 7);
    dbr.ring_send_monotonic(0x8007);
    assert_eq!(dbr.send_index(), 0x8007);
}

#[test]
fn rdma_read_wqe_has_mlx5_segment_offsets() {
    assert_eq!(size_of::<Mlx5RdmaReadWqe>(), 48);
    let wqe = Mlx5RdmaReadWqe {
        ctrl_opmod_idx_opcode: [0x11; 4],
        ctrl_qpn_ds: [0x22; 4],
        ctrl_signature: 0x33,
        ctrl_reserved: [0x44; 3],
        ctrl_imm: [0x55; 4],
        byte_count: [0x66; 4],
        lkey: [0x77; 4],
        local_address: [0x88; 8],
        remote_address: [0x99; 8],
        rkey: [0xaa; 4],
        remote_reserved: [0xbb; 4],
    };
    let bytes = wqe.to_bytes();
    assert_eq!(bytes.len(), 48);
    let offset_of = |mark: u8| bytes.iter().position(|&b| b == mark).unwrap();
    assert_eq!(offset_of(0x11), 0);
    assert_eq!(offset_of(0x66), 16);
    assert_eq!(offset_of(0x99), 32);
}

#[test]
fn builder_packs_control_data_and_remote_segments() {
    let wqe = Mlx5RdmaReadWqe::new(
        0x12_3456,
        0x42,
        0x1000_2000,
        0x1111_2222,
        4096,
        0x9000_a000,
        0x3333_4444,
    );
    assert_eq!(wqe.qpn(), 0x12_3456);
    assert_eq!(wqe.segment_count(), 3);
    assert_eq!(u32::from_be_bytes(wqe.ctrl_opmod_idx_opcode), 0x0000_4210);
    assert_eq!(u32::from_be_bytes(wqe.byte_count), 4096);
    assert_eq!(u64::from_be_bytes(wqe.remote_address), 0x9000_a000);
}
