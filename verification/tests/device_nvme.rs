//! NVMe commands, directives, zones and queues.
use aethergraph_core::internal::device::nvme::bam::DoorbellWrite;
use aethergraph_core::internal::device::nvme::fdp::{
    directive_specific, directive_type, pack_directive, pack_fdp_placement,
};
use aethergraph_core::internal::device::nvme::sqe::{NVME_OPC_READ, NVME_OPC_WRITE, PSDT_SGL};
use aethergraph_core::internal::device::nvme::zns_append::NVME_OPC_ZONE_APPEND;
use aethergraph_core::internal::device::nvme::{
    BamController, BamError, BamQueuePair, FdpPlacementId, FdpReclaimSplit, NvmeDataPointer,
    NvmeDirective, NvmeDoorbellLayout, NvmeRwSqe, ZoneAppendCompletion, ZoneAppendSqe,
    ZoneAppendWal,
};
use std::mem::size_of;

#[test]
fn directive_packing_preserves_reserved_gap() {
    let cdw13 = pack_directive(NvmeDirective::Streams, 0xBEEF);
    assert_eq!(cdw13, 0xBEEF_0001);
    assert_eq!(directive_type(cdw13), NvmeDirective::Streams.as_u8());
    assert_eq!(directive_specific(cdw13), 0xBEEF);
    assert_eq!(cdw13 & 0x0000_ff00, 0);
}

#[test]
fn fdp_placement_is_dspec() {
    let cdw13 = pack_fdp_placement(FdpPlacementId(0x1234));
    assert_eq!(cdw13, 0x1234_0002);
    assert_eq!(directive_specific(cdw13), 0x1234);
}

#[test]
fn directive_codes_and_standard_split() {
    assert_eq!(NvmeDirective::Streams.as_u8(), 1);
    assert_eq!(NvmeDirective::FlexibleDataPlacement.as_u8(), 2);
    let split = FdpReclaimSplit::standard();
    assert_eq!(split.hot_adjacency, FdpPlacementId(1));
    assert_eq!(split.cold_features, FdpPlacementId(2));
}

/// A command in which every member has bytes of its own.
fn marked_sqe() -> NvmeRwSqe {
    NvmeRwSqe {
        opcode: 0x11,
        flags: 0x22,
        command_id: [0x33; 2],
        nsid: [0x44; 4],
        cdw2: [0x55; 4],
        cdw3: [0x66; 4],
        metadata: [0x77; 8],
        dptr1: [0x88; 8],
        dptr2: [0x99; 8],
        cdw10_15: [0xaa; 24],
    }
}

#[test]
fn rw_sqe_has_nvme_base_spec_offsets() {
    assert_eq!(size_of::<NvmeRwSqe>(), 64);
    let bytes = marked_sqe().to_bytes();
    assert_eq!(bytes.len(), 64);
    let offset_of = |mark: u8| bytes.iter().position(|&b| b == mark).unwrap();
    assert_eq!(offset_of(0x11), 0);
    assert_eq!(offset_of(0x44), 4);
    assert_eq!(offset_of(0x77), 16);
    assert_eq!(offset_of(0x88), 24);
    assert_eq!(offset_of(0x99), 32);
    assert_eq!(offset_of(0xaa), 40);
}

#[test]
fn read_builder_encodes_prps_lba_and_zero_based_nlb() {
    let sqe = NvmeRwSqe::read(
        7,
        0x1234,
        0x1234_5678_9abc_def0,
        15,
        NvmeDataPointer::Prp {
            prp1: 0x1000,
            prp2: 0x2000,
        },
    );
    assert_eq!(sqe.opcode, NVME_OPC_READ);
    assert_eq!(u32::from_le_bytes(sqe.nsid), 7);
    assert_eq!(u16::from_le_bytes(sqe.command_id), 0x1234);
    assert_eq!(sqe.slba(), 0x1234_5678_9abc_def0);
    assert_eq!(sqe.nlb(), 15);
    assert_eq!(u64::from_le_bytes(sqe.dptr1), 0x1000);
    assert_eq!(u64::from_le_bytes(sqe.dptr2), 0x2000);
    assert_eq!(sqe.flags, 0);
}

#[test]
fn write_with_fdp_sets_cdw13() {
    let sqe = NvmeRwSqe::write(1, 2, 3, 0, NvmeDataPointer::Prp { prp1: 0, prp2: 0 })
        .with_fdp_placement(FdpPlacementId(0xAB));
    assert_eq!(
        directive_type(sqe.cdw13()),
        NvmeDirective::FlexibleDataPlacement.as_u8()
    );
    assert_eq!(directive_specific(sqe.cdw13()), 0xAB);
    // The transfer is as it was.
    assert_eq!(sqe.slba(), 3);
    assert_eq!(sqe.nlb(), 0);
}

#[test]
fn write_builder_selects_sgl_pointer_type() {
    let sgl = [0xA5; 16];
    let sqe = NvmeRwSqe::write(1, 2, 3, 0, NvmeDataPointer::Sgl(sgl));
    assert_eq!(sqe.opcode, NVME_OPC_WRITE);
    assert_eq!(sqe.flags, PSDT_SGL);
    assert_eq!(sqe.dptr1, [0xA5; 8]);
    assert_eq!(sqe.dptr2, [0xA5; 8]);
}

#[test]
fn sgl_descriptor_keeps_its_byte_order() {
    let mut sgl = [0u8; 16];
    for (i, b) in sgl.iter_mut().enumerate() {
        *b = i as u8;
    }
    let sqe = NvmeRwSqe::read(1, 2, 3, 0, NvmeDataPointer::Sgl(sgl));
    assert_eq!(sqe.to_bytes()[24..40], sgl);
}

#[test]
fn zone_append_layout_matches_io_command() {
    assert_eq!(size_of::<ZoneAppendSqe>(), 64);
    let sqe = ZoneAppendSqe {
        opcode: 0x11,
        flags: 0x22,
        command_id: [0x33; 2],
        nsid: [0x44; 4],
        reserved: [0x55; 16],
        prp1: [0x66; 8],
        prp2: [0x77; 8],
        cdw10_15: [0x88; 24],
    };
    let bytes = sqe.to_bytes();
    assert_eq!(bytes.len(), 64);
    let offset_of = |mark: u8| bytes.iter().position(|&b| b == mark).unwrap();
    assert_eq!(offset_of(0x66), 24);
    assert_eq!(offset_of(0x77), 32);
    assert_eq!(offset_of(0x88), 40);
}

#[test]
fn zone_append_encodes_zone_and_data_size() {
    let sqe = ZoneAppendSqe::new(9, 4, 0x1_0000_0200, 31, 0x4000, 0x5000);
    assert_eq!(sqe.opcode, NVME_OPC_ZONE_APPEND);
    assert_eq!(u32::from_le_bytes(sqe.nsid), 9);
    assert_eq!(sqe.zone_start_lba(), 0x1_0000_0200);
    assert_eq!(sqe.nlb(), 31);
}

#[test]
fn prepare_uses_zone_start_not_host_offset() {
    let mut wal = ZoneAppendWal::new(3, 0x1_0000);
    let (cid, sqe) = wal.prepare_append(7, 0x1000, 0);
    assert_eq!(cid, 1);
    assert_eq!(sqe.zone_start_lba(), 0x1_0000);
    assert_eq!(sqe.nlb(), 7);
    // A completion does not move where the next command points.
    wal.complete(ZoneAppendCompletion {
        command_id: 1,
        assigned_lba: 0x1_0000,
        nlb: 7,
    });
    let (cid, sqe) = wal.prepare_append(0, 0x1000, 0);
    assert_eq!(cid, 2);
    assert_eq!(sqe.zone_start_lba(), 0x1_0000);
}

#[test]
fn completions_advance_high_water_without_shared_offset() {
    let mut wal = ZoneAppendWal::new(1, 100);
    wal.complete(ZoneAppendCompletion {
        command_id: 1,
        assigned_lba: 100,
        nlb: 3,
    });
    assert_eq!(wal.durable_high_water(), 104);
    wal.complete(ZoneAppendCompletion {
        command_id: 2,
        assigned_lba: 104,
        nlb: 0,
    });
    assert_eq!(wal.durable_high_water(), 105);
}

#[test]
fn late_and_saturating_completions() {
    let mut wal = ZoneAppendWal::new(1, 100);
    wal.complete(ZoneAppendCompletion {
        command_id: 2,
        assigned_lba: 110,
        nlb: 9,
    });
    wal.complete(ZoneAppendCompletion {
        command_id: 1,
        assigned_lba: 100,
        nlb: 9,
    });
    assert_eq!(wal.durable_high_water(), 120);
    wal.complete(ZoneAppendCompletion {
        command_id: 3,
        assigned_lba: u64::MAX,
        nlb: 0,
    });
    assert_eq!(wal.durable_high_water(), u64::MAX);
}

#[test]
fn command_ids_go_round() {
    let mut wal = ZoneAppendWal::new(1, 0);
    for _ in 0..0xffff {
        wal.prepare_append(0, 0, 0);
    }
    assert_eq!(wal.prepare_append(0, 0, 0).0, 0);
    assert_eq!(wal.prepare_append(0, 0, 0).0, 1);
}

#[test]
fn doorbell_offsets_match_legacy_cap() {
    let d = NvmeDoorbellLayout::legacy();
    assert_eq!(d.sq_tdbl_offset(0), 0x1000);
    assert_eq!(d.cq_hdbl_offset(0), 0x1004);
    assert_eq!(d.sq_tdbl_offset(1), 0x1008);
}

#[test]
fn queue_advances_power_of_two_slots() {
    let mut qp = BamQueuePair::new(1, 16).unwrap();
    assert_eq!(qp.sq_slot(), 0);
    qp.advance_sq_tail();
    assert_eq!(qp.sq_slot(), 1);
    for _ in 0..15 {
        qp.advance_sq_tail();
    }
    assert_eq!(qp.sq_slot(), 0);
    assert_eq!(qp.doorbell_tail(), 16);
    assert!(BamQueuePair::new(1, 0).is_none());
    assert!(BamQueuePair::new(1, 12).is_none());
}

fn blank() -> NvmeRwSqe {
    NvmeRwSqe::read(1, 0, 0, 0, NvmeDataPointer::Prp { prp1: 0, prp2: 0 })
}

#[test]
fn submit_requires_bar() {
    let mut ctl = BamController::new(0, 8, NvmeDoorbellLayout::legacy()).unwrap();
    let mut ring = [blank(); 8];
    let first = ring[0];
    let err = ctl.submit_sqe(&mut ring, first);
    assert_eq!(err, Err(BamError::BarNotMapped));
    assert_eq!(ctl.qp.sq_tail, 0);
}

#[test]
fn submit_writes_the_slot_and_rings_the_doorbell() {
    let mut ctl = BamController::new(1, 4, NvmeDoorbellLayout::legacy()).unwrap();
    ctl.attach_bar0(0x2000);
    let mut ring = [blank(); 4];
    for i in 0..5u16 {
        let sqe = NvmeRwSqe::write(1, i, 0, 0, NvmeDataPointer::Prp { prp1: 0, prp2: 0 });
        let (tail, store) = ctl.submit_sqe(&mut ring, sqe).unwrap();
        assert_eq!(tail, i + 1);
        assert_eq!(
            store,
            DoorbellWrite {
                offset: 0x1008,
                value: u32::from(i) + 1
            }
        );
        assert_eq!(ring[usize::from(i) % 4], sqe);
    }
    assert_eq!(u16::from_le_bytes(ring[0].command_id), 4);
}

#[test]
fn doorbell_outside_of_the_mapping_is_an_error() {
    let mut ctl = BamController::new(0, 4, NvmeDoorbellLayout::legacy()).unwrap();
    ctl.attach_bar0(0x1003);
    assert_eq!(ctl.ring_sq_doorbell(1), Err(BamError::DoorbellOob));
    let mut ring = [blank(); 4];
    let sqe = marked_sqe();
    assert_eq!(ctl.submit_sqe(&mut ring, sqe), Err(BamError::DoorbellOob));
    assert_eq!(ring[0], sqe);
    assert_eq!(ctl.qp.sq_tail, 1);
    ctl.attach_bar0(0x1004);
    assert_eq!(
        ctl.ring_sq_doorbell(1),
        Ok(DoorbellWrite {
            offset: 0x1000,
            value: 1
        })
    );
}
