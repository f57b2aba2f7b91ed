//! Host policies, and the paths between devices.
use aethergraph_core::internal::device::host::damon_sysfs::{SysfsStep, SysfsTree};
use aethergraph_core::internal::device::host::sched_ext::{SchedDecision, SchedExtError};
use aethergraph_core::internal::device::host::{
    AccessFrequencyScheme, DamonConfig, DamonSysfs, IoUringBuf, ProvidedBufferRingSpec,
    SchedExtLoader, SchedExtPolicy, SchedTaskRole,
};
use aethergraph_core::internal::device::pcie::p2pdma_ioctl::{
    classify_resp, encode_bdf, validate_code, validate_outcome, validate_request, AetherP2pdmaResp,
    BdfError, AETHER_P2PDMA_ACS_REDIRECTED, AETHER_P2PDMA_NO_IOMMU, AETHER_P2PDMA_OK,
    AETHER_P2PDMA_TOO_FAR, AETHER_P2PDMA_UNSUPPORTED,
};
use aethergraph_core::internal::device::pcie::{
    CoherentAllocation, CoherentPlacementHint, CxlBindError, CxlNumaBinding, P2pdmaPath,
    P2pdmaPolicy,
};
use std::mem::{align_of, size_of};

#[test]
fn aggregation_must_cover_a_sampling_window() {
    let scheme = AccessFrequencyScheme {
        max_accesses: 1,
        min_age_ms: 100,
        target_node: 2,
    };
    assert!(DamonConfig::new(0, 100, scheme).is_none());
    assert!(DamonConfig::new(100, 99, scheme).is_none());
    assert_eq!(
        DamonConfig::new(100, 500, scheme)
            .unwrap()
            .scheme
            .target_node,
        2
    );
}

#[test]
fn apply_writes_stub_scheme_under_temp_root() {
    let sys = DamonSysfs::at("/tmp/aether-damon");
    let scheme = AccessFrequencyScheme {
        max_accesses: 2,
        min_age_ms: 50,
        target_node: 3,
    };
    let cfg = DamonConfig::new(10, 100, scheme).unwrap();
    let tree = SysfsTree {
        root: true,
        attrs: false,
        admin_schemes: false,
    };
    assert!(!sys.available(tree));
    let steps = sys.apply(cfg, tree);
    assert_eq!(steps.len(), 1);
    match &steps[0] {
        SysfsStep::Write { path, text } => {
            assert_eq!(*path, "scheme");
            assert!(text.contains("max_accesses=2"));
            assert!(text.contains("target_node=3"));
            assert_eq!(text, "max_accesses=2 min_age_ms=50 target_node=3\n");
        }
        other => panic!("{:?}", other),
    }
}

#[test]
fn apply_writes_attrs_and_a_full_scheme() {
    let sys = DamonSysfs::system();
    assert_eq!(sys.root, "/sys/kernel/mm/damon");
    let scheme = AccessFrequencyScheme {
        max_accesses: 2,
        min_age_ms: 50,
        target_node: 3,
    };
    let cfg = DamonConfig::new(10, 100, scheme).unwrap();
    let tree = SysfsTree {
        root: true,
        attrs: true,
        admin_schemes: true,
    };
    assert!(sys.available(tree));
    let write = |path, text: &str| SysfsStep::Write {
        path,
        text: text.to_string(),
    };
    assert_eq!(
        sys.apply(cfg, tree),
        vec![
            write("attrs", "10 100 10 10 1000\n"),
            SysfsStep::MakeDir("admin_schemes/0"),
            write("admin_schemes/0/action", "pageout\n"),
            SysfsStep::MakeDir("admin_schemes/0/access_pattern"),
            write("admin_schemes/0/access_pattern/nr_accesses", "0 2\n"),
            write("admin_schemes/0/access_pattern/age", "50 max\n"),
            SysfsStep::TryWrite {
                path: "target_node",
                text: "3\n".to_string()
            },
        ]
    );
}

#[test]
fn io_uring_buf_matches_kernel_abi_layout() {
    assert_eq!(size_of::<IoUringBuf>(), 16);
    assert_eq!(align_of::<IoUringBuf>(), 8);
    let mut buf = IoUringBuf::new(0x1111_1111_1111_1111, 0x2222_2222, 0x3333);
    buf.resv = 0x4444;
    let bytes = buf.to_bytes();
    assert_eq!(bytes.len(), 16);
    let offset_of = |mark: u8| bytes.iter().position(|&b| b == mark).unwrap();
    assert_eq!(offset_of(0x11), 0);
    assert_eq!(offset_of(0x22), 8);
    assert_eq!(offset_of(0x33), 12);
    assert_eq!(offset_of(0x44), 14);
}

#[test]
fn provided_ring_requires_power_of_two_entries() {
    assert!(ProvidedBufferRingSpec::userspace(1, 64).entries_ok());
    assert!(!ProvidedBufferRingSpec::userspace(1, 0).entries_ok());
    assert!(!ProvidedBufferRingSpec::userspace(1, 3).entries_ok());
}

#[test]
fn sqpoll_is_protected_while_gather_is_placed() {
    let policy = SchedExtPolicy {
        nic_local_numa_node: 1,
    };
    assert_eq!(
        policy.decision_for(SchedTaskRole::SqPoll),
        SchedDecision {
            never_preempt: true,
            preferred_numa_node: Some(1),
        }
    );
    assert!(!policy.decision_for(SchedTaskRole::Gather).never_preempt);
    assert_eq!(SchedExtPolicy::bpf_role_tag(SchedTaskRole::SqPoll), 1);
    assert_eq!(SchedExtPolicy::bpf_role_tag(SchedTaskRole::Gather), 2);
    assert_eq!(SchedExtPolicy::bpf_role_tag(SchedTaskRole::Other), 0);
    assert_eq!(
        policy.decision_for(SchedTaskRole::Other).preferred_numa_node,
        None
    );
}

#[test]
fn loader_reports_missing_object() {
    let loader = SchedExtLoader::with_object(
        SchedExtPolicy {
            nic_local_numa_node: 0,
        },
        "/nonexistent/sched_ext_aether.bpf.o",
    );
    let err = loader.attach(None, true).unwrap_err();
    assert_eq!(err, SchedExtError::NotFound);
    assert_eq!(
        loader.message(err),
        "BPF object /nonexistent/sched_ext_aether.bpf.o missing \u{2014} build with --features sched_ext_bpf"
    );
}

#[test]
fn loader_looks_at_size_and_system() {
    let policy = SchedExtPolicy {
        nic_local_numa_node: 0,
    };
    let loader = SchedExtLoader::discover(policy, None);
    assert_eq!(loader.object_path(), "sched_ext_aether.bpf.o");
    let named = SchedExtLoader::discover(policy, Some("a.o".to_string()));
    assert_eq!(named.object_path(), "a.o");
    assert_eq!(loader.attach(Some(1), false), Err(SchedExtError::NotLinux));
    assert_eq!(loader.attach(Some(63), true), Err(SchedExtError::InvalidData));
    assert_eq!(loader.attach(Some(64), true), Err(SchedExtError::Unsupported));
    assert_eq!(
        loader.message(SchedExtError::NotLinux),
        "sched_ext attach is Linux-only"
    );
    assert_eq!(
        loader.message(SchedExtError::InvalidData),
        "BPF object too small to be a valid ELF"
    );
    assert!(named
        .message(SchedExtError::Unsupported)
        .starts_with("SchedExtLoader: object a.o ready; attach via aya/libbpf struct_ops"));
}

#[test]
fn binding_requires_a_range() {
    assert!(CxlNumaBinding::new(4, 0).is_none());
    assert_eq!(CxlNumaBinding::new(4, 4096).unwrap().numa_node, 4);
}

#[test]
fn apply_without_numa_feature_errors_cleanly() {
    let b = CxlNumaBinding::new(1, 4096).unwrap();
    let err = b.apply(None).unwrap_err();
    assert_eq!(err, CxlBindError::NumaFeatureDisabled);
    assert_eq!(err.message(), "rebuild with aethergraph-core/numa for mbind");
}

#[test]
fn binding_hands_on_what_the_system_says() {
    let b = CxlNumaBinding::new(1, 4096).unwrap();
    assert_eq!(b.apply(Some(Ok(()))), Ok(()));
    let err = b.apply(Some(Err("EINVAL".to_string()))).unwrap_err();
    assert_eq!(err.message(), "mbind failed: EINVAL");
    let empty = CxlNumaBinding {
        numa_node: 1,
        length_bytes: 0,
    };
    let err = empty.apply(Some(Ok(()))).unwrap_err();
    assert_eq!(err, CxlBindError::EmptyRange);
    assert_eq!(err.message(), "CXL bind length is zero");
}

#[test]
fn prefetch_hint_flagged() {
    assert!(CoherentPlacementHint::PrefetchToGpu.needs_prefetch());
    assert!(!CoherentPlacementHint::PreferGpu.needs_prefetch());
    assert!(CoherentAllocation::new(0x1000, 4096, CoherentPlacementHint::PreferCpu).is_some());
    assert!(CoherentAllocation::new(0, 4096, CoherentPlacementHint::PreferCpu).is_none());
}

#[test]
fn policy_exposes_topology_failure_reason() {
    let policy = P2pdmaPolicy {
        maximum_distance: 2,
        require_iommu: true,
    };
    assert_eq!(
        policy.classify(Some(1), true, false),
        P2pdmaPath::Usable { distance: 1 }
    );
    assert_eq!(
        policy.classify(Some(3), true, false),
        P2pdmaPath::TooFar {
            distance: 3,
            maximum: 2
        }
    );
    assert_eq!(policy.classify(Some(1), false, false), P2pdmaPath::NoIommu);
    assert_eq!(
        policy.classify(Some(1), true, true),
        P2pdmaPath::AcsRedirected
    );
    assert_eq!(policy.classify(None, true, false), P2pdmaPath::Unsupported);
}

#[test]
fn classify_maps_kernel_status_codes() {
    let policy = P2pdmaPolicy {
        maximum_distance: 2,
        require_iommu: true,
    };
    let (path, bus) = classify_resp(
        AetherP2pdmaResp {
            status: AETHER_P2PDMA_OK,
            distance: 1,
            peer_bus_addr: 0xdead_0000,
        },
        policy,
    );
    assert_eq!(path, P2pdmaPath::Usable { distance: 1 });
    assert_eq!(bus, Some(0xdead_0000));
    let other = |status| {
        classify_resp(
            AetherP2pdmaResp {
                status,
                ..Default::default()
            },
            policy,
        )
    };
    assert_eq!(other(AETHER_P2PDMA_UNSUPPORTED).0, P2pdmaPath::Unsupported);
    assert_eq!(other(AETHER_P2PDMA_UNSUPPORTED).1, None);
    assert_eq!(
        other(AETHER_P2PDMA_TOO_FAR).0,
        P2pdmaPath::TooFar {
            distance: 0,
            maximum: 2
        }
    );
    assert_eq!(other(AETHER_P2PDMA_NO_IOMMU).0, P2pdmaPath::NoIommu);
    assert_eq!(
        other(AETHER_P2PDMA_ACS_REDIRECTED).0,
        P2pdmaPath::AcsRedirected
    );
    assert_eq!(other(99).0, P2pdmaPath::Unsupported);
}

#[test]
fn bdf_encoder_rejects_interior_nul() {
    assert!(encode_bdf("00:01.0").is_ok());
    assert!(encode_bdf("00:01.0\0x").is_err());
    assert_eq!(
        encode_bdf("00:01.0\0x").unwrap_err().message(),
        "nul byte found in provided data at position: 7"
    );
}

#[test]
fn bdf_encoder_leaves_room_for_a_zero_byte() {
    let fits = "x".repeat(31);
    let field = encode_bdf(&fits).unwrap();
    assert_eq!(field.len(), 32);
    assert_eq!(field[31], 0);
    let long = "x".repeat(32);
    assert_eq!(encode_bdf(&long), Err(BdfError::TooLong));
    assert_eq!(BdfError::TooLong.message(), "PCI BDF string too long");
}

#[test]
fn validation_message_and_answer() {
    let policy = P2pdmaPolicy {
        maximum_distance: 5,
        require_iommu: true,
    };
    let mut message = validate_request("00:01.0", "0000:02:00.0", -1, policy).unwrap();
    assert_eq!(message.len(), 96);
    assert_eq!(message[..8], *b"00:01.0\0");
    assert_eq!(message[32..45], *b"0000:02:00.0\0");
    assert_eq!(message[64..68], (-1i32).to_le_bytes());
    assert_eq!(message[68..72], 5u32.to_le_bytes());
    assert_eq!(message[72], 1);
    assert_eq!(message[73..], [0; 23]);
    assert_eq!(validate_code(), (3 << 30) | (96 << 16) | (0xAE << 8) | 1);
    message[80..84].copy_from_slice(&0u32.to_le_bytes());
    message[84..88].copy_from_slice(&4u32.to_le_bytes());
    message[88..96].copy_from_slice(&0xdead_beef_0000u64.to_le_bytes());
    let outcome = validate_outcome(&message, policy);
    assert_eq!(outcome.path, P2pdmaPath::Usable { distance: 4 });
    assert_eq!(outcome.peer_bus_addr, Some(0xdead_beef_0000));
    assert_eq!(
        validate_request("a\0", "b", 0, policy),
        Err(BdfError::InteriorNul { position: 1 })
    );
    assert_eq!(
        validate_request("a", "\0", 0, policy),
        Err(BdfError::InteriorNul { position: 0 })
    );
}
