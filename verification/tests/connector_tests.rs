use qemu_connector::mem_map::{GIB, MIB};
use qemu_connector::strutil::{parse_dec_u32, parse_hex_u64};
use qemu_connector::transfer::TransferRequest;
use qemu_connector::{
    help, parse_map_override, parse_proc_maps_region, parse_qmp_socket_addr, qemu_guest_name,
    select_biggest_region, ConnectorError, QemuProcfs, QmpSocketAddr, TransferReason,
};

#[test]
fn test_connector_metadata() {
    let q = QemuProcfs::with_cmdline_and_mem(
        "qemu-system-x86_64 -machine q35",
        0x7f52_0000_0000,
        4096 * MIB,
        None,
        64,
    )
    .unwrap();
    let md = q.metadata();
    assert_eq!(md.total_size, 4096 * MIB + 2 * GIB);
    assert!(!md.readonly);
}

#[test]
fn test_connector_plan_transfers() {
    let q = QemuProcfs::with_cmdline_and_mem(
        "qemu-system-x86_64 -machine q35",
        0x1000,
        4096 * MIB,
        None,
        2,
    )
    .unwrap();
    let reqs = vec![
        TransferRequest { guest_addr: 0, len: 8 },
        TransferRequest { guest_addr: 0x100, len: 8 },
        TransferRequest { guest_addr: 4 * GIB, len: 8 },
    ];
    let plan = q.plan_transfers(&reqs).unwrap();
    assert_eq!(plan.batch_count(), 2);
    assert_eq!(plan.batch(0)[0].host_addr, 0x1000);
    assert_eq!(plan.batch(0)[1].host_addr, 0x1100);
    assert_eq!(plan.batch(1)[0].host_addr, 0x1000 + 2 * GIB);
}

#[test]
fn test_connector_construction_fails_without_ranges() {
    let r = QemuProcfs::with_cmdline_and_mem("qemu-system-x86_64 -machine q35", 0, 0, None, 16);
    assert_eq!(r.err(), Some(ConnectorError::MappingNotFound));
}

#[test]
fn test_parse_map_override_args() {
    assert_eq!(parse_map_override(Some("7f0000000000"), Some("100000000")),
        Some((0x7f0000000000, 0x100000000)));
    assert_eq!(parse_map_override(Some("7f0000000000"), None), None);
    assert_eq!(parse_map_override(None, Some("100000000")), None);
    assert_eq!(parse_map_override(Some("xyz"), Some("100000000")), None);
    assert_eq!(parse_map_override(Some("10"), Some("g")), None);
}

#[test]
fn test_parse_hex_u64_cases() {
    assert_eq!(parse_hex_u64("ff"), Some(255));
    assert_eq!(parse_hex_u64("+ff"), Some(255));
    assert_eq!(parse_hex_u64("0"), Some(0));
    assert_eq!(parse_hex_u64("ffffffffffffffff"), Some(u64::MAX));
    assert_eq!(parse_hex_u64("10000000000000000"), None);
    assert_eq!(parse_hex_u64(""), None);
    assert_eq!(parse_hex_u64("+"), None);
    assert_eq!(parse_hex_u64("12g4"), None);
    assert_eq!(parse_hex_u64("AbCdEf"), Some(0xabcdef));
}

#[test]
fn test_parse_dec_u32_cases() {
    assert_eq!(parse_dec_u32("1234"), Some(1234));
    assert_eq!(parse_dec_u32("+7"), Some(7));
    assert_eq!(parse_dec_u32("4294967295"), Some(u32::MAX));
    assert_eq!(parse_dec_u32("4294967296"), None);
    assert_eq!(parse_dec_u32(""), None);
    assert_eq!(parse_dec_u32("12a"), None);
    assert_eq!(parse_dec_u32("-3"), None);
}

#[test]
fn test_select_biggest_region_picks_first_longest() {
    let regions = vec![(0x1000u64, 0x2000u64), (0x9000, 0x8000), (0x20000, 0x8000), (0x40000, 0x100)];
    assert_eq!(select_biggest_region(&regions, None), Some((0x9000, 0x8000)));
    assert_eq!(select_biggest_region(&vec![], None), None);
    assert_eq!(
        select_biggest_region(&regions, Some((0xdead, 0xbeef))),
        Some((0xdead, 0xbeef))
    );
}

#[test]
fn test_parse_qmp_socket_addr_kinds() {
    match parse_qmp_socket_addr("unix:/tmp/qmp-win10.sock") {
        Ok(QmpSocketAddr::Unix(p)) => assert_eq!(p, "/tmp/qmp-win10.sock"),
        _ => panic!("expected a unix socket address"),
    }
    match parse_qmp_socket_addr("tcp:127.0.0.1:4444") {
        Ok(QmpSocketAddr::Tcp(p)) => assert_eq!(p, "127.0.0.1:4444"),
        _ => panic!("expected a tcp socket address"),
    }
    match parse_qmp_socket_addr("vsock:3:4444") {
        Err(e) => assert_eq!(e, ConnectorError::Configuration),
        _ => panic!("expected a configuration error"),
    }
}

#[test]
fn test_qemu_guest_name_filter() {
    assert_eq!(
        qemu_guest_name("qemu-system-x86_64", "qemu-system-x86_64 -name win10-test -m 4G"),
        Some("win10-test".to_string())
    );
    assert_eq!(
        qemu_guest_name("qemu-system-x86_64", "qemu-system-x86_64 -name guest=win10,debug-threads=on"),
        Some("win10".to_string())
    );
    assert_eq!(qemu_guest_name("bash", "bash -name win10"), None);
    assert_eq!(qemu_guest_name("qemu-system-x86_64", "qemu-system-x86_64 -m 4G"), None);
}

#[test]
fn test_parse_proc_maps_region_line() {
    assert_eq!(
        parse_proc_maps_region("7f5200000000-7f5300000000 rw-p 00000000 00:00 0"),
        Some((0x7f5200000000, 0x100000000))
    );
    assert_eq!(parse_proc_maps_region(""), None);
    assert_eq!(parse_proc_maps_region("not a maps line"), None);
}

#[test]
fn test_transfer_reason_variants_reachable() {
    // every transfer-failure reason can be carried by the error type
    let reasons = [
        TransferReason::InvalidAddress,
        TransferReason::AllocationFailed,
        TransferReason::PermissionDenied,
        TransferReason::ProcessNotFound,
        TransferReason::InvalidArgument,
    ];
    for r in reasons.iter() {
        let e = ConnectorError::TransferFailed(*r);
        assert!(matches!(e, ConnectorError::TransferFailed(_)));
    }
}

#[test]
fn test_help_text() {
    let h = help();
    assert!(h.starts_with("The qemu connector"));
    assert!(h.contains("map_base"));
    assert!(h.contains("map_size"));
}
