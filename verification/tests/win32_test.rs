use procpulse::net::{classify_event, decode_event, is_ipv6_loopback, is_loopback};
use procpulse::net::{EventKind, KernelNetIpv4Prefix, KernelNetIpv6Prefix, SharedNetState, Traffic};
use procpulse::net::{IPV4_PREFIX_SIZE, IPV6_PREFIX_SIZE, MAX_TRACKED_SLOTS};
use procpulse::utf16::{from_utf16_lossy, str_to_utf16_null, text_before_null, text_of_call, unit_count};
use procpulse::win32::{extract_arguments, filetime_to_u64, is_valid_handle, utc_timestamp};
use procpulse::win32::{FileTime, ProcessMemory, ProcessTimes, SystemMemory, SystemTimes};

#[test]
fn test_extract_arguments_with_quotes() {
    assert_eq!(
        extract_arguments(r#""C:\Program Files\App\MyApplication.exe" --server alpha --port 8001"#),
        "--server alpha --port 8001"
    );
    assert_eq!(extract_arguments(r#""MyApplication.exe""#), "");
    assert_eq!(extract_arguments(r#""MyApplication.exe"   --arg 1   "#), "--arg 1");
}

#[test]
fn test_extract_arguments_without_quotes() {
    assert_eq!(extract_arguments("MyApplication.exe --server beta"), "--server beta");
    assert_eq!(extract_arguments("MyApplication.exe"), "");
}

#[test]
fn extract_arguments_at_the_edges() {
    assert_eq!(extract_arguments(""), "");
    assert_eq!(extract_arguments(" \t "), "");
    assert_eq!(extract_arguments("\"never closed --arg"), "");
    assert_eq!(extract_arguments("\"\""), "");
    assert_eq!(extract_arguments("  a.exe\t\"b c\"  d "), "\"b c\"  d");
    assert_eq!(extract_arguments("\"a.exe\"--tight"), "--tight");
}

#[test]
fn test_utc_string_format() {
    let s = utc_timestamp(2026, 9, 10, 17, 15, 0);
    assert_eq!(s.len(), 20); // YYYY-MM-DDTHH:MM:SSZ
    assert!(s.ends_with('Z'));
    assert_eq!(&s[10..11], "T");
    assert_eq!(s, "2026-09-10T17:15:00Z");
}

#[test]
fn timestamps_grow_with_long_numbers() {
    assert_eq!(utc_timestamp(7, 1, 2, 3, 4, 5), "0007-01-02T03:04:05Z");
    assert_eq!(utc_timestamp(65535, 100, 2, 3, 4, 5), "65535-100-02T03:04:05Z");
}

#[test]
fn test_shared_net_state_claim_and_drain() {
    let mut state = SharedNetState::new();
    let slot = state.claim_slot(1234).expect("claim slot");
    assert_eq!(state.drain_slot(slot), (0, 0));

    state.record_traffic(1234, 1000, 500);
    state.record_traffic(1234, 250, 750);

    let (rx, tx) = state.drain_slot(slot);
    assert_eq!(rx, 1250);
    assert_eq!(tx, 1250);

    // After drain, should be 0
    assert_eq!(state.drain_slot(slot), (0, 0));
}

#[test]
fn test_shared_net_state_untracked_ignored() {
    let mut state = SharedNetState::new();
    let slot = state.claim_slot(1000).expect("claim slot");

    // Traffic for PID 9999 (untracked)
    state.record_traffic(9999, 5000, 2000);

    // Tracked slot 1000 unaffected
    assert_eq!(state.drain_slot(slot), (0, 0));
}

#[test]
fn test_shared_net_state_release_clears_pid() {
    let mut state = SharedNetState::new();
    let slot = state.claim_slot(2000).expect("claim slot");
    state.record_traffic(2000, 400, 300);

    let (rx, tx) = state.release_slot(slot);
    assert_eq!(rx, 400);
    assert_eq!(tx, 300);

    // After release, slot pid is 0, future traffic to 2000 is ignored
    state.record_traffic(2000, 100, 100);
    assert_eq!(state.drain_slot(slot), (0, 0));
}

#[test]
fn test_shared_net_state_multiple_pids() {
    let mut state = SharedNetState::new();
    let slot1 = state.claim_slot(1001).expect("slot 1");
    let slot2 = state.claim_slot(1002).expect("slot 2");

    state.record_traffic(1001, 100, 200);
    state.record_traffic(1002, 300, 400);

    assert_eq!(state.drain_slot(slot1), (100, 200));
    assert_eq!(state.drain_slot(slot2), (300, 400));
}

#[test]
fn test_shared_net_state_large_u64_preserves_precision() {
    let mut state = SharedNetState::new();
    let slot = state.claim_slot(3000).expect("claim slot");

    let large_rx: u64 = 100_000_000_000;
    let large_tx: u64 = 50_000_000_000;
    state.record_traffic(3000, large_rx, large_tx);

    assert_eq!(state.drain_slot(slot), (large_rx, large_tx));
}

#[test]
fn slots_are_claimed_in_order_and_run_out() {
    let mut state = SharedNetState::default();
    assert_eq!(state.claim_slot(0), None);
    for i in 0..MAX_TRACKED_SLOTS {
        assert_eq!(state.claim_slot(100 + i as u32), Some(i));
    }
    assert_eq!(state.claim_slot(7), None);
    assert_eq!(state.claim_slot(103), Some(3));
    state.record_traffic(103, 9, 9);
    assert_eq!(state.release_slot(3), (9, 9));
    assert_eq!(state.claim_slot(7), Some(3));
    assert_eq!(state.drain_slot(3), (0, 0));
    assert_eq!(state.drain_slot(MAX_TRACKED_SLOTS), (0, 0));
    assert_eq!(state.release_slot(usize::MAX), (0, 0));
}

#[test]
fn traffic_without_a_process_is_ignored() {
    let mut state = SharedNetState::new();
    state.record_traffic(0, 5, 5);
    for i in 0..MAX_TRACKED_SLOTS {
        assert_eq!(state.drain_slot(i), (0, 0));
    }
}

#[test]
fn counters_wrap_around() {
    let mut state = SharedNetState::new();
    let slot = state.claim_slot(5).unwrap();
    state.record_traffic(5, u64::MAX, 1);
    state.record_traffic(5, 2, 0);
    assert_eq!(state.drain_slot(slot), (1, 1));
}

#[test]
fn test_is_loopback_ipv4() {
    // Layout: [pid: 4B, size: 4B, daddr: 4B, saddr: 4B, dport: 2B, sport: 2B, seq: 4B, connid: 4B] = 28 bytes
    let mut buf_loopback = [0u8; 28];
    buf_loopback[8] = 127; // daddr = 127.0.0.1
    buf_loopback[11] = 1;
    assert!(is_loopback(10, &buf_loopback));
    assert!(is_loopback(11, &buf_loopback));

    let mut buf_external = [0u8; 28];
    buf_external[8] = 192; // daddr = 192.168.1.1
    buf_external[9] = 168;
    buf_external[12] = 10; // saddr = 10.0.0.1
    assert!(!is_loopback(10, &buf_external));
    assert!(!is_loopback(11, &buf_external));
    assert!(!is_loopback(42, &buf_external));
    assert!(!is_loopback(43, &buf_external));
}

#[test]
fn test_is_loopback_ipv6() {
    // Layout: [pid: 4B, size: 4B, daddr: 16B, saddr: 16B, dport: 2B, sport: 2B, seq: 4B, connid: 4B] = 52 bytes
    let mut buf_loopback = [0u8; 52];
    buf_loopback[23] = 1; // daddr = ::1
    assert!(is_loopback(26, &buf_loopback));
    assert!(is_loopback(27, &buf_loopback));
    assert!(is_loopback(58, &buf_loopback));
    assert!(is_loopback(59, &buf_loopback));

    let mut buf_external = [0u8; 52];
    buf_external[8] = 0x20; // 2001:db8::
    buf_external[9] = 0x01;
    assert!(!is_loopback(26, &buf_external));
    assert!(!is_loopback(27, &buf_external));
}

#[test]
fn test_schema_offsets_match_manifest() {
    // Each byte holds its own offset.
    let data: Vec<u8> = (0..64).collect();

    // IPv4 layout matches manifest: PID(0), size(4), daddr(8), saddr(12), dport(16), sport(18)
    let v4 = KernelNetIpv4Prefix::parse(&data).unwrap();
    assert_eq!(v4.pid.to_le_bytes()[0], 0);
    assert_eq!(v4.size.to_le_bytes()[0], 4);
    assert_eq!(v4.daddr[0], 8);
    assert_eq!(v4.saddr[0], 12);
    assert_eq!(v4.dport.to_le_bytes()[0], 16);
    assert_eq!(v4.sport.to_le_bytes()[0], 18);
    assert_eq!(IPV4_PREFIX_SIZE, 20);
    assert!(KernelNetIpv4Prefix::parse(&data[..20]).is_some());
    assert!(KernelNetIpv4Prefix::parse(&data[..19]).is_none());
    assert_eq!(v4.pid, 0x03020100);
    assert_eq!(v4.daddr, [8, 9, 10, 11]);

    // IPv6 layout matches manifest: PID(0), size(4), daddr(8), saddr(24), dport(40), sport(42)
    let v6 = KernelNetIpv6Prefix::parse(&data).unwrap();
    assert_eq!(v6.pid.to_le_bytes()[0], 0);
    assert_eq!(v6.size.to_le_bytes()[0], 4);
    assert_eq!(v6.daddr[0], 8);
    assert_eq!(v6.saddr[0], 24);
    assert_eq!(v6.dport.to_le_bytes()[0], 40);
    assert_eq!(v6.sport.to_le_bytes()[0], 42);
    assert_eq!(IPV6_PREFIX_SIZE, 44);
    assert!(KernelNetIpv6Prefix::parse(&data[..44]).is_some());
    assert!(KernelNetIpv6Prefix::parse(&data[..43]).is_none());
    assert_eq!(v6.saddr[15], 39);
}

#[test]
fn ipv6_loopback_addresses() {
    let mut addr = [0u8; 16];
    assert!(!is_ipv6_loopback(&addr));
    addr[15] = 1;
    assert!(is_ipv6_loopback(&addr));
    let mapped = [0, 0, 0, 0, 0, 0, 0, 0, 0, 0, 0xff, 0xff, 127, 1, 2, 3];
    assert!(is_ipv6_loopback(&mapped));
    assert!(is_ipv6_loopback(&mapped[..13]));
    assert!(!is_ipv6_loopback(&mapped[..11]));
    assert!(!is_ipv6_loopback(&[]));
}

#[test]
fn loopback_needs_enough_data() {
    let mut data = [0u8; 28];
    data[12] = 127;
    assert!(is_loopback(42, &data));
    assert!(is_loopback(42, &data[..20]));
    assert!(!is_loopback(42, &data[..19]));
    assert!(!is_loopback(12, &data));
}

#[test]
fn events_become_traffic() {
    let mut data = vec![0u8; 28];
    data[0] = 0xd2;
    data[1] = 0x04;
    data[4] = 100;
    data[8] = 10;
    assert_eq!(decode_event(0, 10, &data), Some(Traffic { pid: 1234, rx_bytes: 0, tx_bytes: 100 }));
    assert_eq!(decode_event(0, 43, &data), Some(Traffic { pid: 1234, rx_bytes: 100, tx_bytes: 0 }));
    assert_eq!(decode_event(1, 10, &data), None);
    assert_eq!(decode_event(0, 12, &data), None);
    assert_eq!(decode_event(0, 10, &data[..7]), None);
    // Too short to tell the addresses, but long enough to tell the process.
    assert_eq!(decode_event(0, 26, &data[..8]), Some(Traffic { pid: 1234, rx_bytes: 0, tx_bytes: 100 }));
    data[8] = 127;
    assert_eq!(decode_event(0, 10, &data), None);
}

#[test]
fn event_kinds() {
    for id in [10u16, 26, 42, 58] {
        assert_eq!(classify_event(id), Some(EventKind { sent: true, ipv6: id == 26 || id == 58 }));
    }
    for id in [11u16, 27, 43, 59] {
        assert_eq!(classify_event(id), Some(EventKind { sent: false, ipv6: id == 27 || id == 59 }));
    }
    assert_eq!(classify_event(0), None);
}

#[test]
fn file_times() {
    assert_eq!(filetime_to_u64(FileTime { low: 5, high: 0 }), 5);
    assert_eq!(filetime_to_u64(FileTime { low: 0xffff_ffff, high: 1 }), 0x1_ffff_ffff);
    let times = ProcessTimes::from_filetimes(FileTime { low: 1, high: 0 }, FileTime { low: 2, high: 0 });
    assert_eq!(times.total(), 3);
    assert_eq!(ProcessTimes { kernel_time: u64::MAX, user_time: 2 }.total(), 1);
    let system = SystemTimes::from_filetimes(
        FileTime { low: 1, high: 0 },
        FileTime { low: 2, high: 0 },
        FileTime { low: 3, high: 0 },
    );
    assert_eq!(system.idle_time, 1);
    assert_eq!(system.total(), 5);
}

#[test]
fn handles() {
    assert!(!is_valid_handle(0));
    assert!(!is_valid_handle(-1));
    assert!(is_valid_handle(4));
    assert!(is_valid_handle(-2));
}

#[test]
fn memory_readings() {
    let m = ProcessMemory::with_private_working_set(10, 20, 7);
    assert_eq!((m.working_set_bytes, m.private_bytes, m.private_active_bytes), (10, 20, 7));
    let fallback = ProcessMemory::with_private_working_set(10, 20, 0);
    assert_eq!(fallback.private_active_bytes, 20);
    let old = ProcessMemory::without_private_working_set(10, 20);
    assert_eq!((old.working_set_bytes, old.private_bytes, old.private_active_bytes), (10, 20, 20));
    assert_eq!(ProcessMemory::from_answers(Some((10, 20, 7)), Some((1, 2))), Some(m));
    assert_eq!(ProcessMemory::from_answers(Some((10, 20, 0)), None), Some(fallback));
    assert_eq!(ProcessMemory::from_answers(None, Some((10, 20))), Some(old));
    assert_eq!(ProcessMemory::from_answers(None, None), None);
    assert_eq!(SystemMemory { total_phys_bytes: 10, avail_phys_bytes: 4 }.used_phys_bytes(), 6);
    assert_eq!(SystemMemory { total_phys_bytes: 4, avail_phys_bytes: 10 }.used_phys_bytes(), 0);
}

#[test]
fn utf16_agrees_with_the_standard_library() {
    for s in ["", "abc", "gr\u{fc}n", "\u{1f600}!", "\u{ffff}\u{10000}\u{10ffff}"] {
        let mut expected: Vec<u16> = s.encode_utf16().collect();
        assert_eq!(from_utf16_lossy(&expected), s);
        expected.push(0);
        assert_eq!(str_to_utf16_null(s), expected);
        assert_eq!(text_before_null(&expected), s);
    }
    for units in [vec![0xd800u16], vec![0xdc00, 65], vec![0xd800, 65], vec![0xd83d, 0xd83d, 0xde00]] {
        assert_eq!(from_utf16_lossy(&units), String::from_utf16_lossy(&units));
    }
    for unit in 0..=u16::MAX {
        assert_eq!(from_utf16_lossy(&[unit]), String::from_utf16_lossy(&[unit]));
    }
}

#[test]
fn texts_out_of_buffers() {
    assert_eq!(text_before_null(&[65, 66, 0, 67]), "AB");
    assert_eq!(text_before_null(&[65, 66]), "AB");
    assert_eq!(text_of_call(1, 2, &[65, 66, 67]), Some("AB".to_string()));
    assert_eq!(text_of_call(0, 2, &[65, 66, 67]), None);
    assert_eq!(text_of_call(1, 0, &[65, 66, 67]), None);
    assert_eq!(unit_count(7), 3);
}
