use vaumototool::rtmap::{RtPoint, ACHANELS};
use vaumototool::udp::{parcer, resync_timestamps, Hsync, UdpAction, UdpReceiver, DEF_UDP_PORT, UDP_PACK_SIZE};

fn packet(timestamp: u32, achanels: &[i16; 16], digital: u32) -> Vec<u8> {
    let mut b = vec![0x55u8, 0x33];
    b.extend_from_slice(&timestamp.to_be_bytes());
    for a in achanels {
        b.extend_from_slice(&a.to_be_bytes());
    }
    b.extend_from_slice(&digital.to_be_bytes());
    b.extend_from_slice(&[0, 0]);
    b
}

fn channels(first: i16) -> [i16; 16] {
    let mut a = [0i16; 16];
    for (j, v) in a.iter_mut().enumerate() {
        *v = first + j as i16;
    }
    a
}

fn point(timestamp: i64) -> RtPoint {
    RtPoint { nan: false, timestamp, achanels: vec![0; ACHANELS], digital: 0 }
}

#[test]
fn udp_constants() {
    assert_eq!(DEF_UDP_PORT, 55512);
    assert_eq!(UDP_PACK_SIZE, 44);
}

#[test]
fn parses_two_packets() {
    let mut buf = packet(0x0102_0304, &channels(-8), 0xdead_beef);
    buf.extend(packet(7, &channels(100), 5));
    assert_eq!(buf.len(), 88);
    let mut big = buf.clone();
    big.resize(2000, 0);
    let pts = parcer(&big, 88).unwrap();
    assert_eq!(pts.len(), 2);
    assert_eq!(pts[0].timestamp, 0x0102_0304);
    assert_eq!(pts[0].achanels, channels(-8).to_vec());
    assert_eq!(pts[0].digital, 0xdead_beef);
    assert!(!pts[0].nan);
    assert_eq!(pts[1].timestamp, 7);
    assert_eq!(pts[1].achanels[15], 115);
    assert_eq!(pts[1].digital, 5);
}

#[test]
fn parses_extreme_channel_values() {
    let mut a = [0i16; 16];
    a[0] = i16::MIN;
    a[1] = i16::MAX;
    a[2] = -1;
    let buf = packet(u32::MAX, &a, u32::MAX);
    let pts = parcer(&buf, 44).unwrap();
    assert_eq!(pts[0].timestamp, 4294967295);
    assert_eq!(pts[0].achanels[0], -32768);
    assert_eq!(pts[0].achanels[1], 32767);
    assert_eq!(pts[0].achanels[2], -1);
    assert_eq!(pts[0].digital, 4294967295);
}

#[test]
fn rejects_partial_packet() {
    let buf = packet(1, &channels(0), 0);
    assert!(parcer(&buf, 43).is_err());
    assert!(parcer(&buf, 0).is_err());
    assert!(parcer(&[], 0).is_err());
    assert!(parcer(&buf, 1).is_err());
}

#[test]
fn rejects_bad_header() {
    let mut buf = packet(1, &channels(0), 0);
    buf.extend(packet(2, &channels(0), 0));
    buf[44] = 0;
    buf[45] = 0;
    assert!(parcer(&buf, 88).is_err());
}

#[test]
fn accepts_header_with_one_right_byte() {
    let mut buf = packet(1, &channels(0), 0);
    buf[0] = 0;
    assert_eq!(parcer(&buf, 44).unwrap().len(), 1);
    let mut buf = packet(1, &channels(0), 0);
    buf[1] = 0;
    assert_eq!(parcer(&buf, 44).unwrap().len(), 1);
}

#[test]
fn resync_keeps_short_spacing_and_restarts_after_pause() {
    let mut pts = vec![point(1000), point(1100), point(1200), point(5000), point(5010)];
    let mut h = Hsync::new();
    h.synh_tp = 77;
    h.udp_synh_tp = 950;
    resync_timestamps(&mut pts, &mut h, 1_000_000);
    let ts: Vec<i64> = pts.iter().map(|p| p.timestamp).collect();
    // 1000 follows 950 closely: keeps the spacing from 77
    // 5000 comes 3800 after 1200: restarts from now, counted from the first sample
    assert_eq!(ts, vec![127, 227, 327, 1_004_000, 1_004_010]);
    assert_eq!(h.synh_tp, 1_004_010);
    assert_eq!(h.udp_synh_tp, 5010);
    assert!(!h.synh);
}

#[test]
fn resync_first_datagram_starts_at_now() {
    let mut pts = vec![point(2000), point(2010)];
    let mut h = Hsync::new();
    resync_timestamps(&mut pts, &mut h, 500);
    assert_eq!(pts[0].timestamp, 500);
    assert_eq!(pts[1].timestamp, 510);
}

#[test]
fn receiver_stops_when_recording_is_off() {
    let mut r = UdpReceiver::new(0);
    let buf = packet(1, &channels(0), 0);
    assert!(r.packet_in_range(&buf, 44, false, 0, 0, 50));
    assert!(matches!(r.on_packet(&buf, 44, false, 0, 0, 50), UdpAction::Stop));
    assert!(r.tempbuf.is_empty());
    assert!(matches!(r.on_timeout(false, true), UdpAction::Stop));
}

#[test]
fn receiver_buffers_then_sends() {
    let mut r = UdpReceiver::new(1000);
    let buf = packet(5000, &channels(1), 2);
    assert!(r.packet_in_range(&buf, 44, true, 1_000_000, 1010, 50));
    // 10 ms after the start: not yet due (due after 75 ms)
    assert!(matches!(r.on_packet(&buf, 44, true, 1_000_000, 1010, 50), UdpAction::Continue));
    assert_eq!(r.tempbuf.len(), 1);
    assert_eq!(r.tempbuf[0].timestamp, 1_000_000);
    let buf2 = packet(5100, &channels(1), 2);
    match r.on_packet(&buf2, 44, true, 1_000_500, 1076, 50) {
        UdpAction::Send(v) => {
            assert_eq!(v.len(), 2);
            assert_eq!(v[1].timestamp, 1_000_100);
        }
        _ => panic!("expected a batch"),
    }
    assert!(r.tempbuf.is_empty());
    assert_eq!(r.prtime, 1076);
}

#[test]
fn receiver_ignores_bad_datagram_but_still_flushes() {
    let mut r = UdpReceiver::new(0);
    let buf = vec![1u8; 10];
    match r.on_packet(&buf, 10, true, 0, 1000, 50) {
        UdpAction::Send(v) => assert!(v.is_empty()),
        _ => panic!("expected a batch"),
    }
}

#[test]
fn receiver_timeout() {
    let mut r = UdpReceiver::new(0);
    r.synh.synh = true;
    assert!(matches!(r.on_timeout(true, false), UdpAction::Continue));
    assert!(!r.synh.synh);
    assert!(matches!(r.on_timeout(true, true), UdpAction::Demo));
}

#[test]
fn packet_range_check() {
    let r = UdpReceiver::new(1);
    let buf = packet(1, &channels(0), 0);
    assert!(r.packet_in_range(&buf, 0, true, 0, 0, 50));
    assert!(!r.packet_in_range(&buf, 88, true, 0, 0, 50));
    assert!(!r.packet_in_range(&buf, 44, true, 0, i64::MIN, 50));
    assert!(!r.packet_in_range(&buf, 44, true, 0, 0, usize::MAX));
    assert!(r.packet_in_range(&buf, 44, true, 1, 0, 50));
    let mut two = packet(5000, &channels(0), 0);
    two.extend(packet(5010, &channels(0), 0));
    assert!(!r.packet_in_range(&two, 88, true, i64::MAX, 0, 50));
    assert!(r.packet_in_range(&two, 88, true, i64::MAX - 10, 0, 50));
}
