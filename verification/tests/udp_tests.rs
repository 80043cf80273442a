use rust_snell::addr::SocketAddr;
use rust_snell::udp::{parse_frame, FrameFault, UdpRelay, UdpStep};

fn frame(host: &str, port: u16, data: &[u8]) -> Vec<u8> {
    let mut f = vec![1, host.len() as u8];
    f.extend_from_slice(host.as_bytes());
    f.extend_from_slice(&port.to_be_bytes());
    f.extend_from_slice(data);
    f
}

fn addr(n: u8) -> SocketAddr {
    SocketAddr::V4 { ip: [10, 0, 0, n], port: 53 }
}

#[test]
fn frames_name_a_target() {
    assert_eq!(parse_frame(&frame("dns", 53, b"q")).unwrap(), ("dns:53".to_string(), b"q".to_vec()));
    assert_eq!(parse_frame(&[1, 0, 4, 8, 8, 4, 4, 0, 53, 7]).unwrap(), ("8.8.4.4:53".to_string(), vec![7]));
    let mut v6 = vec![1u8, 0, 6];
    v6.extend_from_slice(&[0u8; 15]);
    v6.extend_from_slice(&[1, 0, 53]);
    assert_eq!(parse_frame(&v6).unwrap(), ("::1:53".to_string(), vec![]));
}

#[test]
fn bytes_that_are_no_frame() {
    assert_eq!(parse_frame(&[1, 1, b'h', 0]), Err(FrameFault::Short(4)));
    assert_eq!(parse_frame(&[]), Err(FrameFault::Short(0)));
    assert_eq!(parse_frame(&frame("dns", 53, b"q")[..6]), Err(FrameFault::Truncated));
    assert_eq!(parse_frame(&[2, 1, b'h', 0, 53]), Err(FrameFault::Command(2)));
    assert_eq!(parse_frame(&[1, 0, 5, 8, 8, 4, 4, 0, 53]), Err(FrameFault::IpVersion(5)));
    assert_eq!(parse_frame(&[1, 0, 4, 8, 8, 4, 4, 0]), Err(FrameFault::Truncated));
    assert_eq!(parse_frame(&[1, 0, 6, 0, 0, 0, 0, 0]), Err(FrameFault::Truncated));
    let mut relay = UdpRelay::new();
    assert!(matches!(relay.take_frame(&[2, 1, b'h', 0, 53]), UdpStep::Bad(FrameFault::Command(2))));
}

#[test]
fn a_target_is_looked_up_once() {
    let mut relay = UdpRelay::new();
    assert!(matches!(relay.take_frame(&frame("dns", 53, b"a")), UdpStep::Resolve(t) if t == "dns:53"));
    assert!(matches!(relay.resolved(Some(addr(1))), UdpStep::Send { to, data } if to == addr(1) && data == b"a"));
    assert!(matches!(relay.take_frame(&frame("dns", 53, b"b")), UdpStep::Send { to, data } if to == addr(1) && data == b"b"));
    assert!(matches!(relay.take_frame(&frame("dns", 53, b"")), UdpStep::Nothing));
    assert!(matches!(relay.take_frame(&frame("dns", 54, b"b")), UdpStep::Resolve(_)));
}

#[test]
fn a_target_that_is_not_found_is_dropped() {
    let mut relay = UdpRelay::new();
    relay.take_frame(&frame("dns", 53, b"a"));
    assert!(matches!(relay.resolved(None), UdpStep::Nothing));
    assert!(matches!(relay.resolved(Some(addr(1))), UdpStep::Nothing));
    assert!(matches!(relay.take_frame(&frame("dns", 53, b"a")), UdpStep::Resolve(_)));
    assert!(matches!(relay.resolved(Some(addr(2))), UdpStep::Send { .. }));
    relay.take_frame(&frame("empty", 53, b""));
    assert!(matches!(relay.resolved(Some(addr(3))), UdpStep::Nothing));
    assert!(matches!(relay.take_frame(&frame("empty", 53, b"x")), UdpStep::Send { to, .. } if to == addr(3)));
}

#[test]
fn the_target_used_longest_ago_is_forgotten() {
    let mut relay = UdpRelay::new();
    for i in 0..256u16 {
        relay.take_frame(&frame("h", i, b"x"));
        relay.resolved(Some(addr(1)));
    }
    // The first target is used again, so the second one leaves for a new one.
    assert!(matches!(relay.take_frame(&frame("h", 0, b"x")), UdpStep::Send { .. }));
    relay.take_frame(&frame("new", 1, b"x"));
    relay.resolved(Some(addr(2)));
    assert!(matches!(relay.take_frame(&frame("h", 0, b"x")), UdpStep::Send { .. }));
    assert!(matches!(relay.take_frame(&frame("h", 2, b"x")), UdpStep::Send { .. }));
    assert!(matches!(relay.take_frame(&frame("new", 1, b"x")), UdpStep::Send { to, .. } if to == addr(2)));
    assert!(matches!(relay.take_frame(&frame("h", 1, b"x")), UdpStep::Resolve(_)));
}
