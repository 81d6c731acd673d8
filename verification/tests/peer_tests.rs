use reki3::peer::{generate_peer, select_ip, IpAddress};

#[test]
fn generate_peer_test() {
    assert_eq!(generate_peer(IpAddress::V4([127, 0, 0, 1]), 0x3039), &[127, 0, 0, 1, 0x30, 0x39]);
    assert_eq!(
        generate_peer(
            IpAddress::V6([0xabcd, 0xef01, 0x2345, 0x6789, 0xabcd, 0xef01, 0x2345, 0x6789]),
            0x1234
        ),
        &[0xab, 0xcd, 0xef, 0x01, 0x23, 0x45, 0x67, 0x89, 0xab, 0xcd, 0xef, 0x01, 0x23, 0x45, 0x67, 0x89, 0x12, 0x34]
    );
}

#[test]
fn generate_peer_lengths() {
    assert_eq!(generate_peer(IpAddress::V4([0; 4]), 0).len(), 6);
    assert_eq!(generate_peer(IpAddress::V6([0; 8]), 0).len(), 18);
    assert_eq!(generate_peer(IpAddress::V4([1, 2, 3, 4]), 0xffff)[4..], [0xff, 0xff]);
}

#[test]
fn select_ip_keeps_requested_address_of_same_family() {
    let remote = IpAddress::V4([10, 0, 0, 1]);
    let asked = IpAddress::V4([192, 168, 1, 2]);
    assert_eq!(generate_peer(select_ip(Some(asked), remote), 1), vec![192, 168, 1, 2, 0, 1]);
}

#[test]
fn select_ip_falls_back_to_remote() {
    let remote = IpAddress::V4([10, 0, 0, 1]);
    let other_family = IpAddress::V6([1, 0, 0, 0, 0, 0, 0, 1]);
    assert_eq!(generate_peer(select_ip(Some(other_family), remote), 1), vec![10, 0, 0, 1, 0, 1]);
    assert_eq!(generate_peer(select_ip(None, remote), 1), vec![10, 0, 0, 1, 0, 1]);
    let remote6 = IpAddress::V6([0xfe80, 0, 0, 0, 0, 0, 0, 1]);
    let peer = generate_peer(select_ip(Some(IpAddress::V4([1, 1, 1, 1])), remote6), 80);
    assert_eq!(peer.len(), 18);
    assert_eq!(&peer[..2], &[0xfe, 0x80]);
}
