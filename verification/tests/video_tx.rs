use streamd_server::transport::video_tx::{
    frame_can_be_cut, packetize_frame, packetize_frame_slice, packetize_slice, select_mtu, KEY_FRAME, LAST_SLICE, MTU_LAN, MTU_WAN,
    VIDEO_HEADER_SIZE,
};

fn header(packet: &[u8]) -> (u32, u64, u8, u8, u16, u16) {
    (
        u32::from_le_bytes(packet[0..4].try_into().unwrap()),
        u64::from_le_bytes(packet[4..12].try_into().unwrap()),
        packet[12],
        packet[13],
        u16::from_le_bytes(packet[14..16].try_into().unwrap()),
        u16::from_le_bytes(packet[16..18].try_into().unwrap()),
    )
}

#[test]
fn mtu_follows_jumbo_setting() {
    assert_eq!(select_mtu(true), MTU_LAN);
    assert_eq!(select_mtu(false), MTU_WAN);
    assert!(MTU_WAN > VIDEO_HEADER_SIZE);
}

#[test]
fn header_bytes_are_little_endian() {
    let data = [0xaa, 0xbb];
    let packets = packetize_slice(0x0102_0304, 0x1122_3344_5566_7788, 7, true, true, &data, 64);
    assert_eq!(packets.len(), 1);
    assert_eq!(
        packets[0],
        vec![
            0x04, 0x03, 0x02, 0x01, 0x88, 0x77, 0x66, 0x55, 0x44, 0x33, 0x22, 0x11, 7,
            KEY_FRAME | LAST_SLICE, 0, 0, 1, 0, 0xaa, 0xbb
        ]
    );
}

#[test]
fn slice_is_cut_into_mtu_sized_fragments() {
    let data: Vec<u8> = (0u8..10).collect();
    // 4 payload bytes per datagram.
    let mtu = VIDEO_HEADER_SIZE + 4;
    let packets = packetize_slice(9, 1234, 2, true, true, &data, mtu);
    assert_eq!(packets.len(), 3);
    let mut reassembled = Vec::new();
    for (k, packet) in packets.iter().enumerate() {
        assert!(packet.len() <= mtu);
        let (seq, ts, slice, flags, frag, total) = header(packet);
        assert_eq!((seq, ts, slice, frag, total), (9, 1234, 2, k as u16, 3));
        assert_eq!(flags & KEY_FRAME != 0, k == 0);
        assert_eq!(flags & LAST_SLICE != 0, k == 2);
        reassembled.extend_from_slice(&packet[VIDEO_HEADER_SIZE..]);
    }
    assert_eq!(reassembled, data);
    assert_eq!(packets[0][VIDEO_HEADER_SIZE..], [0, 1, 2, 3]);
    assert_eq!(packets[2][VIDEO_HEADER_SIZE..], [8, 9]);
}

#[test]
fn exact_multiple_of_payload_has_no_short_fragment() {
    let data = [5u8; 8];
    let packets = packetize_slice(1, 2, 0, false, false, &data, VIDEO_HEADER_SIZE + 4);
    assert_eq!(packets.len(), 2);
    assert!(packets.iter().all(|p| p.len() == VIDEO_HEADER_SIZE + 4));
    assert!(packets.iter().all(|p| p[13] == 0));
}

#[test]
fn empty_slice_yields_no_datagram() {
    let packets = packetize_slice(1, 2, 0, true, true, &[], MTU_WAN);
    assert!(packets.is_empty());
}

#[test]
fn frame_flags_mark_first_and_last_datagram() {
    let slices = vec![vec![1u8; 5], vec![2u8; 3], vec![3u8; 6]];
    let mtu = VIDEO_HEADER_SIZE + 4;
    let packets = packetize_frame(77, &slices, true, 500, mtu);
    // 2 + 1 + 2 fragments.
    assert_eq!(packets.len(), 5);
    let slice_of: Vec<u8> = packets.iter().map(|p| p[12]).collect();
    assert_eq!(slice_of, vec![0, 0, 1, 2, 2]);
    for (j, packet) in packets.iter().enumerate() {
        let (seq, ts, _, flags, _, _) = header(packet);
        assert_eq!((seq, ts), (77, 500));
        assert_eq!(flags & KEY_FRAME != 0, j == 0);
        assert_eq!(flags & LAST_SLICE != 0, j == 4);
    }
}

#[test]
fn delta_frame_has_no_key_flag() {
    let slices = vec![vec![1u8; 3]];
    let packets = packetize_frame(3, &slices, false, 0, MTU_WAN);
    assert_eq!(packets.len(), 1);
    assert_eq!(packets[0][13], LAST_SLICE);
}

#[test]
fn frame_without_slices_yields_nothing() {
    let packets = packetize_frame(3, &[], true, 0, MTU_WAN);
    assert!(packets.is_empty());
}

#[test]
fn empty_last_slice_leaves_no_last_flag() {
    let slices = vec![vec![1u8; 3], vec![]];
    let packets = packetize_frame(3, &slices, true, 0, MTU_WAN);
    assert_eq!(packets.len(), 1);
    assert_eq!(packets[0][13], KEY_FRAME);
}

#[test]
fn frames_that_can_be_cut() {
    let mtu = VIDEO_HEADER_SIZE + 1;
    assert!(frame_can_be_cut(&[], mtu));
    assert!(frame_can_be_cut(&[vec![]], mtu));
    assert!(frame_can_be_cut(&[vec![0u8; 65535]], mtu));
    assert!(!frame_can_be_cut(&[vec![0u8; 65536]], mtu));
    // Only the last slice matters.
    assert!(frame_can_be_cut(&[vec![0u8; 65536], vec![1u8; 2]], mtu));
}

#[test]
fn frame_slices_cut_one_at_a_time_match_the_frame() {
    let slices = vec![vec![1u8; 5], vec![], vec![3u8; 6]];
    let mtu = VIDEO_HEADER_SIZE + 4;
    let whole = packetize_frame(8, &slices, true, 9, mtu);
    let mut by_slice = Vec::new();
    for i in 0..slices.len() {
        by_slice.extend(packetize_frame_slice(8, &slices, i, true, 9, mtu));
    }
    assert_eq!(by_slice, whole);
    let last = packetize_frame_slice(8, &slices, 2, true, 9, mtu);
    assert_eq!(last.len(), 2);
    assert_eq!(last[1][12], 2);
    assert_eq!(last[1][13], LAST_SLICE);
    assert_eq!(last[0][13], 0);
}
