use icmp_tunnel::checksum::compute_checksum;
use icmp_tunnel::framer::Framer;

#[test]
fn checksum_of_header_only_frame() {
    // Frame [0x08, 0x01, 0, 0]: pair sum 8 + 256, folded 264,
    // complement 0xFEF7.
    let data = vec![0x08u8, 0x01, 0x00, 0x00];
    assert_eq!(compute_checksum(&data), 0xFEF7);
}

#[test]
fn checksum_folds_carries() {
    // 600 bytes of 0xFF: the pair sum is 300 * 0xFFFF, a positive
    // multiple of 0xFFFF, so it folds to 0xFFFF and complements to 0.
    let data = vec![0xFFu8; 600];
    assert_eq!(compute_checksum(&data), 0);
}

#[test]
fn encode_lays_out_header_and_checksum() {
    let framer = Framer::new(1);
    let frame = framer.encode(&vec![]);
    assert_eq!(frame, vec![0x08, 0x01, 0xF7, 0xFE]);
}

#[test]
fn encoded_frame_verifies_to_zero() {
    // The Internet checksum over the emitted bytes, checksum field
    // included, is zero.
    let framer = Framer::new(7);
    let frame = framer.encode(&b"some tunnelled bytes".to_vec());
    assert_eq!(compute_checksum(&frame), 0);
}

#[test]
fn decode_accepts_peer_frame() {
    let sender = Framer::new(1);
    let receiver = Framer::new(2);
    let wire = sender.encode(&b"payload".to_vec());
    let mut d = vec![0u8; 20];
    d.extend_from_slice(&wire);
    let p = receiver.decode(&d).expect("a peer frame is accepted");
    assert_eq!(p, b"payload".to_vec());
}

#[test]
fn decode_rejects_wrong_type() {
    let receiver = Framer::new(2);
    let mut d = vec![0u8; 20];
    d.extend_from_slice(&[0x00, 0x01, 0, 0, 1, 2, 3]);
    assert!(receiver.decode(&d).is_none());
}

#[test]
fn decode_rejects_zero_id() {
    // No signature: ordinary ICMP traffic.
    let receiver = Framer::new(2);
    let mut d = vec![0u8; 20];
    d.extend_from_slice(&[0x08, 0x00, 0, 0, 1, 2, 3]);
    assert!(receiver.decode(&d).is_none());
}

#[test]
fn decode_rejects_own_id() {
    // Our own echo bounced back, whatever the payload holds.
    let receiver = Framer::new(2);
    let mut d = vec![0u8; 20];
    d.extend_from_slice(&[0x08, 0x02, 0xAA, 0xBB, 9, 9, 9, 9]);
    assert!(receiver.decode(&d).is_none());
}

#[test]
fn decode_rejects_short_datagram() {
    let receiver = Framer::new(2);
    assert!(receiver.decode(&vec![0u8; 23]).is_none());
}

#[test]
fn payload_accepted_subtracts_header() {
    assert_eq!(Framer::payload_accepted(3), 0);
    assert_eq!(Framer::payload_accepted(4), 0);
    assert_eq!(Framer::payload_accepted(14), 10);
}
