use icmp_tunnel::framer::Framer;
use icmp_tunnel::odp::{copy_buf, emit_outcome, ODPError, PeerAddr, ODP};

fn addr_a() -> PeerAddr {
    PeerAddr { ip: 0x7F000001, port: 1 }
}

fn addr_b() -> PeerAddr {
    PeerAddr { ip: 0x7F000002, port: 2 }
}

/// Wrap a link payload in its ICMP frame and prepend the 20-byte IP
/// header the kernel would deliver.
fn dgram(endpoint: &ODP, link_payload: &Vec<u8>) -> Vec<u8> {
    let wire = endpoint.encode_link(link_payload);
    let mut d = vec![0u8; 20];
    d.extend_from_slice(&wire);
    d
}

/// Feed one datagram; when a delivery goes pending, confirm its
/// acknowledgement as accepted whole, as a faithful link would.
fn recv_ok(
    ep: &mut ODP,
    d: &Vec<u8>,
    src: PeerAddr,
    buf: &mut Vec<u8>,
) -> (Result<Option<usize>, ODPError>, Vec<Vec<u8>>) {
    let (r, out) = ep.recv(d, src);
    if ep.has_pending_delivery() {
        assert_eq!(r, Ok(None));
        assert_eq!(out.len(), 1);
        let rc = ep.recv_complete(out[0].len(), buf);
        (rc, out)
    } else {
        (r, out)
    }
}

/// Drive one fully successful send on `ep`: prepare, pretend the link
/// accepted the whole frame, commit.  Returns the committed frame.
fn send_ok(ep: &mut ODP, payload: &Vec<u8>) -> Vec<u8> {
    let frame = ep.send(payload).expect("window should not be full");
    assert!(ep.is_pending_snd(&frame));
    let accepted = frame.len();
    let frame2 = frame.clone();
    ep.send_complete(frame, accepted).expect("link accepted the whole frame");
    frame2
}

#[test]
fn it_works() {
}

#[test]
fn single_round_trip() {
    // Peer A (id 1) sends "Hello!\n"; peer B (id 2) receives it.
    let mut a = ODP::new(Framer::new(1), addr_b());
    let mut b = ODP::new(Framer::new(2), addr_a());

    assert_eq!(a.id(), 1);
    assert_eq!(a.get_peer_addr(), addr_b());

    let hello = b"Hello!\n".to_vec();
    let frame = send_ok(&mut a, &hello);
    assert_eq!(a.get_next_seq(), 1);
    assert_eq!(a.unacked_len(), 1);

    let mut buf = vec![0u8; 64];
    let (r, out) = recv_ok(&mut b, &dgram(&a, &frame), addr_a(), &mut buf);
    assert_eq!(r, Ok(Some(7)));
    assert_eq!(&buf[..7], b"Hello!\n");
    assert_eq!(b.get_peer_seq(), 1);
    assert_eq!(out.len(), 1);

    // B's acknowledgement empties A's window.
    let mut buf2 = vec![0u8; 8];
    let (r2, out2) = recv_ok(&mut a, &dgram(&b, &out[0]), addr_b(), &mut buf2);
    assert_eq!(r2, Ok(None));
    assert!(out2.is_empty());
    assert_eq!(a.unacked_len(), 0);
    assert_eq!(a.get_next_seq(), 1);
}

#[test]
fn window_full() {
    // With window 2, the third send fails until an ACK arrives.
    let mut a = ODP::new(Framer::new(1), addr_b());
    let mut b = ODP::new(Framer::new(2), addr_a());

    let frame0 = send_ok(&mut a, &b"one".to_vec());
    send_ok(&mut a, &b"two".to_vec());
    assert_eq!(a.unacked_len(), 2);
    assert_eq!(a.send(&b"three".to_vec()), Err(ODPError::RemoteWindowFull));

    // B receives seq 0 and acknowledges it; that ACK frees one slot.
    let mut buf = vec![0u8; 16];
    let (r, out) = recv_ok(&mut b, &dgram(&a, &frame0), addr_a(), &mut buf);
    assert_eq!(r, Ok(Some(3)));
    let (r2, _) = recv_ok(&mut a, &dgram(&b, &out[0]), addr_b(), &mut buf);
    assert_eq!(r2, Ok(None));
    assert_eq!(a.unacked_len(), 1);
    let third = a.send(&b"three".to_vec());
    assert!(third.is_ok());
}

#[test]
fn lost_snd_recovered_by_agn() {
    // A sends seqs 0 and 1; seq 0 is lost; B's AGN recovers both.
    let mut a = ODP::new(Framer::new(1), addr_b());
    let mut b = ODP::new(Framer::new(2), addr_a());

    let _frame0 = send_ok(&mut a, &b"first".to_vec());
    let frame1 = send_ok(&mut a, &b"second".to_vec());

    // Seq 0 is dropped on the wire; B sees seq 1 first and asks again.
    let mut buf = vec![0u8; 16];
    let (r, out) = recv_ok(&mut b, &dgram(&a, &frame1), addr_a(), &mut buf);
    assert_eq!(r, Ok(None));
    assert_eq!(b.get_peer_seq(), 0);
    assert_eq!(out.len(), 1);
    assert_eq!(out[0][0], 0x47); // an AGN frame

    // A receives the AGN and retransmits everything still buffered.
    let (r2, resent) = recv_ok(&mut a, &dgram(&b, &out[0]), addr_b(), &mut buf);
    assert_eq!(r2, Ok(None));
    assert_eq!(resent.len(), 2);
    assert_eq!(a.unacked_len(), 2);

    // B now receives seq 0 and seq 1 in order.
    let (r3, _) = recv_ok(&mut b, &dgram(&a, &resent[0]), addr_a(), &mut buf);
    assert_eq!(r3, Ok(Some(5)));
    assert_eq!(&buf[..5], b"first");
    assert_eq!(b.get_peer_seq(), 1);
    let (r4, _) = recv_ok(&mut b, &dgram(&a, &resent[1]), addr_a(), &mut buf);
    assert_eq!(r4, Ok(Some(6)));
    assert_eq!(&buf[..6], b"second");
    assert_eq!(b.get_peer_seq(), 2);
}

#[test]
fn duplicate_snd_reacked_not_redelivered() {
    // B already delivered seq 0; the duplicate only re-arms the ACK.
    let mut a = ODP::new(Framer::new(1), addr_b());
    let mut b = ODP::new(Framer::new(2), addr_a());

    let frame0 = send_ok(&mut a, &b"payload".to_vec());
    let mut buf = vec![0u8; 16];
    let (r, _) = recv_ok(&mut b, &dgram(&a, &frame0), addr_a(), &mut buf);
    assert_eq!(r, Ok(Some(7)));
    assert_eq!(b.get_peer_seq(), 1);

    // The ACK was lost; A retransmits the same frame.
    let mut buf2 = vec![0u8; 16];
    let (r2, out2) = recv_ok(&mut b, &dgram(&a, &frame0), addr_a(), &mut buf2);
    assert_eq!(r2, Ok(None));
    assert_eq!(buf2, vec![0u8; 16]); // nothing delivered again
    assert_eq!(b.get_peer_seq(), 1);
    assert_eq!(out2.len(), 1);
    assert_eq!(out2[0][0], 0x41); // an ACK frame
    assert_eq!(out2[0][2], 1); // carrying sequence number 1
}

#[test]
fn foreign_icmp_ignored() {
    // An unrelated ping (id byte zero) between two legitimate frames.
    let mut a = ODP::new(Framer::new(1), addr_b());
    let mut b = ODP::new(Framer::new(2), addr_a());

    let frame0 = send_ok(&mut a, &b"one".to_vec());
    let frame1 = send_ok(&mut a, &b"two".to_vec());

    let mut buf = vec![0u8; 16];
    let (r, _) = recv_ok(&mut b, &dgram(&a, &frame0), addr_a(), &mut buf);
    assert_eq!(r, Ok(Some(3)));

    // A plain Echo Request from some third party: type 8, id byte 0.
    let mut ping = vec![0u8; 20];
    ping.extend_from_slice(&[0x08, 0x00, 0xAB, 0xCD, 1, 2, 3, 4]);
    let (rp, outp) = recv_ok(&mut b, &ping, addr_a(), &mut buf);
    assert_eq!(rp, Ok(None));
    assert!(outp.is_empty());
    assert_eq!(b.get_peer_seq(), 1);

    // The next legitimate frame is processed normally.
    let (r2, _) = recv_ok(&mut b, &dgram(&a, &frame1), addr_a(), &mut buf);
    assert_eq!(r2, Ok(Some(3)));
    assert_eq!(&buf[..3], b"two");
}

#[test]
fn own_echo_ignored() {
    // A's own Echo Request reflected back to A is dropped.
    let mut a = ODP::new(Framer::new(1), addr_b());
    let frame0 = send_ok(&mut a, &b"loop".to_vec());
    let reflected = dgram(&a, &frame0); // carries A's own id byte

    let mut buf = vec![0u8; 16];
    let (r, out) = recv_ok(&mut a, &reflected, addr_b(), &mut buf);
    assert_eq!(r, Ok(None));
    assert!(out.is_empty());
    assert_eq!(a.unacked_len(), 1);
    assert_eq!(a.get_peer_seq(), 0);
}

#[test]
fn wrong_source_address_ignored() {
    let mut a = ODP::new(Framer::new(1), addr_b());
    let mut b = ODP::new(Framer::new(2), addr_a());
    let frame0 = send_ok(&mut a, &b"hi".to_vec());
    let mut buf = vec![0u8; 16];
    let stranger = PeerAddr { ip: 0x0A000001, port: 9 };
    let (r, out) = recv_ok(&mut b, &dgram(&a, &frame0), stranger, &mut buf);
    assert_eq!(r, Ok(None));
    assert!(out.is_empty());
    assert_eq!(b.get_peer_seq(), 0);
}

#[test]
fn out_of_order_permutation_delivered_in_order() {
    // SNDs presented as 2, 0, 1; the AGN round brings them in order.
    let mut a = ODP::new(Framer::new(1), addr_b());
    let mut b = ODP::new(Framer::new(2), addr_a());

    // Window is 2: feed the two in-flight frames out of order.
    let f0 = send_ok(&mut a, &b"p0".to_vec());
    let f1 = send_ok(&mut a, &b"p1".to_vec());
    let frames: Vec<Vec<u8>> = vec![f0, f1];

    let mut buf = vec![0u8; 16];
    let mut delivered: Vec<Vec<u8>> = Vec::new();

    // Frame 1 arrives first: dropped, AGN(0, 1) goes back.
    let (r, out) = recv_ok(&mut b, &dgram(&a, &frames[1]), addr_a(), &mut buf);
    assert_eq!(r, Ok(None));
    assert_eq!(out[0][0], 0x47);

    // A services the resend request.
    let (_, resent) = recv_ok(&mut a, &dgram(&b, &out[0]), addr_b(), &mut buf);
    assert_eq!(resent.len(), 2);

    for f in &resent {
        let mut rbuf = vec![0u8; 16];
        let (rr, _) = recv_ok(&mut b, &dgram(&a, f), addr_a(), &mut rbuf);
        if let Ok(Some(n)) = rr {
            delivered.push(rbuf[..n].to_vec());
        }
    }
    assert_eq!(delivered, vec![b"p0".to_vec(), b"p1".to_vec()]);
    assert_eq!(b.get_peer_seq(), 2);
}

#[test]
fn short_frame_is_protocol_error() {
    let mut b = ODP::new(Framer::new(2), addr_a());
    let a = ODP::new(Framer::new(1), addr_b());
    let mut buf = vec![0u8; 16];
    let (r, out) = recv_ok(&mut b, &dgram(&a, &vec![0x53, 0, 1]), addr_a(), &mut buf);
    assert_eq!(r, Err(ODPError::ProtocolError));
    assert!(out.is_empty());
}

#[test]
fn unknown_frame_type_is_protocol_error() {
    let mut b = ODP::new(Framer::new(2), addr_a());
    let a = ODP::new(Framer::new(1), addr_b());
    let mut frame = vec![0x58u8, 0]; // unknown type byte
    frame.extend_from_slice(&0u64.to_le_bytes());
    let mut buf = vec![0u8; 16];
    let (r, _) = recv_ok(&mut b, &dgram(&a, &frame), addr_a(), &mut buf);
    assert_eq!(r, Err(ODPError::ProtocolError));
}

#[test]
fn agn_with_from_above_to_is_protocol_error() {
    let mut b = ODP::new(Framer::new(2), addr_a());
    let a = ODP::new(Framer::new(1), addr_b());
    let mut frame = vec![0x47u8, 0];
    frame.extend_from_slice(&5u64.to_le_bytes());
    frame.extend_from_slice(&3u64.to_le_bytes());
    let mut buf = vec![0u8; 16];
    let (r, _) = recv_ok(&mut b, &dgram(&a, &frame), addr_a(), &mut buf);
    assert_eq!(r, Err(ODPError::ProtocolError));
}

#[test]
fn truncated_agn_is_protocol_error() {
    let mut b = ODP::new(Framer::new(2), addr_a());
    let a = ODP::new(Framer::new(1), addr_b());
    let mut frame = vec![0x47u8, 0];
    frame.extend_from_slice(&0u64.to_le_bytes()); // only 10 bytes: no `to`
    let mut buf = vec![0u8; 16];
    let (r, _) = recv_ok(&mut b, &dgram(&a, &frame), addr_a(), &mut buf);
    assert_eq!(r, Err(ODPError::ProtocolError));
}

#[test]
fn short_link_write_is_snd_error() {
    let mut a = ODP::new(Framer::new(1), addr_b());
    let frame = a.send(&b"data".to_vec()).unwrap();
    assert!(a.is_pending_snd(&frame));
    // The link accepted fewer bytes than the frame header.
    let r = a.send_complete(frame, 5);
    assert_eq!(r, Err(ODPError::SndError));
    assert_eq!(a.get_next_seq(), 0);
    assert_eq!(a.unacked_len(), 0);
}

#[test]
fn emit_outcome_checks_control_frames() {
    let ack = vec![0x41u8, 0, 0, 0, 0, 0, 0, 0, 0, 0];
    assert_eq!(emit_outcome(&ack, 10), Ok(()));
    assert_eq!(emit_outcome(&ack, 9), Err(ODPError::ProtocolError));
    let mut agn = vec![0x47u8, 0];
    agn.extend_from_slice(&0u64.to_le_bytes());
    agn.extend_from_slice(&1u64.to_le_bytes());
    assert_eq!(emit_outcome(&agn, 18), Ok(()));
    assert_eq!(emit_outcome(&agn, 17), Err(ODPError::Unknown));
    let snd = vec![0x53u8, 0, 0, 0, 0, 0, 0, 0, 0, 0];
    assert_eq!(emit_outcome(&snd, 3), Ok(()));
}

#[test]
fn copy_buf_truncates_to_destination() {
    let src = vec![1u8, 2, 3, 4, 5];
    let mut dst = vec![0u8; 3];
    assert_eq!(copy_buf(&mut dst, &src), 3);
    assert_eq!(dst, vec![1, 2, 3]);

    let mut wide = vec![9u8; 8];
    assert_eq!(copy_buf(&mut wide, &src), 5);
    assert_eq!(wide, vec![1, 2, 3, 4, 5, 9, 9, 9]);
}

#[test]
fn delivery_truncates_to_buffer() {
    let mut a = ODP::new(Framer::new(1), addr_b());
    let mut b = ODP::new(Framer::new(2), addr_a());
    let frame = send_ok(&mut a, &b"seven!!".to_vec());
    let mut small = vec![0u8; 3];
    let (r, _) = recv_ok(&mut b, &dgram(&a, &frame), addr_a(), &mut small);
    assert_eq!(r, Ok(Some(3)));
    assert_eq!(small, b"sev".to_vec());
    // The packet still counts as delivered in full.
    assert_eq!(b.get_peer_seq(), 1);
}

#[test]
fn oversized_payload_is_chunked() {
    // One SND carries at most 1470 payload bytes; the rest is left to
    // later sends and the return value reports what was accepted.
    let mut a = ODP::new(Framer::new(1), addr_b());
    let big = vec![0x5Au8; 2000];
    let frame = a.send(&big).unwrap();
    assert_eq!(frame.len(), 1480);
    assert!(a.is_pending_snd(&frame));
    let accepted = frame.len();
    let n = a.send_complete(frame, accepted).unwrap();
    assert_eq!(n, 1470);
}

#[test]
fn failed_ack_write_withholds_delivery() {
    let mut a = ODP::new(Framer::new(1), addr_b());
    let mut b = ODP::new(Framer::new(2), addr_a());
    let frame0 = send_ok(&mut a, &b"payload".to_vec());
    let d = dgram(&a, &frame0);

    let (r, out) = b.recv(&d, addr_a());
    assert_eq!(r, Ok(None));
    assert!(b.has_pending_delivery());
    assert_eq!(out.len(), 1);
    assert_eq!(out[0][0], 0x41); // the acknowledgement to emit

    // The link accepted only part of the acknowledgement: nothing is
    // delivered and the expectation stands.
    let mut buf = vec![0u8; 16];
    let rc = b.recv_complete(9, &mut buf);
    assert_eq!(rc, Err(ODPError::ProtocolError));
    assert_eq!(b.get_peer_seq(), 0);
    assert_eq!(buf, vec![0u8; 16]);
    assert!(!b.has_pending_delivery());

    // The retransmitted frame is still in order and now delivers.
    let (r2, out2) = b.recv(&d, addr_a());
    assert_eq!(r2, Ok(None));
    let rc2 = b.recv_complete(out2[0].len(), &mut buf);
    assert_eq!(rc2, Ok(Some(7)));
    assert_eq!(&buf[..7], b"payload");
    assert_eq!(b.get_peer_seq(), 1);
}

#[test]
fn aborted_ack_write_withholds_delivery() {
    let mut a = ODP::new(Framer::new(1), addr_b());
    let mut b = ODP::new(Framer::new(2), addr_a());
    let frame0 = send_ok(&mut a, &b"bytes".to_vec());
    let d = dgram(&a, &frame0);

    let (r, _) = b.recv(&d, addr_a());
    assert_eq!(r, Ok(None));
    assert!(b.has_pending_delivery());

    // The acknowledgement never reached the link at all.
    b.recv_abort();
    assert!(!b.has_pending_delivery());
    assert_eq!(b.get_peer_seq(), 0);

    // The peer's retransmission delivers.
    let mut buf = vec![0u8; 16];
    let (r2, _) = recv_ok(&mut b, &d, addr_a(), &mut buf);
    assert_eq!(r2, Ok(Some(5)));
    assert_eq!(&buf[..5], b"bytes");
    assert_eq!(b.get_peer_seq(), 1);
}
