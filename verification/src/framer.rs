//! The ICMP link layer: wrapping payload bytes in an Echo frame and
//! classifying inbound datagrams.
//!
//! An outbound frame is the 4-byte link header — ICMP type, endpoint id,
//! Internet checksum — followed by the payload.  Inbound raw datagrams
//! carry a 20-byte IP header first; a datagram is accepted only when its
//! ICMP type matches, its id byte is non-zero (a zero id is ordinary ICMP
//! traffic) and differs from our own id (our own packet echoed back).
//! Rejected datagrams are not errors: they are reported as "no message".

use vstd::prelude::*;
use vstd::pervasive::VecAdditionalExecFns;
use crate::checksum::{
    byte_weight, checksum16, compute_checksum, lemma_checksum_completion, lemma_pair_sum_upto_mono,
    pair_sum, pair_sum_upto,
};

verus! {

/// ICMP type byte used in both directions: Echo Request.
pub const ECHO_REQUEST: u8 = 0x08;

/// Length of the IP header the kernel prepends on raw IPv4 sockets.
pub const IP_HEADER_LEN: usize = 20;

/// Length of the link header: type, id, checksum (2 bytes).
pub const PKT_HEADER_LEN: usize = 4;

/// Largest payload the link layer will wrap in one frame.
pub const MAX_LINK_PAYLOAD: usize = 1480;

/// The frame before the checksum is filled in: type, id, two zero
/// checksum bytes, then the payload.
pub open spec fn spec_frame_base(id: u8, payload: Seq<u8>) -> Seq<u8> {
    seq![ECHO_REQUEST, id, 0u8, 0u8] + payload
}

/// The emitted frame: the base frame with the Internet checksum stored
/// low byte first at offsets 2 and 3.
pub open spec fn spec_encode(id: u8, payload: Seq<u8>) -> Seq<u8> {
    let base = spec_frame_base(id, payload);
    let c = checksum16(base);
    base.update(2, (c % 256) as u8).update(3, (c / 256) as u8)
}

/// Whether a raw inbound datagram is accepted by an endpoint with id
/// `id`: long enough, right ICMP type, a non-zero id byte that is not
/// our own.
pub open spec fn spec_accepts(id: u8, datagram: Seq<u8>) -> bool {
    &&& datagram.len() >= IP_HEADER_LEN + PKT_HEADER_LEN
    &&& datagram[IP_HEADER_LEN as int] == ECHO_REQUEST
    &&& datagram[IP_HEADER_LEN + 1] != 0
    &&& datagram[IP_HEADER_LEN + 1] != id
}

/// The user payload of an accepted datagram: everything after the IP
/// header and the link header.
pub open spec fn spec_payload_of(datagram: Seq<u8>) -> Seq<u8> {
    datagram.skip((IP_HEADER_LEN + PKT_HEADER_LEN) as int)
}

/// The link layer's pure half: it owns the endpoint id and builds and
/// classifies frames.  The host owns the raw socket and hands bytes in
/// and out.
pub struct Framer {
    id: u8,
}

impl Framer {
    #[verifier::type_invariant]
    spec fn inv(self) -> bool {
        self.id != 0
    }

    /// The endpoint id this framer stamps on outbound frames.
    pub closed spec fn id_of(self) -> u8 {
        self.id
    }

    pub fn new(id: u8) -> (f: Framer)
        requires
            id != 0,
        ensures
            f.id_of() == id,
    {
        Framer { id }
    }

    pub fn id(&self) -> (r: u8)
        ensures
            r == self.id_of(),
    {
        self.id
    }

    /// Build the emitted frame for `payload`: link header, checksum,
    /// payload.
    pub fn encode(&self, payload: &Vec<u8>) -> (frame: Vec<u8>)
        requires
            payload@.len() <= MAX_LINK_PAYLOAD,
        ensures
            frame@ == spec_encode(self.id_of(), payload@),
            frame@.len() == payload@.len() + PKT_HEADER_LEN,
    {
        let mut frame: Vec<u8> = Vec::new();
        frame.push(ECHO_REQUEST);
        frame.push(self.id);
        frame.push(0);
        frame.push(0);
        let mut i: usize = 0;
        while i < payload.len()
            invariant
                i <= payload@.len(),
                frame@ == spec_frame_base(self.id, payload@.take(i as int)),
            decreases payload@.len() - i,
        {
            frame.push(payload[i]);
            proof {
                assert(spec_frame_base(self.id, payload@.take(i as int)).push(payload@[i as int])
                    =~= spec_frame_base(self.id, payload@.take(i + 1)));
            }
            i = i + 1;
        }
        proof {
            assert(payload@.take(payload@.len() as int) =~= payload@);
        }
        let c = compute_checksum(&frame);
        let lo = (c % 256) as u8;
        let hi = (c / 256) as u8;
        frame.set(2, lo);
        frame.set(3, hi);
        frame
    }

    /// Classify an inbound raw datagram (IP header included).  Returns
    /// the user payload when the datagram belongs to the tunnel, and
    /// nothing when it is ordinary ICMP traffic or our own echo.
    pub fn decode(&self, datagram: &Vec<u8>) -> (r: Option<Vec<u8>>)
        ensures
            match r {
                Some(p) => spec_accepts(self.id_of(), datagram@) && p@ == spec_payload_of(
                    datagram@,
                ),
                None => !spec_accepts(self.id_of(), datagram@),
            },
    {
        if datagram.len() < IP_HEADER_LEN + PKT_HEADER_LEN {
            return None;
        }
        if datagram[IP_HEADER_LEN] != ECHO_REQUEST {
            return None;
        }
        let sig = datagram[IP_HEADER_LEN + 1];
        if sig == 0 {
            return None;
        }
        if sig == self.id {
            return None;
        }
        let start = IP_HEADER_LEN + PKT_HEADER_LEN;
        let mut p: Vec<u8> = Vec::new();
        let mut i: usize = start;
        while i < datagram.len()
            invariant
                start <= i <= datagram@.len(),
                start == IP_HEADER_LEN + PKT_HEADER_LEN,
                p@ == datagram@.subrange(start as int, i as int),
            decreases datagram@.len() - i,
        {
            p.push(datagram[i]);
            proof {
                assert(datagram@.subrange(start as int, i as int).push(datagram@[i as int])
                    =~= datagram@.subrange(start as int, i + 1));
            }
            i = i + 1;
        }
        proof {
            assert(p@ =~= spec_payload_of(datagram@));
        }
        Some(p)
    }

    /// Payload bytes accepted by the link, given the raw byte count a
    /// write reported: the link header does not count.
    pub fn payload_accepted(sent: usize) -> (r: usize)
        ensures
            r == if sent > PKT_HEADER_LEN {
                sent - PKT_HEADER_LEN
            } else {
                0
            },
    {
        if sent > PKT_HEADER_LEN {
            sent - PKT_HEADER_LEN
        } else {
            0
        }
    }
}

/// Checksum round trip: the Internet checksum computed over the bytes of
/// any frame the framer emits — checksum field included — is zero.
pub proof fn lemma_encoded_frame_checksum_zero(id: u8, payload: Seq<u8>)
    ensures
        checksum16(spec_encode(id, payload)) == 0,
{
    let base = spec_frame_base(id, payload);
    assert(base[0] == ECHO_REQUEST);
    assert(byte_weight(0) == 1);
    assert(pair_sum_upto(base, 0) == 0);
    assert(pair_sum_upto(base, 1) == pair_sum_upto(base, 0) + base[0] * byte_weight(0));
    assert(pair_sum_upto(base, 1) == 8);
    lemma_pair_sum_upto_mono(base, 1, base.len() as int);
    assert(pair_sum(base) >= 8);
    lemma_checksum_completion(base, 2);
}

} // verus!
