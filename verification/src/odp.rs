//! ODP, the reliable-delivery layer: sequence numbers, cumulative
//! acknowledgements, explicit resend requests and a bounded in-flight
//! window on top of the ICMP link layer.
//!
//! The endpoint is sans-io and commits nothing the wire has not
//! confirmed: `send` prepares a SND frame and `send_complete` commits
//! it once the host has written it out; `recv` consumes one raw
//! datagram and returns the frames to emit back to the peer, and an
//! in-order delivery stays staged until `recv_complete` learns that
//! its acknowledgement was accepted (or `recv_abort` drops it).  The
//! host performs every socket call and feeds the results back in.

use vstd::prelude::*;
use vstd::bytes::{
    lemma_auto_spec_u64_to_from_le_bytes, spec_u64_from_le_bytes, spec_u64_to_le_bytes,
    u64_from_le_bytes, u64_to_le_bytes,
};
use vstd::slice::slice_subrange;
use vstd::pervasive::VecAdditionalExecFns;
use crate::framer::{
    spec_accepts, spec_encode, spec_payload_of, Framer, MAX_LINK_PAYLOAD, PKT_HEADER_LEN,
};

verus! {

/// Frame type byte of a data frame.
pub const TYPE_SND: u8 = 0x53;

/// Frame type byte of a cumulative acknowledgement.
pub const TYPE_ACK: u8 = 0x41;

/// Frame type byte of a resend request.
pub const TYPE_AGN: u8 = 0x47;

/// Length of the fixed frame header: type, reserved, sequence number.
pub const PKT_HDR_SIZE: usize = 10;

/// Largest whole frame the protocol will hand to the link.
pub const PKT_MAX_SIZE: usize = 1480;

/// Maximum number of in-flight unacknowledged SND frames.
pub const WINDOW_SIZE: usize = 2;

/// A sequence number.
pub type Seqnum = u64;

/// Errors of the link layer, as the host reports them: the raw OS error
/// number of a failed socket call, or an unclassified failure.
#[derive(Debug, Clone, Copy, PartialEq, Eq, Structural)]
pub enum ICError {
    Nix(i32),
    Unknown,
}

/// Errors of the reliable-delivery layer.
#[derive(Debug, Clone, Copy, PartialEq, Eq, Structural)]
pub enum ODPError {
    /// The link layer failed; the payload is the underlying cause.
    ICError(ICError),
    /// The peer sent a frame that violates the protocol's structure.
    ProtocolError,
    /// An acknowledgement could not be produced.
    AckError,
    /// The link accepted fewer bytes than the frame header: the frame
    /// never reached the wire intact.
    SndError,
    /// The send window is full; retryable.
    RemoteWindowFull,
    /// Catch-all for invariant violations.
    Unknown,
}

/// The peer's IPv4 address and port, as plain values.
#[derive(Debug, Clone, Copy, PartialEq, Eq, Structural)]
pub struct PeerAddr {
    pub ip: u32,
    pub port: u16,
}

/// The bytes of a SND frame: type, reserved zero, little-endian
/// sequence number, payload.
pub open spec fn spec_snd_frame(seq: Seqnum, payload: Seq<u8>) -> Seq<u8> {
    seq![TYPE_SND, 0u8] + spec_u64_to_le_bytes(seq) + payload
}

/// The bytes of an ACK frame.
pub open spec fn spec_ack_frame(seq: Seqnum) -> Seq<u8> {
    seq![TYPE_ACK, 0u8] + spec_u64_to_le_bytes(seq)
}

/// The bytes of an AGN frame requesting a resend of `[from, to]`.
pub open spec fn spec_agn_frame(from: Seqnum, to: Seqnum) -> Seq<u8> {
    seq![TYPE_AGN, 0u8] + spec_u64_to_le_bytes(from) + spec_u64_to_le_bytes(to)
}

/// The chunk of a payload that one SND frame carries: everything, or
/// the first `PKT_MAX_SIZE - PKT_HDR_SIZE` bytes when it is longer.
pub open spec fn spec_snd_chunk(payload: Seq<u8>) -> Seq<u8> {
    if payload.len() > PKT_MAX_SIZE - PKT_HDR_SIZE {
        payload.take(PKT_MAX_SIZE - PKT_HDR_SIZE)
    } else {
        payload
    }
}

/// The larger of two sequence numbers.
pub open spec fn seq_max(a: Seqnum, b: Seqnum) -> Seqnum {
    if a >= b {
        a
    } else {
        b
    }
}

/// Append `src[from..to]` to `dst`.
fn push_byte_range(dst: &mut Vec<u8>, src: &Vec<u8>, from: usize, to: usize)
    requires
        from <= to <= src@.len(),
    ensures
        final(dst)@ == old(dst)@ + src@.subrange(from as int, to as int),
{
    let mut i: usize = from;
    while i < to
        invariant
            from <= i <= to <= src@.len(),
            dst@ == old(dst)@ + src@.subrange(from as int, i as int),
        decreases to - i,
    {
        dst.push(src[i]);
        proof {
            assert((old(dst)@ + src@.subrange(from as int, i as int)).push(src@[i as int])
                =~= old(dst)@ + src@.subrange(from as int, i + 1));
        }
        i = i + 1;
    }
    proof {
        assert(dst@ =~= old(dst)@ + src@.subrange(from as int, to as int));
    }
}

/// Read the little-endian sequence number stored at `off`.
fn read_seq_at(v: &Vec<u8>, off: usize) -> (x: u64)
    requires
        off + 8 <= v@.len(),
    ensures
        x == spec_u64_from_le_bytes(v@.subrange(off as int, off as int + 8)),
{
    let len = v.len();
    assert(off + 8 <= len);
    let s = slice_subrange(v.as_slice(), off, off + 8);
    u64_from_le_bytes(s)
}

/// Build an ACK frame.
fn make_ack_frame(seq: Seqnum) -> (f: Vec<u8>)
    ensures
        f@ == spec_ack_frame(seq),
        f@.len() == PKT_HDR_SIZE,
{
    let mut f: Vec<u8> = Vec::new();
    f.push(TYPE_ACK);
    f.push(0);
    let mut b = u64_to_le_bytes(seq);
    f.append(&mut b);
    proof {
        assert(f@ =~= spec_ack_frame(seq));
    }
    f
}

/// Build an AGN frame requesting `[from, to]`.
fn make_agn_frame(from: Seqnum, to: Seqnum) -> (f: Vec<u8>)
    ensures
        f@ == spec_agn_frame(from, to),
        f@.len() == PKT_HDR_SIZE + 8,
{
    let mut f: Vec<u8> = Vec::new();
    f.push(TYPE_AGN);
    f.push(0);
    let mut b = u64_to_le_bytes(from);
    f.append(&mut b);
    let mut b2 = u64_to_le_bytes(to);
    f.append(&mut b2);
    proof {
        assert(f@ =~= spec_agn_frame(from, to));
    }
    f
}

/// Build the SND frame carrying `seq` and the chunk of `payload` that
/// fits.
fn make_snd_frame(seq: Seqnum, payload: &Vec<u8>) -> (f: Vec<u8>)
    ensures
        f@ == spec_snd_frame(seq, spec_snd_chunk(payload@)),
        PKT_HDR_SIZE <= f@.len() <= PKT_MAX_SIZE,
        f@.len() == PKT_HDR_SIZE + spec_snd_chunk(payload@).len(),
{
    let mut f: Vec<u8> = Vec::new();
    f.push(TYPE_SND);
    f.push(0);
    let mut b = u64_to_le_bytes(seq);
    f.append(&mut b);
    let to_write: usize = if payload.len() > PKT_MAX_SIZE - PKT_HDR_SIZE {
        PKT_MAX_SIZE - PKT_HDR_SIZE
    } else {
        payload.len()
    };
    push_byte_range(&mut f, payload, 0, to_write);
    proof {
        assert(payload@.subrange(0, to_write as int) =~= spec_snd_chunk(payload@));
        assert(f@ =~= spec_snd_frame(seq, spec_snd_chunk(payload@)));
    }
    f
}

/// Copy as much of `src` as fits into `dst` without growing it; the
/// number of bytes copied is the smaller of the two lengths.
pub fn copy_buf(dst: &mut Vec<u8>, src: &Vec<u8>) -> (n: usize)
    ensures
        n == if old(dst)@.len() <= src@.len() {
            old(dst)@.len()
        } else {
            src@.len()
        },
        final(dst)@.len() == old(dst)@.len(),
        final(dst)@ == src@.take(n as int) + old(dst)@.skip(n as int),
{
    let copylen: usize = if dst.len() <= src.len() {
        dst.len()
    } else {
        src.len()
    };
    proof {
        assert(dst@ =~= src@.take(0) + old(dst)@.skip(0));
    }
    let mut i: usize = 0;
    while i < copylen
        invariant
            i <= copylen,
            copylen <= old(dst)@.len(),
            copylen <= src@.len(),
            dst@.len() == old(dst)@.len(),
            dst@ == src@.take(i as int) + old(dst)@.skip(i as int),
        decreases copylen - i,
    {
        dst.set(i, src[i]);
        proof {
            assert(dst@ =~= src@.take(i + 1) + old(dst)@.skip(i + 1));
        }
        i = i + 1;
    }
    proof {
        assert(dst@ =~= src@.take(copylen as int) + old(dst)@.skip(copylen as int));
    }
    copylen
}


/// One endpoint of the reliable-delivery protocol.
pub struct ODP {
    framer: Framer,
    peer: PeerAddr,
    seqnum: Seqnum,
    peer_seqnum: Seqnum,
    ack_wait: Vec<(Seqnum, Vec<u8>)>,
    pending: Option<Vec<u8>>,
}

impl ODP {
    #[verifier::type_invariant]
    spec fn inv(self) -> bool {
        &&& (self.pending is Some ==> self.peer_seqnum < u64::MAX)
        &&& self.ack_wait@.len() <= WINDOW_SIZE
        &&& self.ack_wait@.len() <= self.seqnum
        &&& forall|i: int|
            0 <= i < self.ack_wait@.len() ==> (#[trigger] self.ack_wait@[i]).0 == self.seqnum
                - self.ack_wait@.len() + i
        &&& forall|i: int|
            0 <= i < self.ack_wait@.len() ==> {
                let f = (#[trigger] self.ack_wait@[i]).1@;
                &&& PKT_HDR_SIZE <= f.len() <= PKT_MAX_SIZE
                &&& f == spec_snd_frame(self.ack_wait@[i].0, f.skip(PKT_HDR_SIZE as int))
            }
    }

    /// The in-flight window: each buffered sequence number with the
    /// retained bytes of its SND frame.
    pub closed spec fn unacked(self) -> Seq<(Seqnum, Seq<u8>)> {
        self.ack_wait@.map_values(|e: (Seqnum, Vec<u8>)| (e.0, e.1@))
    }

    /// The sequence number the next outbound SND will carry.
    pub closed spec fn next_seq(self) -> Seqnum {
        self.seqnum
    }

    /// The next sequence number expected from the peer.
    pub closed spec fn peer_seq(self) -> Seqnum {
        self.peer_seqnum
    }

    /// The configured peer address.
    pub closed spec fn peer_addr(self) -> PeerAddr {
        self.peer
    }

    /// The local endpoint id stamped on every outbound frame.
    pub closed spec fn endpoint_id(self) -> u8 {
        self.framer.id_of()
    }

    /// Whether an in-order frame awaits confirmation of its
    /// acknowledgement before it is delivered.
    pub closed spec fn has_pending(self) -> bool {
        self.pending is Some
    }

    /// The payload of the frame awaiting confirmation; empty when
    /// nothing is pending.
    pub closed spec fn pending_payload(self) -> Seq<u8> {
        match self.pending {
            Option::Some(v) => v@,
            Option::None => Seq::<u8>::empty(),
        }
    }

    /// What every reachable endpoint state satisfies: at most
    /// WINDOW_SIZE frames in flight, strictly sorted by sequence
    /// number with no gaps, every buffered sequence number below
    /// next_seq.
    pub open spec fn window_wf(self) -> bool {
        &&& self.unacked().len() <= WINDOW_SIZE
        &&& forall|i: int, j: int|
            0 <= i < j < self.unacked().len() ==> (#[trigger] self.unacked()[i]).0 < (
            #[trigger] self.unacked()[j]).0
        &&& forall|i: int|
            0 <= i < self.unacked().len() - 1 ==> (#[trigger] self.unacked()[i]).0 + 1
                == self.unacked()[i + 1].0
        &&& forall|i: int|
            0 <= i < self.unacked().len() ==> (#[trigger] self.unacked()[i]).0 < self.next_seq()
    }

    proof fn lemma_inv_window_wf(self)
        requires
            self.inv(),
        ensures
            self.window_wf(),
    {
        assert(self.unacked().len() == self.ack_wait@.len());
        assert forall|i: int| 0 <= i < self.unacked().len() implies (
        #[trigger] self.unacked()[i]).0 < self.next_seq() by {
            assert(self.unacked()[i].0 == self.ack_wait@[i].0);
        }
        assert forall|i: int, j: int| 0 <= i < j < self.unacked().len() implies (
        #[trigger] self.unacked()[i]).0 < (#[trigger] self.unacked()[j]).0 by {
            assert(self.unacked()[i].0 == self.ack_wait@[i].0);
            assert(self.unacked()[j].0 == self.ack_wait@[j].0);
        }
        assert forall|i: int| 0 <= i < self.unacked().len() - 1 implies (
        #[trigger] self.unacked()[i]).0 + 1 == self.unacked()[i + 1].0 by {
            assert(self.unacked()[i].0 == self.ack_wait@[i].0);
            assert(self.unacked()[i + 1].0 == self.ack_wait@[i + 1].0);
        }
    }

    pub fn new(framer: Framer, peer: PeerAddr) -> (odp: ODP)
        ensures
            odp.next_seq() == 0,
            odp.peer_seq() == 0,
            odp.unacked() == Seq::<(Seqnum, Seq<u8>)>::empty(),
            odp.peer_addr() == peer,
            odp.endpoint_id() == framer.id_of(),
            !odp.has_pending(),
            odp.window_wf(),
    {
        let odp = ODP { framer, peer, seqnum: 0, peer_seqnum: 0, ack_wait: Vec::new(), pending: None };
        proof {
            assert(odp.unacked() =~= Seq::<(Seqnum, Seq<u8>)>::empty());
            odp.lemma_inv_window_wf();
        }
        odp
    }

    /// Prepare the SND frame for `buf` without committing it: the
    /// frame carries next_seq and as much of `buf` as fits in one
    /// frame.  Fails with RemoteWindowFull when WINDOW_SIZE frames are
    /// already awaiting acknowledgement.
    pub fn send(&self, buf: &Vec<u8>) -> (r: Result<Vec<u8>, ODPError>)
        ensures
            match r {
                Ok(frame) => {
                    &&& self.unacked().len() < WINDOW_SIZE
                    &&& frame@ == spec_snd_frame(self.next_seq(), spec_snd_chunk(buf@))
                    &&& PKT_HDR_SIZE <= frame@.len() <= PKT_MAX_SIZE
                },
                Err(e) => {
                    &&& e == ODPError::RemoteWindowFull
                    &&& self.unacked().len() >= WINDOW_SIZE
                },
            },
    {
        proof {
            assert(self.unacked().len() == self.ack_wait@.len());
        }
        if self.ack_wait.len() >= WINDOW_SIZE {
            return Err(ODPError::RemoteWindowFull);
        }
        Ok(make_snd_frame(self.seqnum, buf))
    }

    /// Commit a frame prepared by `send` after the host wrote it out
    /// and the link reported `accepted` payload bytes.  On success the
    /// frame joins the window and next_seq advances by one; a write
    /// shorter than the frame header is SndError and changes nothing.
    pub fn send_complete(&mut self, frame: Vec<u8>, accepted: usize) -> (r: Result<
        usize,
        ODPError,
    >)
        requires
            old(self).unacked().len() < WINDOW_SIZE,
            old(self).next_seq() < u64::MAX,
            PKT_HDR_SIZE <= frame@.len() <= PKT_MAX_SIZE,
            frame@ == spec_snd_frame(old(self).next_seq(), frame@.skip(PKT_HDR_SIZE as int)),
        ensures
            final(self).peer_addr() == old(self).peer_addr(),
            final(self).endpoint_id() == old(self).endpoint_id(),
            final(self).peer_seq() == old(self).peer_seq(),
            final(self).window_wf(),
            match r {
                Ok(n) => {
                    &&& accepted >= PKT_HDR_SIZE
                    &&& n == accepted - PKT_HDR_SIZE
                    &&& final(self).next_seq() == old(self).next_seq() + 1
                    &&& final(self).unacked() == old(self).unacked().push(
                        (old(self).next_seq(), frame@),
                    )
                },
                Err(e) => {
                    &&& e == ODPError::SndError
                    &&& accepted < PKT_HDR_SIZE
                    &&& *final(self) == *old(self)
                },
            },
    {
        proof {
            use_type_invariant(&*self);
            assert(self.unacked().len() == self.ack_wait@.len());
        }
        if accepted < PKT_HDR_SIZE {
            proof {
                self.lemma_inv_window_wf();
            }
            return Err(ODPError::SndError);
        }
        let seq = self.seqnum;
        let ghost old_wait = self.ack_wait@;
        let mut w: Vec<(Seqnum, Vec<u8>)> = Vec::new();
        std::mem::swap(&mut w, &mut self.ack_wait);
        self.seqnum = seq + 1;
        w.push((seq, frame));
        proof {
            assert forall|i: int| 0 <= i < w@.len() implies (#[trigger] w@[i]).0 == self.seqnum
                - w@.len() + i by {
                if i < old_wait.len() {
                    assert(w@[i] == old_wait[i]);
                }
            }
        }
        self.ack_wait = w;
        proof {
            use_type_invariant(&*self);
            self.lemma_inv_window_wf();
            assert(self.unacked() =~= old(self).unacked().push((seq, frame@)));
        }
        Ok(accepted - PKT_HDR_SIZE)
    }

    /// Number of frames currently awaiting acknowledgement.
    pub fn unacked_len(&self) -> (n: usize)
        ensures
            n == self.unacked().len(),
    {
        proof {
            assert(self.unacked().len() == self.ack_wait@.len());
        }
        self.ack_wait.len()
    }

    /// The sequence number the next outbound SND will carry.
    pub fn get_next_seq(&self) -> (s: Seqnum)
        ensures
            s == self.next_seq(),
    {
        self.seqnum
    }

    /// The next sequence number expected from the peer.
    pub fn get_peer_seq(&self) -> (s: Seqnum)
        ensures
            s == self.peer_seq(),
    {
        self.peer_seqnum
    }

    /// The configured peer address.
    pub fn get_peer_addr(&self) -> (p: PeerAddr)
        ensures
            p == self.peer_addr(),
    {
        self.peer
    }

    /// The local endpoint id.
    pub fn id(&self) -> (r: u8)
        ensures
            r == self.endpoint_id(),
    {
        self.framer.id()
    }

    /// Whether `frame` is a well-formed SND frame carrying exactly the
    /// sequence number the next `send_complete` expects.  The host
    /// checks this before committing a frame.
    pub fn is_pending_snd(&self, frame: &Vec<u8>) -> (b: bool)
        ensures
            b == (PKT_HDR_SIZE <= frame@.len() <= PKT_MAX_SIZE && frame@ == spec_snd_frame(
                self.next_seq(),
                frame@.skip(PKT_HDR_SIZE as int),
            )),
    {
        proof {
            lemma_auto_spec_u64_to_from_le_bytes();
        }
        if frame.len() < PKT_HDR_SIZE || frame.len() > PKT_MAX_SIZE {
            return false;
        }
        if frame[0] != TYPE_SND || frame[1] != 0 {
            proof {
                assert(spec_snd_frame(self.next_seq(), frame@.skip(PKT_HDR_SIZE as int))[0]
                    == TYPE_SND);
                assert(spec_snd_frame(self.next_seq(), frame@.skip(PKT_HDR_SIZE as int))[1] == 0);
            }
            return false;
        }
        let s = read_seq_at(frame, 2);
        if s != self.seqnum {
            proof {
                if frame@ == spec_snd_frame(self.next_seq(), frame@.skip(PKT_HDR_SIZE as int)) {
                    assert(frame@.subrange(2, 10) =~= spec_u64_to_le_bytes(self.next_seq()));
                }
            }
            return false;
        }
        proof {
            assert(frame@.subrange(2, 10).len() == 8);
            assert(spec_u64_to_le_bytes(s) =~= frame@.subrange(2, 10));
            assert(frame@ =~= spec_snd_frame(s, frame@.skip(PKT_HDR_SIZE as int)));
        }
        true
    }

    fn handle_ack_(&mut self, ack: &Vec<u8>) -> (r: Result<Option<usize>, ODPError>)
        requires
            ack@.len() >= PKT_HDR_SIZE,
            !old(self).has_pending(),
        ensures
            r == Ok::<Option<usize>, ODPError>(None),
            ({
                let s = spec_u64_from_le_bytes(ack@.subrange(2, 10));
                &&& final(self).unacked() == spec_ack_keep(old(self).unacked(), s)
                &&& final(self).peer_seq() == seq_max(old(self).peer_seq(), s)
                &&& final(self).next_seq() == old(self).next_seq()
                &&& final(self).peer_addr() == old(self).peer_addr()
                &&& final(self).endpoint_id() == old(self).endpoint_id()
                &&& final(self).has_pending() == old(self).has_pending()
            }),
    {
        proof {
            use_type_invariant(&*self);
        }
        let ghost pre = *self;
        let s = read_seq_at(ack, 2);
        let mut w: Vec<(Seqnum, Vec<u8>)> = Vec::new();
        std::mem::swap(&mut w, &mut self.ack_wait);
        let ghost w0 = w@;
        let mut k: usize = 0;
        while k < w.len() && w[k].0 <= s
            invariant
                k <= w0.len(),
                w@ == w0,
                forall|i: int| 0 <= i < k ==> (#[trigger] w0[i]).0 <= s,
            decreases w0.len() - k,
        {
            k = k + 1;
        }
        proof {
            assert forall|i: int| k <= i < w0.len() implies (#[trigger] w0[i]).0 > s by {
                assert(w0[i].0 == pre.seqnum - w0.len() + i);
                assert(w0[k as int].0 == pre.seqnum - w0.len() + k);
            }
        }
        let tail = w.split_off(k);
        proof {
            assert forall|i: int| 0 <= i < tail@.len() implies (#[trigger] tail@[i]) == w0[k + i]
                by {}
        }
        self.ack_wait = tail;
        if s > self.peer_seqnum {
            self.peer_seqnum = s;
        }
        proof {
            assert forall|i: int| 0 <= i < pre.unacked().len() implies (#[trigger] pre.unacked()[
            i]) == (w0[i].0, w0[i].1@) by {
                assert(pre.ack_wait@[i] == w0[i]);
            }
            lemma_ack_keep_split(pre.unacked(), s, k as int);
            assert(self.unacked() =~= pre.unacked().skip(k as int));
        }
        Ok(None)
    }

    fn handle_agn_(&mut self, agn: &Vec<u8>, out: &mut Vec<Vec<u8>>) -> (r: Result<
        Option<usize>,
        ODPError,
    >)
        requires
            agn@.len() >= PKT_HDR_SIZE,
            !old(self).has_pending(),
            old(out)@.len() == 0,
        ensures
            final(self).next_seq() == old(self).next_seq(),
            final(self).peer_addr() == old(self).peer_addr(),
            final(self).endpoint_id() == old(self).endpoint_id(),
            ({
                let from = spec_u64_from_le_bytes(agn@.subrange(2, 10));
                if agn@.len() < PKT_HDR_SIZE + 8 {
                    &&& r == Err::<Option<usize>, ODPError>(ODPError::ProtocolError)
                    &&& *final(self) == *old(self)
                    &&& frames_view(final(out)@) == Seq::<Seq<u8>>::empty()
                } else {
                    let to = spec_u64_from_le_bytes(agn@.subrange(10, 18));
                    if from > to {
                        &&& r == Err::<Option<usize>, ODPError>(ODPError::ProtocolError)
                        &&& *final(self) == *old(self)
                        &&& frames_view(final(out)@) == Seq::<Seq<u8>>::empty()
                    } else {
                        &&& r == Ok::<Option<usize>, ODPError>(None)
                        &&& final(self).unacked() == spec_agn_keep(old(self).unacked(), from)
                        &&& final(self).peer_seq() == seq_max(old(self).peer_seq(), from)
                        &&& final(self).has_pending() == old(self).has_pending()
                        &&& frames_view(final(out)@) == spec_window_frames(final(self).unacked())
                    }
                }
            }),
    {
        proof {
            use_type_invariant(&*self);
        }
        let ghost pre = *self;
        proof {
            assert(frames_view(out@) =~= Seq::<Seq<u8>>::empty());
        }
        if agn.len() < PKT_HDR_SIZE + 8 {
            return Err(ODPError::ProtocolError);
        }
        let from = read_seq_at(agn, 2);
        let to = read_seq_at(agn, 10);
        if from > to {
            return Err(ODPError::ProtocolError);
        }
        let mut w: Vec<(Seqnum, Vec<u8>)> = Vec::new();
        std::mem::swap(&mut w, &mut self.ack_wait);
        let ghost w0 = w@;
        let mut k: usize = 0;
        while k < w.len() && w[k].0 < from
            invariant
                k <= w0.len(),
                w@ == w0,
                forall|i: int| 0 <= i < k ==> (#[trigger] w0[i]).0 < from,
            decreases w0.len() - k,
        {
            k = k + 1;
        }
        proof {
            assert forall|i: int| k <= i < w0.len() implies (#[trigger] w0[i]).0 >= from by {
                assert(w0[i].0 == pre.seqnum - w0.len() + i);
                assert(w0[k as int].0 == pre.seqnum - w0.len() + k);
            }
        }
        let tail = w.split_off(k);
        proof {
            assert forall|i: int| 0 <= i < tail@.len() implies (#[trigger] tail@[i]) == w0[k + i]
                by {}
        }
        self.ack_wait = tail;
        if from > self.peer_seqnum {
            self.peer_seqnum = from;
        }
        proof {
            assert forall|i: int| 0 <= i < pre.unacked().len() implies (#[trigger] pre.unacked()[
            i]) == (w0[i].0, w0[i].1@) by {
                assert(pre.ack_wait@[i] == w0[i]);
            }
            lemma_agn_keep_split(pre.unacked(), from, k as int);
            assert(self.unacked() =~= pre.unacked().skip(k as int));
        }
        let ghost post_un = self.unacked();
        proof {
            assert(frames_view(out@) =~= spec_window_frames(post_un).take(0));
        }
        let mut i: usize = 0;
        while i < self.ack_wait.len()
            invariant
                i <= self.ack_wait@.len(),
                self.unacked() == post_un,
                post_un.len() == self.ack_wait@.len(),
                frames_view(out@) == spec_window_frames(post_un).take(i as int),
            decreases self.ack_wait@.len() - i,
        {
            let fcopy = clone_bytes(&self.ack_wait[i].1);
            let ghost out_prev = out@;
            out.push(fcopy);
            proof {
                assert(frames_view(out_prev).len() == out_prev.len());
                assert(out_prev.len() == i);
                assert(post_un[i as int] == (self.ack_wait@[i as int].0, self.ack_wait@[
                i as int].1@));
                assert(fcopy@ == post_un[i as int].1);
                assert forall|j: int| 0 <= j < out@.len() implies #[trigger] frames_view(out@)[j]
                    == spec_window_frames(post_un).take(i + 1)[j] by {
                    assert(frames_view(out@)[j] == out@[j]@);
                    if j < i {
                        assert(out@[j] == out_prev[j]);
                        assert(frames_view(out_prev)[j] == out_prev[j]@);
                        assert(frames_view(out_prev)[j] == spec_window_frames(post_un).take(
                            i as int,
                        )[j]);
                    } else {
                        assert(out@[j] == fcopy);
                    }
                    assert(spec_window_frames(post_un)[j] == post_un[j].1);
                }
                assert(frames_view(out@) =~= spec_window_frames(post_un).take(i + 1));
            }
            i = i + 1;
        }
        proof {
            assert(frames_view(out@) =~= spec_window_frames(post_un));
        }
        Ok(None)
    }

    fn handle_snd_(&mut self, snd: &Vec<u8>, out: &mut Vec<Vec<u8>>) -> (r: Result<
        Option<usize>,
        ODPError,
    >)
        requires
            snd@.len() >= PKT_HDR_SIZE,
            old(out)@.len() == 0,
        ensures
            final(self).next_seq() == old(self).next_seq(),
            final(self).unacked() == old(self).unacked(),
            final(self).peer_seq() == old(self).peer_seq(),
            final(self).peer_addr() == old(self).peer_addr(),
            final(self).endpoint_id() == old(self).endpoint_id(),
            ({
                let s = spec_u64_from_le_bytes(snd@.subrange(2, 10));
                if s < old(self).peer_seq() {
                    &&& r == Ok::<Option<usize>, ODPError>(None)
                    &&& *final(self) == *old(self)
                    &&& frames_view(final(out)@) == seq![spec_ack_frame(old(self).peer_seq())]
                } else if s == old(self).peer_seq() {
                    if old(self).peer_seq() == u64::MAX {
                        &&& r == Err::<Option<usize>, ODPError>(ODPError::Unknown)
                        &&& *final(self) == *old(self)
                        &&& frames_view(final(out)@) == Seq::<Seq<u8>>::empty()
                    } else {
                        &&& r == Ok::<Option<usize>, ODPError>(None)
                        &&& final(self).has_pending()
                        &&& final(self).pending_payload() == snd@.skip(PKT_HDR_SIZE as int)
                        &&& frames_view(final(out)@) == seq![spec_ack_frame(old(self).peer_seq())]
                    }
                } else {
                    &&& r == Ok::<Option<usize>, ODPError>(None)
                    &&& *final(self) == *old(self)
                    &&& frames_view(final(out)@) == seq![
                        spec_agn_frame(old(self).peer_seq(), s),
                    ]
                }
            }),
    {
        proof {
            use_type_invariant(&*self);
        }
        let s = read_seq_at(snd, 2);
        if s < self.peer_seqnum {
            let ack = make_ack_frame(self.peer_seqnum);
            out.push(ack);
            proof {
                assert(frames_view(out@) =~= seq![spec_ack_frame(self.peer_seqnum)]);
            }
            Ok(None)
        } else if s == self.peer_seqnum {
            if self.peer_seqnum == u64::MAX {
                proof {
                    assert(frames_view(out@) =~= Seq::<Seq<u8>>::empty());
                }
                return Err(ODPError::Unknown);
            }
            let ack = make_ack_frame(self.peer_seqnum);
            out.push(ack);
            proof {
                assert(frames_view(out@) =~= seq![spec_ack_frame(self.peer_seqnum)]);
            }
            // Delivery and the expectation's advance wait for the
            // acknowledgement's confirmation in recv_complete.
            let mut pay: Vec<u8> = Vec::new();
            push_byte_range(&mut pay, snd, PKT_HDR_SIZE, snd.len());
            proof {
                assert(pay@ =~= snd@.skip(PKT_HDR_SIZE as int));
            }
            self.pending = Some(pay);
            Ok(None)
        } else {
            let agn = make_agn_frame(self.peer_seqnum, s);
            out.push(agn);
            proof {
                assert(frames_view(out@) =~= seq![spec_agn_frame(self.peer_seqnum, s)]);
            }
            Ok(None)
        }
    }

    /// Consume one raw datagram read from the socket.  Returns the
    /// outcome — "no message" or an error — together with the frames
    /// that must now be emitted to the peer, in order, as link
    /// payloads.  An in-order SND is not delivered here: it is staged,
    /// its acknowledgement is returned for emission, and the host
    /// commits the delivery with `recv_complete` (or drops it with
    /// `recv_abort`) once the link has reported on that emission.
    pub fn recv(&mut self, datagram: &Vec<u8>, src: PeerAddr) -> (r: (
        Result<Option<usize>, ODPError>,
        Vec<Vec<u8>>,
    ))
        requires
            !old(self).has_pending(),
        ensures
            spec_recv_step(*old(self), *final(self), datagram@, src, r.0, frames_view(r.1@)),
            final(self).window_wf(),
    {
        let mut out: Vec<Vec<u8>> = Vec::new();
        proof {
            assert(frames_view(out@) =~= Seq::<Seq<u8>>::empty());
        }
        let dec = self.framer.decode(datagram);
        match dec {
            None => {
                proof {
                    use_type_invariant(&*self);
                    self.lemma_inv_window_wf();
                }
                (Ok(None), out)
            },
            Some(f) => {
                if src != self.peer {
                    proof {
                        use_type_invariant(&*self);
                        self.lemma_inv_window_wf();
                    }
                    (Ok(None), out)
                } else if f.len() < PKT_HDR_SIZE {
                    proof {
                        use_type_invariant(&*self);
                        self.lemma_inv_window_wf();
                    }
                    (Err(ODPError::ProtocolError), out)
                } else {
                    let t = f[0];
                    if t == TYPE_ACK {
                        let r0 = self.handle_ack_(&f);
                        proof {
                            use_type_invariant(&*self);
                            self.lemma_inv_window_wf();
                        }
                        (r0, out)
                    } else if t == TYPE_AGN {
                        let r0 = self.handle_agn_(&f, &mut out);
                        proof {
                            use_type_invariant(&*self);
                            self.lemma_inv_window_wf();
                        }
                        (r0, out)
                    } else if t == TYPE_SND {
                        let r0 = self.handle_snd_(&f, &mut out);
                        proof {
                            use_type_invariant(&*self);
                            self.lemma_inv_window_wf();
                        }
                        (r0, out)
                    } else {
                        proof {
                            use_type_invariant(&*self);
                            self.lemma_inv_window_wf();
                        }
                        (Err(ODPError::ProtocolError), out)
                    }
                }
            },
        }
    }

    /// Commit a delivery staged by `recv` after the host emitted the
    /// acknowledgement and the link reported `accepted` payload
    /// bytes.  Exactly `PKT_HDR_SIZE` accepted bytes confirm the
    /// acknowledgement: the payload is copied into `buf` and the
    /// expectation advances by one.  Anything else is ProtocolError:
    /// nothing is delivered, the expectation stands, and the dropped
    /// frame is left to the peer's retransmission.
    pub fn recv_complete(&mut self, accepted: usize, buf: &mut Vec<u8>) -> (r: Result<
        Option<usize>,
        ODPError,
    >)
        requires
            old(self).has_pending(),
        ensures
            spec_recv_complete_step(
                *old(self),
                *final(self),
                accepted,
                old(buf)@,
                final(buf)@,
                r,
            ),
            final(self).window_wf(),
    {
        proof {
            use_type_invariant(&*self);
        }
        let mut pend: Option<Vec<u8>> = None;
        std::mem::swap(&mut pend, &mut self.pending);
        let pay = pend.unwrap();
        if accepted != PKT_HDR_SIZE {
            proof {
                self.lemma_inv_window_wf();
            }
            return Err(ODPError::ProtocolError);
        }
        self.peer_seqnum = self.peer_seqnum + 1;
        let n = copy_buf(buf, &pay);
        proof {
            use_type_invariant(&*self);
            self.lemma_inv_window_wf();
        }
        Ok(Some(n))
    }

    /// Drop a delivery staged by `recv` after its acknowledgement
    /// could not be handed to the link at all: nothing is delivered,
    /// the expectation stands, and the dropped frame is left to the
    /// peer's retransmission.  The host surfaces the transport error
    /// itself.
    pub fn recv_abort(&mut self)
        ensures
            !final(self).has_pending(),
            final(self).unacked() == old(self).unacked(),
            final(self).next_seq() == old(self).next_seq(),
            final(self).peer_seq() == old(self).peer_seq(),
            final(self).peer_addr() == old(self).peer_addr(),
            final(self).endpoint_id() == old(self).endpoint_id(),
            final(self).window_wf(),
    {
        proof {
            use_type_invariant(&*self);
        }
        self.pending = None;
        proof {
            use_type_invariant(&*self);
            self.lemma_inv_window_wf();
        }
    }

    /// Whether an in-order frame awaits confirmation of its
    /// acknowledgement: the host must settle it with `recv_complete`
    /// or `recv_abort` before the next `recv`.
    pub fn has_pending_delivery(&self) -> (b: bool)
        ensures
            b == self.has_pending(),
    {
        self.pending.is_some()
    }

    /// Wrap a link payload in the ICMP frame emitted on the wire.
    pub fn encode_link(&self, payload: &Vec<u8>) -> (frame: Vec<u8>)
        requires
            payload@.len() <= MAX_LINK_PAYLOAD,
        ensures
            frame@ == spec_encode(self.endpoint_id(), payload@),
            frame@.len() == payload@.len() + PKT_HEADER_LEN,
    {
        self.framer.encode(payload)
    }
}


/// The window entries kept by a cumulative ACK for `s`: every entry
/// with seqnum <= s is acknowledged and removed.
pub open spec fn spec_ack_keep(w: Seq<(Seqnum, Seq<u8>)>, s: Seqnum) -> Seq<(Seqnum, Seq<u8>)> {
    w.filter(|e: (Seqnum, Seq<u8>)| e.0 > s)
}

/// The window entries kept by an AGN with `from`: every entry with
/// seqnum < from is acknowledged and removed.
pub open spec fn spec_agn_keep(w: Seq<(Seqnum, Seq<u8>)>, from: Seqnum) -> Seq<(Seqnum, Seq<u8>)> {
    w.filter(|e: (Seqnum, Seq<u8>)| e.0 >= from)
}

/// The frame bytes buffered in a window, in order.
pub open spec fn spec_window_frames(w: Seq<(Seqnum, Seq<u8>)>) -> Seq<Seq<u8>> {
    w.map_values(|e: (Seqnum, Seq<u8>)| e.1)
}

/// The byte sequences of a list of frames.
pub open spec fn frames_view(out: Seq<Vec<u8>>) -> Seq<Seq<u8>> {
    out.map_values(|v: Vec<u8>| v@)
}

/// For a window whose first `k` entries have seqnum <= s and whose
/// remaining entries have seqnum > s, the cumulative ACK keeps exactly
/// the remaining entries.
proof fn lemma_ack_keep_split(u: Seq<(Seqnum, Seq<u8>)>, s: Seqnum, k: int)
    requires
        0 <= k <= u.len(),
        forall|i: int| 0 <= i < k ==> (#[trigger] u[i]).0 <= s,
        forall|i: int| k <= i < u.len() ==> (#[trigger] u[i]).0 > s,
    ensures
        spec_ack_keep(u, s) == u.skip(k),
    decreases u.len(),
{
    reveal(Seq::filter);
    if u.len() == 0 {
        assert(spec_ack_keep(u, s) =~= u.skip(k));
    } else if k == u.len() {
        assert(u.last().0 <= s);
        lemma_ack_keep_split(u.drop_last(), s, k - 1);
        assert(spec_ack_keep(u, s) =~= u.skip(k));
    } else {
        assert(u.last().0 > s);
        lemma_ack_keep_split(u.drop_last(), s, k);
        assert(spec_ack_keep(u, s) =~= u.drop_last().skip(k).push(u.last()));
        assert(u.drop_last().skip(k).push(u.last()) =~= u.skip(k));
    }
}

/// For a window whose first `k` entries have seqnum < from and whose
/// remaining entries have seqnum >= from, the AGN keeps exactly the
/// remaining entries.
proof fn lemma_agn_keep_split(u: Seq<(Seqnum, Seq<u8>)>, from: Seqnum, k: int)
    requires
        0 <= k <= u.len(),
        forall|i: int| 0 <= i < k ==> (#[trigger] u[i]).0 < from,
        forall|i: int| k <= i < u.len() ==> (#[trigger] u[i]).0 >= from,
    ensures
        spec_agn_keep(u, from) == u.skip(k),
    decreases u.len(),
{
    reveal(Seq::filter);
    if u.len() == 0 {
        assert(spec_agn_keep(u, from) =~= u.skip(k));
    } else if k == u.len() {
        assert(u.last().0 < from);
        lemma_agn_keep_split(u.drop_last(), from, k - 1);
        assert(spec_agn_keep(u, from) =~= u.skip(k));
    } else {
        assert(u.last().0 >= from);
        lemma_agn_keep_split(u.drop_last(), from, k);
        assert(spec_agn_keep(u, from) =~= u.drop_last().skip(k).push(u.last()));
        assert(u.drop_last().skip(k).push(u.last()) =~= u.skip(k));
    }
}

/// Full specification of one `recv` step: how the endpoint state,
/// the returned outcome and the frames emitted back to the peer
/// follow from the raw datagram and its source address.
///
/// The cases mirror the protocol: link-layer filtering first (wrong
/// ICMP type, no signature, our own echo — all silently "no
/// message"), then the peer-address filter, then the structural
/// length check, then dispatch on the frame type.  A cumulative ACK
/// for `s` removes every window entry with seqnum <= s; an in-order
/// SND is staged as a pending delivery and its acknowledgement
/// emitted, to be committed by the completion step once the link has
/// accepted that acknowledgement; a stale SND is re-acknowledged; a
/// future SND triggers a resend request; an AGN acknowledges
/// everything below its `from` and asks for the remaining window to
/// be emitted again.
pub open spec fn spec_recv_step(
    pre: ODP,
    post: ODP,
    d: Seq<u8>,
    src: PeerAddr,
    outcome: Result<Option<usize>, ODPError>,
    emitted: Seq<Seq<u8>>,
) -> bool {
    let f = spec_payload_of(d);
    let same_id_peer = post.endpoint_id() == pre.endpoint_id() && post.peer_addr()
        == pre.peer_addr();
    if !spec_accepts(pre.endpoint_id(), d) || src != pre.peer_addr() {
        &&& outcome == Ok::<Option<usize>, ODPError>(None)
        &&& post == pre
        &&& emitted == Seq::<Seq<u8>>::empty()
    } else if f.len() < PKT_HDR_SIZE {
        &&& outcome == Err::<Option<usize>, ODPError>(ODPError::ProtocolError)
        &&& post == pre
        &&& emitted == Seq::<Seq<u8>>::empty()
    } else {
        let s = spec_u64_from_le_bytes(f.subrange(2, 10));
        if f[0] == TYPE_ACK {
            &&& outcome == Ok::<Option<usize>, ODPError>(None)
            &&& post.unacked() == spec_ack_keep(pre.unacked(), s)
            &&& post.peer_seq() == seq_max(pre.peer_seq(), s)
            &&& post.next_seq() == pre.next_seq()
            &&& post.has_pending() == pre.has_pending()
            &&& same_id_peer
            &&& emitted == Seq::<Seq<u8>>::empty()
        } else if f[0] == TYPE_AGN {
            if f.len() < PKT_HDR_SIZE + 8 {
                &&& outcome == Err::<Option<usize>, ODPError>(ODPError::ProtocolError)
                &&& post == pre
                &&& emitted == Seq::<Seq<u8>>::empty()
            } else {
                let to = spec_u64_from_le_bytes(f.subrange(10, 18));
                if s > to {
                    &&& outcome == Err::<Option<usize>, ODPError>(ODPError::ProtocolError)
                    &&& post == pre
                    &&& emitted == Seq::<Seq<u8>>::empty()
                } else {
                    &&& outcome == Ok::<Option<usize>, ODPError>(None)
                    &&& post.unacked() == spec_agn_keep(pre.unacked(), s)
                    &&& post.peer_seq() == seq_max(pre.peer_seq(), s)
                    &&& post.next_seq() == pre.next_seq()
                    &&& post.has_pending() == pre.has_pending()
                    &&& same_id_peer
                    &&& emitted == spec_window_frames(post.unacked())
                }
            }
        } else if f[0] == TYPE_SND {
            if s < pre.peer_seq() {
                &&& outcome == Ok::<Option<usize>, ODPError>(None)
                &&& post == pre
                &&& emitted == seq![spec_ack_frame(pre.peer_seq())]
            } else if s == pre.peer_seq() {
                if pre.peer_seq() == u64::MAX {
                    &&& outcome == Err::<Option<usize>, ODPError>(ODPError::Unknown)
                    &&& post == pre
                    &&& emitted == Seq::<Seq<u8>>::empty()
                } else {
                    &&& outcome == Ok::<Option<usize>, ODPError>(None)
                    &&& post.has_pending()
                    &&& post.pending_payload() == f.skip(PKT_HDR_SIZE as int)
                    &&& post.peer_seq() == pre.peer_seq()
                    &&& post.unacked() == pre.unacked()
                    &&& post.next_seq() == pre.next_seq()
                    &&& same_id_peer
                    &&& emitted == seq![spec_ack_frame(pre.peer_seq())]
                }
            } else {
                &&& outcome == Ok::<Option<usize>, ODPError>(None)
                &&& post == pre
                &&& emitted == seq![spec_agn_frame(pre.peer_seq(), s)]
            }
        } else {
            &&& outcome == Err::<Option<usize>, ODPError>(ODPError::ProtocolError)
            &&& post == pre
            &&& emitted == Seq::<Seq<u8>>::empty()
        }
    }
}

/// Full specification of the delivery-commit step: how the endpoint,
/// the caller's buffer and the result follow from the link's report
/// for the emitted acknowledgement.  Only an acknowledgement accepted
/// whole confirms the delivery; otherwise nothing is delivered and
/// the expectation stands, as for a lost acknowledgement: the peer
/// will retransmit the frame.
pub open spec fn spec_recv_complete_step(
    pre: ODP,
    post: ODP,
    accepted: usize,
    buf0: Seq<u8>,
    buf1: Seq<u8>,
    r: Result<Option<usize>, ODPError>,
) -> bool {
    let pay = pre.pending_payload();
    &&& !post.has_pending()
    &&& post.unacked() == pre.unacked()
    &&& post.next_seq() == pre.next_seq()
    &&& post.peer_addr() == pre.peer_addr()
    &&& post.endpoint_id() == pre.endpoint_id()
    &&& if accepted == PKT_HDR_SIZE {
        let n: int = if buf0.len() <= pay.len() {
            buf0.len() as int
        } else {
            pay.len() as int
        };
        &&& r == Ok::<Option<usize>, ODPError>(Some(n as usize))
        &&& buf1 == pay.take(n) + buf0.skip(n)
        &&& buf1.len() == buf0.len()
        &&& post.peer_seq() == pre.peer_seq() + 1
    } else {
        &&& r == Err::<Option<usize>, ODPError>(ODPError::ProtocolError)
        &&& buf1 == buf0
        &&& post.peer_seq() == pre.peer_seq()
    }
}

/// Copy the bytes of `src`.
fn clone_bytes(src: &Vec<u8>) -> (v: Vec<u8>)
    ensures
        v@ == src@,
{
    let mut v: Vec<u8> = Vec::new();
    push_byte_range(&mut v, src, 0, src.len());
    proof {
        assert(v@ =~= src@);
    }
    v
}

/// Map the link's report for an emitted control or resent frame to
/// the protocol's outcome: an ACK and an AGN must be accepted whole; a
/// resent SND is not length-checked.
pub fn emit_outcome(frame: &Vec<u8>, accepted: usize) -> (r: Result<(), ODPError>)
    requires
        frame@.len() > 0,
    ensures
        r == if frame@[0] == TYPE_ACK {
            if accepted == frame@.len() {
                Ok::<(), ODPError>(())
            } else {
                Err::<(), ODPError>(ODPError::ProtocolError)
            }
        } else if frame@[0] == TYPE_AGN {
            if accepted == frame@.len() {
                Ok::<(), ODPError>(())
            } else {
                Err::<(), ODPError>(ODPError::Unknown)
            }
        } else {
            Ok::<(), ODPError>(())
        },
{
    let t = frame[0];
    if t == TYPE_ACK {
        if accepted == frame.len() {
            Ok(())
        } else {
            Err(ODPError::ProtocolError)
        }
    } else if t == TYPE_AGN {
        if accepted == frame.len() {
            Ok(())
        } else {
            Err(ODPError::Unknown)
        }
    } else {
        Ok(())
    }
}

} // verus!
