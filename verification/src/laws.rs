//! Protocol laws: properties of the endpoint's reception steps, proved
//! once and for all from the contracts of the core.

use vstd::prelude::*;
use vstd::bytes::{
    lemma_auto_spec_u64_to_from_le_bytes, spec_u64_from_le_bytes, spec_u64_to_le_bytes,
};
use crate::framer::{
    spec_accepts, spec_encode, spec_frame_base, spec_payload_of, ECHO_REQUEST, IP_HEADER_LEN,
    PKT_HEADER_LEN,
};
use crate::odp::{
    seq_max, spec_ack_frame, spec_agn_keep, spec_recv_complete_step, spec_recv_step,
    spec_snd_chunk, spec_snd_frame, spec_window_frames, ODPError, PeerAddr, Seqnum, ODP,
    PKT_HDR_SIZE, PKT_MAX_SIZE, TYPE_ACK, TYPE_AGN, TYPE_SND,
};

verus! {

/// A datagram whose id byte is zero — ordinary ICMP traffic without
/// the tunnel's signature — yields "no message": the endpoint state
/// and the wire are untouched, whatever the payload holds.
pub proof fn lemma_unsigned_datagram_ignored(
    pre: ODP,
    post: ODP,
    d: Seq<u8>,
    src: PeerAddr,
    outcome: Result<Option<usize>, ODPError>,
    emitted: Seq<Seq<u8>>,
)
    requires
        spec_recv_step(pre, post, d, src, outcome, emitted),
        d.len() > IP_HEADER_LEN + 1,
        d[IP_HEADER_LEN + 1] == 0,
    ensures
        outcome == Ok::<Option<usize>, ODPError>(None),
        post == pre,
        emitted == Seq::<Seq<u8>>::empty(),
{
    assert(!spec_accepts(pre.endpoint_id(), d));
}

/// A datagram whose id byte equals the receiver's own id — its own
/// echo reflected back — yields "no message", regardless of the
/// payload contents.
pub proof fn lemma_own_echo_ignored(
    pre: ODP,
    post: ODP,
    d: Seq<u8>,
    src: PeerAddr,
    outcome: Result<Option<usize>, ODPError>,
    emitted: Seq<Seq<u8>>,
)
    requires
        spec_recv_step(pre, post, d, src, outcome, emitted),
        d.len() > IP_HEADER_LEN + 1,
        d[IP_HEADER_LEN + 1] == pre.endpoint_id(),
    ensures
        outcome == Ok::<Option<usize>, ODPError>(None),
        post == pre,
        emitted == Seq::<Seq<u8>>::empty(),
{
    assert(!spec_accepts(pre.endpoint_id(), d));
}

/// Deliveries are strictly in order and exactly once: whenever a
/// reception step stages bytes for delivery, the consumed frame was
/// the SND carrying exactly the next expected sequence number, the
/// staged bytes are that frame's payload, and the expectation
/// advances — by exactly one — only in the completion step that
/// confirms the emitted acknowledgement.
pub proof fn lemma_delivery_in_order(
    pre: ODP,
    post: ODP,
    d: Seq<u8>,
    src: PeerAddr,
    outcome: Result<Option<usize>, ODPError>,
    emitted: Seq<Seq<u8>>,
)
    requires
        spec_recv_step(pre, post, d, src, outcome, emitted),
        !pre.has_pending(),
        post.has_pending(),
    ensures
        spec_accepts(pre.endpoint_id(), d),
        src == pre.peer_addr(),
        spec_payload_of(d)[0] == TYPE_SND,
        spec_u64_from_le_bytes(spec_payload_of(d).subrange(2, 10)) == pre.peer_seq(),
        post.pending_payload() == spec_payload_of(d).skip(PKT_HDR_SIZE as int),
        outcome == Ok::<Option<usize>, ODPError>(None),
        post.peer_seq() == pre.peer_seq(),
        post.next_seq() == pre.next_seq(),
        post.unacked() == pre.unacked(),
        emitted == seq![spec_ack_frame(pre.peer_seq())],
{
}

/// Round trip of one frame: the SND frame a sender prepares for
/// `payload`, wrapped by the sender's framer, received by the peer
/// from the expected address and in expected order, and whose
/// acknowledgement the link then accepts whole, delivers exactly the
/// chunk of `payload` that the frame carried.
pub proof fn lemma_single_round_trip(
    sender_id: u8,
    seq: Seqnum,
    payload: Seq<u8>,
    pre: ODP,
    mid: ODP,
    post: ODP,
    ip_hdr: Seq<u8>,
    src: PeerAddr,
    buf0: Seq<u8>,
    buf1: Seq<u8>,
    outcome1: Result<Option<usize>, ODPError>,
    outcome2: Result<Option<usize>, ODPError>,
    emitted: Seq<Seq<u8>>,
)
    requires
        ip_hdr.len() == IP_HEADER_LEN,
        sender_id != 0,
        sender_id != pre.endpoint_id(),
        src == pre.peer_addr(),
        seq == pre.peer_seq(),
        pre.peer_seq() < u64::MAX,
        !pre.has_pending(),
        buf0.len() >= spec_snd_chunk(payload).len(),
        spec_recv_step(
            pre,
            mid,
            ip_hdr + spec_encode(sender_id, spec_snd_frame(seq, spec_snd_chunk(payload))),
            src,
            outcome1,
            emitted,
        ),
        spec_recv_complete_step(mid, post, PKT_HDR_SIZE, buf0, buf1, outcome2),
    ensures
        outcome1 == Ok::<Option<usize>, ODPError>(None),
        emitted == seq![spec_ack_frame(pre.peer_seq())],
        outcome2 == Ok::<Option<usize>, ODPError>(
            Some(spec_snd_chunk(payload).len() as usize),
        ),
        buf1.take(spec_snd_chunk(payload).len() as int) == spec_snd_chunk(payload),
        post.peer_seq() == pre.peer_seq() + 1,
        post.next_seq() == pre.next_seq(),
        post.unacked() == pre.unacked(),
        post.endpoint_id() == pre.endpoint_id(),
        post.peer_addr() == pre.peer_addr(),
        !post.has_pending(),
        buf1.len() == buf0.len(),
{
    lemma_auto_spec_u64_to_from_le_bytes();
    let chunk = spec_snd_chunk(payload);
    let frame = spec_snd_frame(seq, chunk);
    let wire = spec_encode(sender_id, frame);
    let d = ip_hdr + wire;
    let base = spec_frame_base(sender_id, frame);
    assert(wire[0] == ECHO_REQUEST);
    assert(wire[1] == sender_id);
    assert(d[IP_HEADER_LEN as int] == ECHO_REQUEST);
    assert(d[IP_HEADER_LEN + 1] == sender_id);
    assert(spec_accepts(pre.endpoint_id(), d));
    let f = spec_payload_of(d);
    assert forall|j: int| 0 <= j < frame.len() implies f[j] == frame[j] by {
        assert(f[j] == d[IP_HEADER_LEN + PKT_HEADER_LEN + j]);
        assert(d[IP_HEADER_LEN + PKT_HEADER_LEN + j] == wire[PKT_HEADER_LEN + j]);
        assert(wire[PKT_HEADER_LEN + j] == base[PKT_HEADER_LEN + j]);
        assert(base[PKT_HEADER_LEN + j] == frame[j]);
    }
    assert(f =~= frame);
    assert(f[0] == TYPE_SND);
    assert(spec_u64_to_le_bytes(seq).len() == 8);
    assert(f.subrange(2, 10) =~= spec_u64_to_le_bytes(seq));
    assert(spec_u64_from_le_bytes(f.subrange(2, 10)) == seq);
    assert(mid.pending_payload() =~= chunk);
    assert(buf1.take(chunk.len() as int) =~= chunk);
}

/// A resend request is served exactly: an AGN for `[from, to]` with
/// `from <= to`, from the peer, acknowledges every window entry below
/// `from` and asks for the whole remaining window to be emitted
/// again, frame for frame and in window order; every kept entry's
/// sequence number is at least `from`.
pub proof fn lemma_agn_retransmits_window(
    pre: ODP,
    post: ODP,
    d: Seq<u8>,
    src: PeerAddr,
    outcome: Result<Option<usize>, ODPError>,
    emitted: Seq<Seq<u8>>,
    from: Seqnum,
    to: Seqnum,
)
    requires
        spec_recv_step(pre, post, d, src, outcome, emitted),
        spec_accepts(pre.endpoint_id(), d),
        src == pre.peer_addr(),
        spec_payload_of(d).len() >= PKT_HDR_SIZE + 8,
        spec_payload_of(d)[0] == TYPE_AGN,
        from == spec_u64_from_le_bytes(spec_payload_of(d).subrange(2, 10)),
        to == spec_u64_from_le_bytes(spec_payload_of(d).subrange(10, 18)),
        from <= to,
    ensures
        outcome == Ok::<Option<usize>, ODPError>(None),
        post.unacked() == spec_agn_keep(pre.unacked(), from),
        forall|i: int|
            0 <= i < post.unacked().len() ==> (#[trigger] post.unacked()[i]).0 >= from,
        post.peer_seq() == seq_max(pre.peer_seq(), from),
        post.next_seq() == pre.next_seq(),
        emitted == spec_window_frames(post.unacked()),
        emitted.len() == post.unacked().len(),
        forall|i: int|
            0 <= i < post.unacked().len() ==> #[trigger] emitted[i] == post.unacked()[i].1,
{
    broadcast use vstd::seq_lib::group_filter_ensures;

    assert(spec_payload_of(d)[0] != TYPE_ACK);
    assert forall|i: int| 0 <= i < post.unacked().len() implies (
    #[trigger] post.unacked()[i]).0 >= from by {
        assert(post.unacked() == spec_agn_keep(pre.unacked(), from));
    }
    assert forall|i: int| 0 <= i < post.unacked().len() implies #[trigger] emitted[i]
        == post.unacked()[i].1 by {
        assert(emitted[i] == spec_window_frames(post.unacked())[i]);
    }
}

/// A whole in-order exchange: starting from any receiver state, the
/// SND frames carrying the consecutive chunks of a byte stream, each
/// wrapped by the sender's framer, received in order into buffers
/// that are large enough, and each acknowledgement accepted whole by
/// the link, deliver exactly those chunks: the concatenation of the
/// outputs is the stream that was sent.
pub proof fn lemma_stream_delivered_in_order(
    sender_id: u8,
    states: Seq<ODP>,
    mids: Seq<ODP>,
    chunks: Seq<Seq<u8>>,
    hdrs: Seq<Seq<u8>>,
    bufs0: Seq<Seq<u8>>,
    bufs1: Seq<Seq<u8>>,
    routcomes: Seq<Result<Option<usize>, ODPError>>,
    remits: Seq<Seq<Seq<u8>>>,
    outcomes: Seq<Result<Option<usize>, ODPError>>,
)
    requires
        states.len() == chunks.len() + 1,
        mids.len() == chunks.len(),
        hdrs.len() == chunks.len(),
        bufs0.len() == chunks.len(),
        bufs1.len() == chunks.len(),
        routcomes.len() == chunks.len(),
        remits.len() == chunks.len(),
        outcomes.len() == chunks.len(),
        sender_id != 0,
        sender_id != states[0].endpoint_id(),
        !states[0].has_pending(),
        states[0].peer_seq() + chunks.len() <= u64::MAX,
        forall|i: int|
            0 <= i < chunks.len() ==> {
                &&& (#[trigger] hdrs[i]).len() == IP_HEADER_LEN
                &&& chunks[i].len() <= PKT_MAX_SIZE - PKT_HDR_SIZE
                &&& bufs0[i].len() >= chunks[i].len()
                &&& spec_recv_step(
                    states[i],
                    mids[i],
                    hdrs[i] + spec_encode(
                        sender_id,
                        spec_snd_frame((states[0].peer_seq() + i) as u64, chunks[i]),
                    ),
                    states[i].peer_addr(),
                    routcomes[i],
                    remits[i],
                )
                &&& spec_recv_complete_step(
                    mids[i],
                    states[i + 1],
                    PKT_HDR_SIZE,
                    bufs0[i],
                    bufs1[i],
                    outcomes[i],
                )
            },
    ensures
        states[chunks.len() as int].peer_seq() == states[0].peer_seq() + chunks.len(),
        forall|i: int|
            0 <= i < chunks.len() ==> outcomes[i] == Ok::<Option<usize>, ODPError>(
                Some(chunks[i].len() as usize),
            ),
        forall|i: int|
            0 <= i < chunks.len() ==> #[trigger] bufs1[i].take(chunks[i].len() as int)
                == chunks[i],
        Seq::new(chunks.len(), |i: int| bufs1[i].take(chunks[i].len() as int)).flatten()
            == chunks.flatten(),
    decreases chunks.len(),
{
    let delivered = Seq::new(chunks.len(), |i: int| bufs1[i].take(chunks[i].len() as int));
    if chunks.len() == 0 {
        assert(delivered =~= chunks);
    } else {
        // The first step is one round trip for the expected sequence
        // number; the rest is the same exchange one state further in.
        assert(hdrs[0].len() == IP_HEADER_LEN);
        assert(chunks[0].len() <= PKT_MAX_SIZE - PKT_HDR_SIZE);
        assert(spec_snd_chunk(chunks[0]) == chunks[0]);
        assert((states[0].peer_seq() + 0) as u64 == states[0].peer_seq());
        lemma_single_round_trip(
            sender_id,
            states[0].peer_seq(),
            chunks[0],
            states[0],
            mids[0],
            states[1],
            hdrs[0],
            states[0].peer_addr(),
            bufs0[0],
            bufs1[0],
            routcomes[0],
            outcomes[0],
            remits[0],
        );
        let states2 = states.skip(1);
        let mids2 = mids.skip(1);
        let chunks2 = chunks.skip(1);
        let hdrs2 = hdrs.skip(1);
        let bufs02 = bufs0.skip(1);
        let bufs12 = bufs1.skip(1);
        let routcomes2 = routcomes.skip(1);
        let remits2 = remits.skip(1);
        let outcomes2 = outcomes.skip(1);
        assert(states2[0].peer_seq() == states[0].peer_seq() + 1);
        assert forall|i: int| 0 <= i < chunks2.len() implies {
            &&& (#[trigger] hdrs2[i]).len() == IP_HEADER_LEN
            &&& chunks2[i].len() <= PKT_MAX_SIZE - PKT_HDR_SIZE
            &&& bufs02[i].len() >= chunks2[i].len()
            &&& spec_recv_step(
                states2[i],
                mids2[i],
                hdrs2[i] + spec_encode(
                    sender_id,
                    spec_snd_frame((states2[0].peer_seq() + i) as u64, chunks2[i]),
                ),
                states2[i].peer_addr(),
                routcomes2[i],
                remits2[i],
            )
            &&& spec_recv_complete_step(
                mids2[i],
                states2[i + 1],
                PKT_HDR_SIZE,
                bufs02[i],
                bufs12[i],
                outcomes2[i],
            )
        } by {
            assert(states2[i] == states[i + 1]);
            assert(states2[i + 1] == states[i + 2]);
            assert(mids2[i] == mids[i + 1]);
            assert(hdrs2[i] == hdrs[i + 1]);
            assert(chunks2[i] == chunks[i + 1]);
            assert(bufs02[i] == bufs0[i + 1]);
            assert(bufs12[i] == bufs1[i + 1]);
            assert(routcomes2[i] == routcomes[i + 1]);
            assert(remits2[i] == remits[i + 1]);
            assert(outcomes2[i] == outcomes[i + 1]);
            assert((states2[0].peer_seq() + i) as u64 == (states[0].peer_seq() + (i + 1)) as u64);
        }
        lemma_stream_delivered_in_order(
            sender_id,
            states2,
            mids2,
            chunks2,
            hdrs2,
            bufs02,
            bufs12,
            routcomes2,
            remits2,
            outcomes2,
        );
        assert forall|i: int| 0 <= i < chunks.len() implies #[trigger] bufs1[i].take(
            chunks[i].len() as int,
        ) == chunks[i] by {
            if i > 0 {
                assert(bufs12[i - 1].take(chunks2[i - 1].len() as int) == chunks2[i - 1]);
            }
        }
        assert forall|i: int| 0 <= i < chunks.len() implies outcomes[i] == Ok::<
            Option<usize>,
            ODPError,
        >(Some(chunks[i].len() as usize)) by {
            if i > 0 {
                assert(outcomes2[i - 1] == Ok::<Option<usize>, ODPError>(
                    Some(chunks2[i - 1].len() as usize),
                ));
            }
        }
        assert(states[chunks.len() as int] == states2[chunks2.len() as int]);
        assert(delivered =~= chunks);
    }
}

} // verus!
