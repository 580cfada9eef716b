//! What sessions promise from end to end.

use crate::bwe::{BweModel, TrendSignal};
use crate::codec::{EncodedModel, MediaKind};
use crate::fec;
use crate::fec::{
    GeneratorModel, MediaMap, ReceiverModel, RecoveredModel, RowModel, MAX_MEDIA_PACKETS,
};
use crate::feedback;
use crate::fragment;
use crate::fragment::PayloadSizeLimits;
use crate::nack;
use crate::packet;
use crate::packet::{DecodeError, Flags, Header, PacketModel, HEADER_SIZE};
use crate::reassembly;
use crate::reassembly::{AssembledModel, OutcomeModel, ReassemblerModel};
use crate::send_queue;
use crate::seqs;
use crate::session;
use crate::session::{QrtConfig, ReceivedModel, SessionModel};
use crate::table::stream_key;
use crate::time::{Duration, Instant};
use crate::track::{TrackConfig, TrackModel};
use vstd::prelude::*;

verus! {

/// Reassembly does not look at the transport sequence number.
proof fn lemma_push_unnumbered(m: ReassemblerModel, h: Header, payload: Seq<u8>, seq: u16)
    ensures
        m.push(PacketModel::Media { header: Header { transport_seq: seq, ..h }, payload })
            == m.push(PacketModel::Media { header: h, payload }),
{
    let h2 = Header { transport_seq: seq, ..h };
    let key = stream_key(h.stream_id, h.frame_id);
    assert(m.begun(key, h2) == m.begun(key, h));
}

/// A media packet with another transport sequence number is still that packet.
proof fn lemma_renumbered(p: PacketModel, seq: u16)
    requires
        p.valid(),
        p is Media,
    ensures
        PacketModel::parse(feedback::stamped(p.wire(), seq)) == Ok::<PacketModel, DecodeError>(
            PacketModel::Media {
                header: Header { transport_seq: seq, ..p.header() },
                payload: p->Media_payload,
            },
        ),
{
    let h = p.header();
    let wire = p.wire();
    packet::lemma_packet_round_trip(p);
    packet::lemma_header_len(h);
    feedback::lemma_stamped(wire, seq);
    assert(wire.skip(HEADER_SIZE as int) =~= p.body());
}

/// Without parity rows nothing is rebuilt.
proof fn lemma_no_rows(r: ReceiverModel, h: Header, wire: Seq<u8>)
    requires
        r.fec.len() == 0,
    ensures
        r.take_media(h.stream_id, h.media_seq, wire).0.fec.len() == 0,
        r.take_media(h.stream_id, h.media_seq, wire).1.len() == 0,
{
    let key = stream_key(h.stream_id, h.media_seq as u32);
    let mid = ReceiverModel {
        media: r.media.insert(key, wire),
        order: r.order.push(key),
        ..r
    }.evicted().media;
    assert(fec::pass(mid, r.fec, 0) == (mid, Seq::<RecoveredModel>::empty()));
}

/// Whether a receiver goes through `states`, and asks `outs` of its host, when
/// the datagrams `wires` arrive at `times`.
pub open spec fn receives(
    states: Seq<SessionModel>,
    outs: Seq<ReceivedModel>,
    wires: Seq<Seq<u8>>,
    times: Seq<Instant>,
) -> bool {
    &&& states.len() == wires.len() + 1
    &&& outs.len() == wires.len()
    &&& times.len() == wires.len()
    &&& forall|k: int|
        0 <= k < wires.len() ==> (states[k + 1], outs[k]) == states[k].handle(
            #[trigger] wires[k],
            times[k],
        )
}

/// One media datagram at a receiver without parity rows.
proof fn lemma_media_step(m: SessionModel, p: PacketModel, seq: u16, now: Instant)
    requires
        p.valid(),
        p is Media,
        p.header().ttl_ms > 0,
        m.fec_rx.fec.len() == 0,
        m.has(p.header().stream_id),
    ensures
        ({
            let (after, out) = m.handle(feedback::stamped(p.wire(), seq), now);
            &&& after.fec_rx.fec.len() == 0
            &&& after.tracks.dom() == m.tracks.dom()
            &&& after.reasm == m.reasm.push(p).0
            &&& match m.reasm.push(p).1 {
                Ok(OutcomeModel::Assembled(f)) => f.stream_id == p.header().stream_id && out
                    == ReceivedModel::only_frames(seq![f]),
                _ => out == ReceivedModel::nothing(),
            }
        }),
{
    let wire = feedback::stamped(p.wire(), seq);
    let h = Header { transport_seq: seq, ..p.header() };
    lemma_renumbered(p, seq);
    lemma_push_unnumbered(m.reasm, p.header(), p->Media_payload, seq);
    let noted = SessionModel { arrivals: m.arrivals.noted(seq, now), ..m };
    lemma_no_rows(m.fec_rx, h, wire);
    let (fec_rx, rebuilt) = m.fec_rx.take_media(h.stream_id, h.media_seq, wire);
    let s = SessionModel { fec_rx, ..noted };
    assert(s.absorb_all(rebuilt, now) == (s, Seq::<AssembledModel>::empty()));
    let (end, f) = s.absorb(h.stream_id, h.media_seq, wire, now);
    assert(end.tracks.dom() =~= m.tracks.dom());
    if let Some(f) = f {
        assert(Seq::<AssembledModel>::empty().push(f) =~= seq![f]);
    }
}

proof fn lemma_states(
    states: Seq<SessionModel>,
    outs: Seq<ReceivedModel>,
    wires: Seq<Seq<u8>>,
    times: Seq<Instant>,
    packets: Seq<PacketModel>,
    numbers: Seq<u16>,
    order: Seq<int>,
    stream_id: u8,
    k: int,
)
    requires
        receives(states, outs, wires, times),
        0 <= k <= wires.len(),
        wires.len() == packets.len(),
        order.len() == packets.len(),
        forall|i: int| 0 <= i < order.len() ==> 0 <= #[trigger] order[i] < order.len(),
        forall|i: int|
            0 <= i < packets.len() ==> (#[trigger] packets[i]).valid() && packets[i] is Media
                && packets[i].header().stream_id == stream_id && packets[i].header().ttl_ms > 0,
        forall|i: int|
            0 <= i < wires.len() ==> #[trigger] wires[i] == feedback::stamped(
                packets[order[i]].wire(),
                numbers[i],
            ),
        states[0].fec_rx.fec.len() == 0,
        states[0].has(stream_id),
    ensures
        states[k].fec_rx.fec.len() == 0,
        states[k].has(stream_id),
        states[k].reasm == reassembly::after(states[0].reasm, packets, order, k),
    decreases k,
{
    if k > 0 {
        lemma_states(states, outs, wires, times, packets, numbers, order, stream_id, k - 1);
        let p = packets[order[k - 1]];
        assert(wires[k - 1] == feedback::stamped(p.wire(), numbers[k - 1]));
        lemma_media_step(states[k - 1], p, numbers[k - 1], times[k - 1]);
    }
}

/// What a sender takes in, a receiver gives out. The fragments of a frame, as
/// track `t` splits it and the sender numbers them, arrive in any order: the
/// last to arrive completes the frame, with every byte in place, and those
/// before it ask nothing of the host.
pub proof fn lemma_frame_arrives(
    t: TrackModel,
    f: EncodedModel,
    ttl_ms: u16,
    limits: PayloadSizeLimits,
    numbers: Seq<u16>,
    order: Seq<int>,
    states: Seq<SessionModel>,
    outs: Seq<ReceivedModel>,
    wires: Seq<Seq<u8>>,
    times: Seq<Instant>,
)
    requires
        receives(states, outs, wires, times),
        ttl_ms > 0,
        states[0].wf(),
        states[0].has(f.stream_id),
        states[0].fec_rx.fec.len() == 0,
        !states[0].reasm.frames.contains_key(stream_key(f.stream_id, t.next_frame_id)),
        !states[0].reasm.completed.contains(stream_key(f.stream_id, t.next_frame_id)),
        fragment::fragments(f.payload, t.frame_params(f, ttl_ms), limits) is Ok,
        order.no_duplicates(),
        order.len() == wires.len(),
        forall|i: int| 0 <= i < order.len() ==> 0 <= #[trigger] order[i] < order.len(),
        ({
            let packets = fragment::fragments(f.payload, t.frame_params(f, ttl_ms), limits)->Ok_0;
            &&& wires.len() == packets.len()
            &&& forall|i: int|
                0 <= i < wires.len() ==> #[trigger] wires[i] == feedback::stamped(
                    packets[order[i]].wire(),
                    numbers[i],
                )
        }),
    ensures
        wires.len() > 0,
        forall|k: int|
            0 <= k < wires.len() - 1 ==> #[trigger] outs[k] == ReceivedModel::nothing(),
        outs[wires.len() - 1] == ReceivedModel::only_frames(
            seq![
                AssembledModel {
                    stream_id: f.stream_id,
                    frame_id: t.next_frame_id,
                    timestamp: f.timestamp,
                    flags: t.frame_params(f, ttl_ms).flags,
                    first_media_seq: Some(t.next_media_seq),
                    payload: f.payload,
                },
            ],
        ),
{
    let params = t.frame_params(f, ttl_ms);
    let packets = fragment::fragments(f.payload, params, limits)->Ok_0;
    let n = packets.len() as int;
    assert forall|i: int| 0 <= i < packets.len() implies (#[trigger] packets[i]).valid()
        && packets[i] is Media && packets[i].header().stream_id == f.stream_id
        && packets[i].header().ttl_ms > 0 by {
        fragment::lemma_fragments_valid(f.payload, params, limits, i);
    }
    let m = states[0].reasm;
    reassembly::lemma_reassembly(m, f.payload, params, limits, order);
    assert forall|k: int| 0 <= k < n implies ({
        let r = reassembly::after(m, packets, order, k).push(packets[order[k]]).1;
        match r {
            Ok(OutcomeModel::Assembled(a)) => #[trigger] outs[k] == ReceivedModel::only_frames(
                seq![a],
            ),
            _ => outs[k] == ReceivedModel::nothing(),
        }
    }) by {
        lemma_states(states, outs, wires, times, packets, numbers, order, f.stream_id, k);
        let p = packets[order[k]];
        assert(wires[k] == feedback::stamped(p.wire(), numbers[k]));
        lemma_media_step(states[k], p, numbers[k], times[k]);
    }
    assert forall|k: int| 0 <= k < n - 1 implies #[trigger] outs[k] == ReceivedModel::nothing() by {
        assert(reassembly::after(m, packets, order, k).push(packets[order[k]]).1 is Ok);
    }
    assert(n > 0);
    assert(outs[n - 1] == outs[n - 1]);
}

/// The state once the first `k` media datagrams in `list`, received or rebuilt,
/// were taken in at `times`.
pub open spec fn intake(
    m: SessionModel,
    list: Seq<RecoveredModel>,
    times: Seq<Instant>,
    k: int,
) -> SessionModel
    decreases k,
{
    if k <= 0 {
        m
    } else {
        let r = list[k - 1];
        intake(m, list, times, k - 1).absorb(
            r.stream_id,
            r.media_seq,
            r.wire,
            times[k - 1],
        ).0
    }
}

/// The packets that datagrams carry.
pub open spec fn carried(list: Seq<RecoveredModel>) -> Seq<PacketModel> {
    list.map_values(|r: RecoveredModel| PacketModel::parse(r.wire)->Ok_0)
}

proof fn lemma_intake(m: SessionModel, list: Seq<RecoveredModel>, times: Seq<Instant>, k: int)
    requires
        0 <= k <= list.len(),
        forall|i: int| 0 <= i < list.len() ==> PacketModel::parse((#[trigger] list[i]).wire) is Ok,
    ensures
        intake(m, list, times, k).reasm == reassembly::taken(m.reasm, carried(list), k),
        intake(m, list, times, k).tracks.dom() == m.tracks.dom(),
    decreases k,
{
    if k > 0 {
        lemma_intake(m, list, times, k - 1);
        let s = intake(m, list, times, k - 1);
        let r = list[k - 1];
        assert(carried(list)[k - 1] == PacketModel::parse(r.wire)->Ok_0);
        assert(intake(m, list, times, k).tracks.dom() =~= s.tracks.dom());
    }
}

/// What a sender takes in, a receiver gives out, with loss, repetition and
/// reordering on the way. Whatever media a receiver takes in, received,
/// received again or rebuilt from parity: the datagram that brings the last
/// missing fragment of a frame, as track `t` split it, gives the frame, with
/// every byte in place. No datagram before it does.
pub proof fn lemma_frame_recovers(
    t: TrackModel,
    f: EncodedModel,
    ttl_ms: u16,
    limits: PayloadSizeLimits,
    m: SessionModel,
    list: Seq<RecoveredModel>,
    times: Seq<Instant>,
)
    requires
        m.wf(),
        m.has(f.stream_id),
        list.len() > 0,
        fragment::fragments(f.payload, t.frame_params(f, ttl_ms), limits) is Ok,
        forall|i: int| 0 <= i < list.len() ==> PacketModel::parse((#[trigger] list[i]).wire) is Ok,
        ({
            let key = stream_key(f.stream_id, t.next_frame_id);
            let fragments = fragment::fragments(f.payload, t.frame_params(f, ttl_ms), limits)->Ok_0;
            let packets = carried(list);
            let n = list.len() as int;
            &&& !m.reasm.frames.contains_key(key)
            &&& !m.reasm.completed.contains(key)
            &&& reassembly::only_fragments(packets, key, fragments)
            &&& reassembly::stays(m.reasm, packets, key)
            &&& reassembly::of_frame(packets.last(), key)
            &&& !reassembly::occurs(
                packets,
                key,
                n - 1,
                packets.last().header().frag_index as int,
            )
            &&& forall|i: int|
                0 <= i < fragments.len() && i != packets.last().header().frag_index
                    ==> #[trigger] reassembly::occurs(packets, key, n - 1, i)
        }),
    ensures
        ({
            let key = stream_key(f.stream_id, t.next_frame_id);
            let n = list.len() as int;
            let r = list[n - 1];
            let out = intake(m, list, times, n - 1).absorb(
                r.stream_id,
                r.media_seq,
                r.wire,
                times[n - 1],
            ).1;
            &&& out matches Some(a) && a == (AssembledModel {
                stream_id: f.stream_id,
                frame_id: t.next_frame_id,
                timestamp: f.timestamp,
                flags: Flags { retrans: a.flags.retrans, ..t.frame_params(f, ttl_ms).flags },
                first_media_seq: Some(t.next_media_seq),
                payload: f.payload,
            })
            &&& forall|j: int|
                0 <= j < n - 1 && reassembly::of_frame(#[trigger] carried(list)[j], key) ==> intake(
                    m,
                    list,
                    times,
                    j,
                ).absorb(list[j].stream_id, list[j].media_seq, list[j].wire, times[j]).1 is None
        }),
{
    let params = t.frame_params(f, ttl_ms);
    let packets = carried(list);
    let n = list.len() as int;
    reassembly::lemma_completion(m.reasm, f.payload, params, limits, packets);
    lemma_intake(m, list, times, n - 1);
    let s = intake(m, list, times, n - 1);
    let r = list[n - 1];
    assert(packets[n - 1] == PacketModel::parse(r.wire)->Ok_0);
    assert(s.has(f.stream_id));
    let key = stream_key(f.stream_id, t.next_frame_id);
    assert forall|j: int| 0 <= j < n - 1 && reassembly::of_frame(
        #[trigger] carried(list)[j],
        key,
    ) implies intake(m, list, times, j).absorb(
        list[j].stream_id,
        list[j].media_seq,
        list[j].wire,
        times[j],
    ).1 is None by {
        lemma_intake(m, list, times, j);
        assert(packets[j] == PacketModel::parse(list[j].wire)->Ok_0);
        assert(PacketModel::parse(list[j].wire) is Ok);
    }
}

/// A numbered datagram differs from what it was in its number at most, so
/// parity that was made before datagrams are numbered still makes up for lost
/// ones.
pub proof fn lemma_numbered_alike(wire: Seq<u8>, seq: u16)
    requires
        packet::parse_header(wire) is Ok,
    ensures
        fec::alike(feedback::stamped(wire, seq), wire),
{
    let h = packet::parse_header(wire)->Ok_0;
    let h2 = Header { transport_seq: seq, ..h };
    packet::lemma_parsed_header(wire);
    packet::lemma_header_bytes_round_trip(wire);
    let a = packet::header_bytes(h2);
    let b = packet::header_bytes(h);
    assert forall|i: int| 0 <= i < HEADER_SIZE && i != 4 && i != 5 implies #[trigger] a[i]
        == b[i] by {}
    let s = feedback::stamped(wire, seq);
    assert forall|i: int| 0 <= i < s.len() && i != 4 && i != 5 implies #[trigger] s[i]
        == wire[i] by {
        if i < HEADER_SIZE {
            assert(a[i] == b[i]);
            assert(wire.take(HEADER_SIZE as int)[i] == wire[i]);
        }
    }
}

/// What parity makes up for a lost fragment is taken in as that fragment.
pub proof fn lemma_rebuilt_fragment(wire: Seq<u8>, p: PacketModel)
    requires
        p.valid(),
        p is Media,
        fec::alike(wire, p.wire()),
    ensures
        PacketModel::parse(wire) is Ok,
        reassembly::same_fragment(PacketModel::parse(wire)->Ok_0, p),
{
    packet::lemma_packet_round_trip(p);
    fec::lemma_alike(wire, p.wire());
}

/// A row that can rebuild a datagram rebuilds just that one when it is the
/// only row at hand.
proof fn lemma_one_row(media: MediaMap, row: RowModel)
    requires
        row.rebuilt(media) is Some,
    ensures
        fec::recover_all(media, seq![row]).1 == seq![row.rebuilt(media)->0],
{
    let x = row.rebuilt(media)->0;
    let rows = seq![row];
    let m1 = media.insert(fec::recovered_key(x), x.wire);
    assert(fec::pass(media, rows, 0) == (media, Seq::<RecoveredModel>::empty()));
    assert(fec::pass(media, rows, 1) == (m1, seq![x])) by {
        assert(Seq::<RecoveredModel>::empty().push(x) =~= seq![x]);
    }
    lemma_filled_row(media, row);
    assert(fec::pass(m1, rows, 0) == (m1, Seq::<RecoveredModel>::empty()));
    assert(fec::pass(m1, rows, 1) == (m1, Seq::<RecoveredModel>::empty()));
    assert(fec::recover_all(m1, rows) == (m1, Seq::<RecoveredModel>::empty()));
    assert(seq![x] + Seq::<RecoveredModel>::empty() =~= seq![x]);
}

/// Once the missing datagram is at hand, a row has nothing left to rebuild.
proof fn lemma_filled_row(media: MediaMap, row: RowModel)
    requires
        row.rebuilt(media) is Some,
    ensures
        ({
            let x = row.rebuilt(media)->0;
            row.rebuilt(media.insert(fec::recovered_key(x), x.wire)) is None
        }),
{
    let x = row.rebuilt(media)->0;
    let m1 = media.insert(fec::recovered_key(x), x.wire);
    let k = MAX_MEDIA_PACKETS as int;
    let hole = row.holes(media, k)[0];
    assert(fec::recovered_key(x) == row.key(hole));
    lemma_holes_filled(row, media, m1, hole, k);
}

proof fn lemma_holes_filled(row: RowModel, media: MediaMap, m1: MediaMap, hole: int, k: int)
    requires
        m1.contains_key(row.key(hole)),
        forall|a: u64| #[trigger] media.contains_key(a) ==> m1.contains_key(a),
        row.holes(media, k).len() <= 1,
        row.holes(media, k).len() == 1 ==> row.holes(media, k)[0] == hole,
    ensures
        row.holes(m1, k).len() == 0,
    decreases k,
{
    if k > 0 {
        let front = row.holes(media, k - 1);
        if row.covers(k - 1) && !media.contains_key(row.key(k - 1)) {
            assert(row.holes(media, k) == front.push(k - 1));
            assert(front.len() == 0);
            assert(row.holes(media, k)[0] == k - 1);
        }
        lemma_holes_filled(row, media, m1, hole, k - 1);
    }
}

/// Parity makes up for a lost datagram. A receiver that holds all but one of
/// the datagrams under a row, as the sender numbered them, takes the missing
/// one in when the row arrives, in all but its number.
pub proof fn lemma_parity_repairs(
    m: SessionModel,
    datagram: Seq<u8>,
    now: Instant,
    g: GeneratorModel,
    r: int,
    hole: int,
)
    requires
        m.fec_rx.wf(),
        m.fec_rx.fec.len() == 0,
        PacketModel::parse(datagram) matches Ok(p) && p is Fec && p.header().ttl_ms > 0
            && fec::row_of(p) == fec::row_of(fec::block_row(g, r)),
        g.wf(),
        0 <= r < fec::row_count(g.block.len() as int, g.fec_rate as int),
        0 <= hole < MAX_MEDIA_PACKETS,
        fec::block_row_members(g, r)(hole) is Some,
        fec::block_row_members(g, r)(hole)->0.len() <= 0xffff,
        !m.fec_rx.media.contains_key(fec::row_of(fec::block_row(g, r)).key(hole)),
        forall|b: int|
            #![trigger fec::block_row_members(g, r)(b)]
            0 <= b < MAX_MEDIA_PACKETS && b != hole && fec::block_row_members(g, r)(b) is Some
                ==> m.fec_rx.media.contains_key(fec::row_of(fec::block_row(g, r)).key(b))
                && fec::alike(
                m.fec_rx.media[fec::row_of(fec::block_row(g, r)).key(b)],
                fec::block_row_members(g, r)(b)->0,
            ),
    ensures
        exists|x: RecoveredModel|
            {
                &&& #[trigger] fec::alike(x.wire, fec::block_row_members(g, r)(hole)->0)
                &&& x.stream_id == g.stream_id
                &&& x.media_seq == seqs::seq_add(
                    fec::base_of(fec::block_seqs(g.block))->0,
                    hole,
                )
                &&& ({
                    let (after, out) = m.handle(datagram, now);
                    (after, out.frames) == (SessionModel {
                        fec_rx: after.fec_rx,
                        arrivals: after.arrivals,
                        ..m
                    }).absorb_all(seq![x], now)
                })
            },
{
    let p = PacketModel::parse(datagram)->Ok_0;
    let row = fec::row_of(p);
    let noted = SessionModel {
        arrivals: m.arrivals.noted(p.header().transport_seq, now),
        ..m
    };
    let (fec_rx, rebuilt) = m.fec_rx.take_row(row);
    fec::lemma_row_rebuilds_numbered(g, r, m.fec_rx.media, hole);
    assert(m.fec_rx.with_row(row).fec =~= seq![row]);
    lemma_one_row(m.fec_rx.media, row);
    let x = row.rebuilt(m.fec_rx.media)->0;
    assert(rebuilt == seq![x]);
    let s = SessionModel { fec_rx, ..noted };
    lemma_absorb_keeps(s, rebuilt, now);
    let after = m.handle(datagram, now).0;
    assert(SessionModel { fec_rx: after.fec_rx, arrivals: after.arrivals, ..m } == s);
    assert(fec::alike(x.wire, fec::block_row_members(g, r)(hole)->0));
}

/// Taking media in leaves recovery, the record of arrivals and the numbers
/// alone.
proof fn lemma_absorb_keeps(m: SessionModel, rebuilt: Seq<RecoveredModel>, now: Instant)
    ensures
        m.absorb_all(rebuilt, now).0.fec_rx == m.fec_rx,
        m.absorb_all(rebuilt, now).0.arrivals == m.arrivals,
        m.absorb_all(rebuilt, now).0.next_seq == m.next_seq,
    decreases rebuilt.len(),
{
    if rebuilt.len() > 0 {
        lemma_absorb_keeps(m, rebuilt.drop_last(), now);
    }
}

/// A datagram that leaves was not past its deadline, and carries the next
/// transport sequence number.
pub proof fn lemma_departure(m: SessionModel, now: Instant)
    requires
        m.wf(),
        m.departed(now).1 is Some,
    ensures
        m.pacer.poll(now).1 is Some,
        !m.pacer.poll(now).1->0.expired(now),
        packet::parse_header(m.departed(now).1->0) is Ok,
        packet::parse_header(m.departed(now).1->0)->Ok_0.transport_seq == m.next_seq,
        m.departed(now).0.next_seq == seqs::seq_add(m.next_seq, 1),
        m.departed(now).1->0 == feedback::stamped(m.pacer.poll(now).1->0.wire, m.next_seq),
{
    let s = m.pacer.advanced(now);
    send_queue::lemma_pop_order(s.queue, now);
    session::lemma_departed(m, now);
}

/// A send queue that takes long, or more in flight than the window allows, takes
/// the rate of the encoders below the estimated one; otherwise the two are the
/// same.
pub proof fn lemma_pushback(m: SessionModel)
    requires
        m.bwe.target >= 2,
    ensures
        m.encoder_target() <= m.bwe.target,
        m.encoder_target() < m.bwe.target <==> m.queue_delay().nanos > 250_000_000 || (m.window
            matches Some(w) && m.sent.in_flight() > w),
{
}

/// A call of a session that changes it. Where the order of the tracks is left
/// open, the call names the one that was taken.
pub enum SessionStep {
    /// A track was registered.
    Register(TrackConfig),
    /// A track was removed.
    Remove(u8),
    /// The round-trip time was set.
    Rtt(Duration),
    /// The congestion window was set.
    Window(Option<usize>),
    /// A frame was handed in.
    Frame(EncodedModel, Instant),
    /// A stream was polled for a frame.
    PollFrame(u8, Instant),
    /// The streams were polled for a frame.
    PollAny(Seq<u8>, Instant),
    /// The streams were pumped.
    Pump(Seq<u8>, Instant),
    /// A datagram was received.
    Datagram(Seq<u8>, Instant),
    /// A complete frame was handed to playout.
    Deliver(AssembledModel, Instant, Duration),
    /// A delay sample went through the rate control.
    Trend(TrendSignal, Duration),
    /// The delay went into the rate.
    Aimd(Instant, u64, u64),
    /// The loss went into the rate.
    Loss(Instant, Option<u64>),
    /// A new rate was put in force.
    Rate(u64),
    /// The session was polled for a datagram.
    Poll(Seq<u64>, Instant),
}

impl SessionStep {
    /// The state after the call, where it sets something or moves the rate.
    #[verifier::opaque]
    pub open spec fn adjusted(self, m: SessionModel) -> SessionModel {
        match self {
            SessionStep::Register(c) => if m.has(c.stream_id) {
                m
            } else {
                SessionModel {
                    tracks: m.tracks.insert(c.stream_id as u64, TrackModel::start(c, m.rtt)),
                    ..m
                }
            },
            SessionStep::Remove(id) => SessionModel {
                tracks: m.tracks.remove(id as u64),
                reasm: m.reasm.without_stream(id),
                ..m
            },
            SessionStep::Rtt(rtt) => m.timed(rtt),
            SessionStep::Window(window) => SessionModel { window, ..m },
            SessionStep::Trend(signal, delta) => SessionModel {
                bwe: BweModel { detector: m.bwe.detector.after(signal, delta), ..m.bwe },
                ..m
            },
            SessionStep::Aimd(now, acked, grown) => SessionModel {
                bwe: m.bwe.aimd_applied(now, acked, grown),
                ..m
            },
            SessionStep::Loss(now, reduced) => SessionModel {
                bwe: m.bwe.loss_applied(now, reduced),
                ..m
            },
            SessionStep::Rate(scaled) => m.rated(scaled),
            _ => m,
        }
    }

    /// The state after the call, where frames go in or out.
    #[verifier::opaque]
    pub open spec fn played(self, m: SessionModel) -> SessionModel {
        match self {
            SessionStep::Deliver(f, now, smoothed) => m.delivered(f, now, smoothed),
            SessionStep::PollFrame(id, now) => m.poll_frame(id, now).0,
            SessionStep::PollAny(ids, now) => m.first_frame(ids, now).0,
            SessionStep::Pump(ids, now) => m.pumped(ids, now).0,
            _ => m,
        }
    }

    /// The state after the call, where a frame or a datagram goes in.
    #[verifier::opaque]
    pub open spec fn fed(self, m: SessionModel) -> SessionModel {
        match self {
            SessionStep::Frame(f, now) => m.enqueue_frame(f, now).0,
            SessionStep::Datagram(d, now) => m.handle(d, now).0,
            _ => m,
        }
    }

    /// The state after the call, and the datagram that left.
    pub open spec fn taken(self, m: SessionModel) -> (SessionModel, Option<Seq<u8>>) {
        match self {
            SessionStep::Poll(ids, now) => m.maintained(ids, now).departed(now),
            SessionStep::Frame(..) | SessionStep::Datagram(..) => (self.fed(m), None),
            SessionStep::Deliver(..) | SessionStep::PollFrame(..) | SessionStep::PollAny(..)
            | SessionStep::Pump(..) => (self.played(m), None),
            _ => (self.adjusted(m), None),
        }
    }

    /// Whether the call takes a number just where a datagram leaves, and that
    /// datagram carries it.
    pub open spec fn numbered(self, m: SessionModel) -> bool {
        let (after, out) = self.taken(m);
        match out {
            Some(w) => {
                &&& packet::parse_header(w) is Ok
                &&& packet::parse_header(w)->Ok_0.transport_seq == m.next_seq
                &&& after.next_seq == seqs::seq_add(m.next_seq, 1)
            },
            None => after.next_seq == m.next_seq,
        }
    }
}

/// The state of a new session after calls, and the datagrams that left.
pub open spec fn run(config: QrtConfig, steps: Seq<SessionStep>) -> (SessionModel, Seq<Seq<u8>>)
    decreases steps.len(),
{
    if steps.len() == 0 {
        (SessionModel::start(config), Seq::empty())
    } else {
        let (m, wires) = run(config, steps.drop_last());
        let (after, out) = steps.last().taken(m);
        (
            after,
            match out {
                Some(w) => wires.push(w),
                None => wires,
            },
        )
    }
}

proof fn lemma_pump_keeps(m: SessionModel, stream_id: u8, now: Instant)
    requires
        m.wf(),
    ensures
        m.pump_track(stream_id, now).0.wf(),
        m.pump_track(stream_id, now).0.next_seq == m.next_seq,
    decreases m.held(stream_id),
{
    session::lemma_poll_frame(m, stream_id, now);
    let (after, f) = m.poll_frame(stream_id, now);
    if f is Some {
        lemma_pump_keeps(after, stream_id, now);
    }
}

proof fn lemma_pumped_keeps(m: SessionModel, ids: Seq<u8>, now: Instant)
    requires
        m.wf(),
    ensures
        m.pumped(ids, now).0.wf(),
        m.pumped(ids, now).0.next_seq == m.next_seq,
    decreases ids.len(),
{
    if ids.len() > 0 {
        lemma_pumped_keeps(m, ids.drop_last(), now);
        lemma_pump_keeps(m.pumped(ids.drop_last(), now).0, ids.last(), now);
    }
}

proof fn lemma_first_keeps(m: SessionModel, ids: Seq<u8>, now: Instant)
    ensures
        m.first_frame(ids, now).0.next_seq == m.next_seq,
    decreases ids.len(),
{
    if ids.len() > 0 {
        lemma_first_keeps(m.poll_frame(ids[0], now).0, ids.skip(1), now);
    }
}

proof fn lemma_handle_keeps(m: SessionModel, datagram: Seq<u8>, now: Instant)
    requires
        m.sendable(),
    ensures
        m.handle(datagram, now).0.next_seq == m.next_seq,
{
    if let Ok(p) = PacketModel::parse(datagram) {
        let h = p.header();
        let n = SessionModel { arrivals: m.arrivals.noted(h.transport_seq, now), ..m };
        match p {
            PacketModel::Media { .. } => {
                let (fec_rx, rebuilt) = n.fec_rx.take_media(h.stream_id, h.media_seq, datagram);
                lemma_absorb_keeps(SessionModel { fec_rx, ..n }, rebuilt, now);
            },
            PacketModel::Fec { .. } => {
                let (fec_rx, rebuilt) = n.fec_rx.take_row(fec::row_of(p));
                lemma_absorb_keeps(SessionModel { fec_rx, ..n }, rebuilt, now);
            },
            PacketModel::Nack { base_seq, blp, .. } => {
                session::lemma_answered(n, h.stream_id, seqs::missing((base_seq, blp)), now);
            },
            _ => {},
        }
    }
}

proof fn lemma_adjusted_number(m: SessionModel, step: SessionStep)
    ensures
        step.adjusted(m).next_seq == m.next_seq,
{
    reveal(SessionStep::adjusted);
}

proof fn lemma_played_number(m: SessionModel, step: SessionStep)
    requires
        m.wf(),
    ensures
        step.played(m).next_seq == m.next_seq,
{
    reveal(SessionStep::played);
    match step {
        SessionStep::PollAny(ids, now) => lemma_first_keeps(m, ids, now),
        SessionStep::Pump(ids, now) => lemma_pumped_keeps(m, ids, now),
        _ => {},
    }
}

proof fn lemma_fed_number(m: SessionModel, step: SessionStep)
    requires
        m.sendable(),
    ensures
        step.fed(m).next_seq == m.next_seq,
{
    reveal(SessionStep::fed);
    match step {
        SessionStep::Frame(f, now) => session::lemma_enqueue_frame(m, f, now),
        SessionStep::Datagram(d, now) => lemma_handle_keeps(m, d, now),
        _ => {},
    }
}

/// Only a datagram that leaves takes a number.
proof fn lemma_step_number(m: SessionModel, step: SessionStep)
    requires
        m.wf(),
    ensures
        step.numbered(m),
{
    lemma_adjusted_number(m, step);
    lemma_played_number(m, step);
    lemma_fed_number(m, step);
    if let SessionStep::Poll(ids, now) = step {
        session::lemma_maintained(m, ids, now);
        session::lemma_departed(m.maintained(ids, now), now);
    }
}

/// One counter numbers all that leaves: over any run of calls of a session,
/// whatever the datagrams are, the first to leave carries 0, and each one more
/// than the one before, round the circle; there is no gap and no repetition.
pub proof fn lemma_numbering(config: QrtConfig, steps: Seq<SessionStep>, k: int)
    requires
        forall|n: int| 0 <= n < steps.len() ==> run(config, #[trigger] steps.take(n)).0.wf(),
        0 <= k < run(config, steps).1.len(),
    ensures
        packet::parse_header(run(config, steps).1[k]) is Ok,
        packet::parse_header(run(config, steps).1[k])->Ok_0.transport_seq == k % 0x1_0000,
{
    lemma_numbers(config, steps);
}

proof fn lemma_numbers(config: QrtConfig, steps: Seq<SessionStep>)
    requires
        forall|n: int| 0 <= n < steps.len() ==> run(config, #[trigger] steps.take(n)).0.wf(),
    ensures
        ({
            let (m, wires) = run(config, steps);
            &&& m.next_seq == wires.len() % 0x1_0000
            &&& forall|k: int|
                0 <= k < wires.len() ==> packet::parse_header(#[trigger] wires[k]) is Ok
                    && packet::parse_header(wires[k])->Ok_0.transport_seq == k % 0x1_0000
        }),
    decreases steps.len(),
{
    if steps.len() > 0 {
        let front = steps.drop_last();
        assert(steps.take(front.len() as int) =~= front);
        assert forall|n: int| 0 <= n < front.len() implies run(
            config,
            #[trigger] front.take(n),
        ).0.wf() by {
            assert(front.take(n) =~= steps.take(n));
        }
        lemma_numbers(config, front);
        let (m, wires) = run(config, front);
        lemma_step_number(m, steps.last());
        lemma_next_number(wires.len(), m.next_seq);
    }
}

proof fn lemma_next_number(n: nat, seq: u16)
    requires
        seq == n % 0x1_0000,
    ensures
        seqs::seq_add(seq, 1) == (n + 1) % 0x1_0000,
{
}

/// Media that arrived, or was rebuilt from parity, is not asked for again.
pub proof fn lemma_not_asked_again(
    m: SessionModel,
    stream_id: u8,
    media_seq: u16,
    wire: Seq<u8>,
    now: Instant,
    later: Instant,
)
    requires
        m.has(stream_id),
    ensures
        ({
            let t = m.absorb(stream_id, media_seq, wire, now).0.tracks[stream_id as u64];
            &&& !t.nack.pending.contains_key(media_seq)
            &&& !t.nack.asked(later).contains(media_seq)
        }),
{
    nack::lemma_arrived_not_missing(m.tracks[stream_id as u64].nack, media_seq, now, later);
}

/// A frame that is refused queues nothing.
pub proof fn lemma_refused_frame(m: SessionModel, f: EncodedModel, now: Instant)
    requires
        m.enqueue_frame(f, now).1 is Err,
    ensures
        m.enqueue_frame(f, now).0.pacer == m.pacer,
{
}

/// Tracks do not touch one another: frames handed in, media taken in, frames
/// delivered and frames given out on one stream leave the tracks of the others
/// as they are.
pub proof fn lemma_tracks_apart(
    m: SessionModel,
    f: EncodedModel,
    media_seq: u16,
    wire: Seq<u8>,
    done: AssembledModel,
    smoothed: Duration,
    now: Instant,
    other: u8,
)
    requires
        m.has(other),
        other != f.stream_id,
        done.stream_id == f.stream_id,
    ensures
        ({
            let k = other as u64;
            let t = m.tracks[k];
            &&& m.enqueue_frame(f, now).0.tracks[k] == t
            &&& m.absorb(f.stream_id, media_seq, wire, now).0.tracks[k] == t
            &&& m.delivered(done, now, smoothed).tracks[k] == t
            &&& m.poll_frame(f.stream_id, now).0.tracks[k] == t
        }),
{
}

/// The encoders together get no more than the rate, unless it is too small for
/// the least that audio gets.
pub proof fn lemma_shares(target_bps: u64, video_tracks: nat, audio_tracks: nat)
    requires
        target_bps >= 16_000 || audio_tracks == 0,
    ensures
        video_tracks * session::share(target_bps, video_tracks, audio_tracks, MediaKind::Video)
            + audio_tracks * session::share(target_bps, video_tracks, audio_tracks, MediaKind::Audio)
            <= target_bps,
{
    let audio = session::audio_budget(target_bps, audio_tracks);
    let rest = target_bps - audio;
    let a = session::share(target_bps, video_tracks, audio_tracks, MediaKind::Audio);
    let v = session::share(target_bps, video_tracks, audio_tracks, MediaKind::Video);
    assert(0 <= audio <= target_bps);
    if audio_tracks > 0 {
        vstd::arithmetic::div_mod::lemma_fundamental_div_mod(audio, audio_tracks as int);
        vstd::arithmetic::div_mod::lemma_mod_bound(audio, audio_tracks as int);
        assert(audio_tracks * a <= audio);
    } else {
        assert(audio_tracks * a == 0) by (nonlinear_arith)
            requires
                audio_tracks == 0,
        ;
    }
    if video_tracks > 0 {
        vstd::arithmetic::div_mod::lemma_fundamental_div_mod(rest, video_tracks as int);
        vstd::arithmetic::div_mod::lemma_mod_bound(rest, video_tracks as int);
        assert(video_tracks * v <= rest);
    } else {
        assert(video_tracks * v == 0) by (nonlinear_arith)
            requires
                video_tracks == 0,
        ;
    }
}

} // verus!
