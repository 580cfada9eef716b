//! What parity rows protect, and what they bring back.

use crate::bits;
use crate::codec::EncodedModel;
use crate::fec;
use crate::fec::{Block, GeneratorModel, MediaMap, ReceiverModel, RecoveredModel, RowModel};
use crate::fragment;
use crate::fragment::{FragmentParams, PayloadSizeLimits};
use crate::laws::frames;
use crate::laws::sessions;
use crate::packet;
use crate::packet::{PacketModel, PacketType};
use crate::parity;
use crate::session::SessionModel;
use crate::table;
use crate::time::Instant;
use crate::track;
use vstd::prelude::*;

verus! {

/// How many rows protect a block: as many as the rate says of 256, to the
/// nearest, but at least one and at most one for each datagram; none at rate
/// zero.
pub proof fn lemma_row_number(num_media: int, fec_rate: int)
    requires
        num_media >= 0,
        0 <= fec_rate <= 255,
    ensures
        ({
            let n = fec::row_count(num_media, fec_rate);
            let exact = num_media * fec_rate;
            &&& num_media == 0 || fec_rate == 0 ==> n == 0
            &&& num_media > 0 && fec_rate > 0 ==> {
                &&& 1 <= n <= num_media
                &&& 256 * n <= exact + 128 || n == 1
                &&& exact + 128 < 256 * n + 256 || n == num_media
            }
        }),
{
    let exact = num_media * fec_rate;
    if num_media > 0 && fec_rate > 0 {
        assert(exact >= 0) by (nonlinear_arith)
            requires
                exact == num_media * fec_rate,
                num_media > 0,
                fec_rate > 0,
        ;
    }
}

/// The datagram at its position in the window is the one that was pushed last
/// under its number.
proof fn lemma_at_position(block: Block, base: u16, i: int)
    requires
        0 <= i < block.len(),
        forall|j: int| i < j < block.len() ==> (#[trigger] block[j]).0 != block[i].0,
    ensures
        fec::wire_at(block, base, (block[i].0 - base) % 0x1_0000) == Some(block[i].1),
    decreases block.len(),
{
    if i < block.len() - 1 {
        let front = block.drop_last();
        assert(front[i] == block[i]);
        assert forall|j: int| i < j < front.len() implies (#[trigger] front[j]).0 != front[i].0 by {
            assert(front[j] == block[j]);
        }
        assert(block[block.len() - 1].0 != block[i].0);
        lemma_at_position(front, base, i);
    }
}

/// Whether row `r` over a block covers the number `seq`.
pub open spec fn covered(g: GeneratorModel, r: int, seq: u16) -> bool {
    let row = fec::block_row(g, r);
    let d = (seq - row->seq_base) % 0x1_0000;
    d < 48 && (row->mask >> (d as u64)) & 1u64 == 1u64
}

/// Every datagram of a block is covered by one of the rows that are given out,
/// and by no other.
pub proof fn lemma_protected(g: GeneratorModel, i: int)
    requires
        g.wf(),
        g.fec_rate > 0,
        0 <= i < g.block.len(),
        forall|j: int| i < j < g.block.len() ==> (#[trigger] g.block[j]).0 != g.block[i].0,
    ensures
        exists|r: int|
            {
                &&& 0 <= r < fec::row_count(g.block.len() as int, g.fec_rate as int)
                &&& #[trigger] covered(g, r, g.block[i].0)
                &&& g.rows().contains(fec::block_row(g, r))
                &&& fec::block_row_members(g, r)(
                    (g.block[i].0 - fec::block_row(g, r)->seq_base) % 0x1_0000,
                ) == Some(g.block[i].1)
                &&& forall|o: int|
                    0 <= o < fec::row_count(g.block.len() as int, g.fec_rate as int) && o != r
                        ==> !#[trigger] covered(g, o, g.block[i].0)
            },
{
    let n = fec::row_count(g.block.len() as int, g.fec_rate as int);
    lemma_row_number(g.block.len() as int, g.fec_rate as int);
    let seqs = fec::block_seqs(g.block);
    let base = fec::base_of(seqs)->0;
    assert(seqs[i] == g.block[i].0);
    fec::lemma_base_fits(seqs, 0);
    let d = (g.block[i].0 - base) % 0x1_0000;
    assert(fec::bit_of(seqs[i], base) < fec::MAX_MEDIA_PACKETS);
    lemma_at_position(g.block, base, i);
    let r = fec::rank(g.block, base, d) as int % n;
    vstd::arithmetic::div_mod::lemma_mod_bound(fec::rank(g.block, base, d) as int, n);
    assert forall|o: int| 0 <= o < n implies #[trigger] covered(g, o, g.block[i].0) == (o == r) by {
        let sel = fec::row_members(g.block, base, n, o);
        parity::lemma_mask_of(sel, 48);
        assert(bits::bit64(parity::mask_of(sel, 48), d) <==> sel(d) is Some);
    }
    assert(covered(g, r, g.block[i].0));
    let sel = fec::row_members(g.block, base, n, r);
    assert(parity::mask_of(sel, fec::MAX_MEDIA_PACKETS as int) != 0) by {
        parity::lemma_mask_of(sel, 48);
        assert(bits::bit64(parity::mask_of(sel, 48), d));
        bits::lemma_zero64();
    }
    fec::lemma_row_listed(g.stream_id, g.block, n, n, r);
}

/// Rows take turns: of two datagrams that follow one another in a block, no row
/// covers both, where there is more than one row.
pub proof fn lemma_turns(block: Block, base: u16, n: int, r: int, b: int, c: int)
    requires
        n > 1,
        0 <= b < c < 48,
        fec::wire_at(block, base, b) is Some,
        fec::wire_at(block, base, c) is Some,
        forall|d: int| b < d < c ==> fec::wire_at(block, base, d) is None,
    ensures
        !(fec::row_members(block, base, n, r)(b) is Some && fec::row_members(block, base, n, r)(
            c,
        ) is Some),
{
    lemma_next_rank(block, base, b, c);
    let k = fec::rank(block, base, b) as int;
    if k % n == r && (k + 1) % n == r {
        vstd::arithmetic::div_mod::lemma_fundamental_div_mod(k, n);
        vstd::arithmetic::div_mod::lemma_fundamental_div_mod(k + 1, n);
        let p = k / n;
        let q = (k + 1) / n;
        assert(false) by (nonlinear_arith)
            requires
                n > 1,
                k == n * p + r,
                k + 1 == n * q + r,
        ;
    }
}

proof fn lemma_next_rank(block: Block, base: u16, b: int, c: int)
    requires
        0 <= b < c,
        fec::wire_at(block, base, b) is Some,
        forall|d: int| b < d < c ==> fec::wire_at(block, base, d) is None,
    ensures
        fec::rank(block, base, c) == fec::rank(block, base, b) + 1,
    decreases c - b,
{
    if c == b + 1 {
        assert(fec::rank(block, base, b + 1) == fec::rank(block, base, b) + 1);
    } else {
        lemma_next_rank(block, base, b, c - 1);
        assert(fec::wire_at(block, base, c - 1) is None);
        assert(fec::rank(block, base, c) == fec::rank(block, base, c - 1));
    }
}

/// A row lives no longer than the first of the datagrams of its block to die,
/// has the latest of their timestamps, is of a keyframe or of audio if any of
/// them is, and names the frame of the last.
pub proof fn lemma_row_headed(g: GeneratorModel, r: int, i: int)
    requires
        0 <= i < g.block.len(),
        forall|j: int|
            0 <= j < g.block.len() ==> fec::header_of((#[trigger] g.block[j]).1).ttl_ms < 65_535,
    ensures
        ({
            let h = fec::block_row(g, r).header();
            let head = |j: int| fec::header_of(g.block[j].1);
            &&& h.packet_type == PacketType::Fec
            &&& h.stream_id == g.stream_id
            &&& h.ttl_ms <= head(i).ttl_ms
            &&& exists|j: int| 0 <= j < g.block.len() && h.ttl_ms == (#[trigger] head(j)).ttl_ms
            &&& h.timestamp >= head(i).timestamp
            &&& exists|j: int|
                0 <= j < g.block.len() && h.timestamp == (#[trigger] head(j)).timestamp
            &&& head(i).flags.key ==> h.flags.key
            &&& h.flags.key ==> exists|j: int|
                0 <= j < g.block.len() && (#[trigger] head(j)).flags.key
            &&& head(i).flags.audio ==> h.flags.audio
            &&& h.flags.audio ==> exists|j: int|
                0 <= j < g.block.len() && (#[trigger] head(j)).flags.audio
            &&& h.frame_id == head(g.block.len() - 1).frame_id
            &&& !h.flags.retrans
            &&& h.frag_index == 0
            &&& h.frag_count == 1
        }),
{
    let head = |j: int| fec::header_of(g.block[j].1);
    let n = g.block.len() as int;
    lemma_meta(g.block, n, i);
    assert(g.block.take(n) =~= g.block);
    let m = fec::meta_of(g.block);
    let j = choose|j: int| 0 <= j < n && m.ttl_ms == fec::header_of((#[trigger] g.block[j]).1).ttl_ms;
    assert(m.ttl_ms == head(j).ttl_ms);
    let j = choose|j: int|
        0 <= j < n && m.timestamp == fec::header_of((#[trigger] g.block[j]).1).timestamp;
    assert(m.timestamp == head(j).timestamp);
    if m.key {
        let j = choose|j: int| 0 <= j < n && fec::header_of((#[trigger] g.block[j]).1).flags.key;
        assert(head(j).flags.key);
    }
    if m.audio {
        let j = choose|j: int| 0 <= j < n && fec::header_of((#[trigger] g.block[j]).1).flags.audio;
        assert(head(j).flags.audio);
    }
}

proof fn lemma_meta(block: Block, n: int, i: int)
    requires
        0 <= i < n <= block.len(),
    ensures
        ({
            let m = fec::meta_of(block.take(n));
            let h = fec::header_of(block[i].1);
            &&& m.ttl_ms <= h.ttl_ms
            &&& m.timestamp >= h.timestamp
            &&& h.flags.key ==> m.key
            &&& h.flags.audio ==> m.audio
            &&& exists|j: int|
                0 <= j < n && m.ttl_ms == fec::header_of((#[trigger] block[j]).1).ttl_ms
            &&& exists|j: int|
                0 <= j < n && m.timestamp == fec::header_of((#[trigger] block[j]).1).timestamp
            &&& m.key ==> exists|j: int|
                0 <= j < n && fec::header_of((#[trigger] block[j]).1).flags.key
            &&& m.audio ==> exists|j: int|
                0 <= j < n && fec::header_of((#[trigger] block[j]).1).flags.audio
            &&& m.frame_id == fec::header_of(block[n - 1].1).frame_id
        }),
    decreases n,
{
    let b = block.take(n);
    assert(b.drop_last() =~= block.take(n - 1));
    assert(b.last() == block[n - 1]);
    if n == 1 {
        assert(block.take(0) =~= Seq::empty());
        assert(fec::meta_of(block.take(0)).ttl_ms == u16::MAX);
        assert(fec::meta_of(block.take(0)).timestamp == 0);
    } else if i < n - 1 {
        lemma_meta(block, n - 1, i);
    } else {
        lemma_meta(block, n - 1, 0);
    }
}

/// A datagram is gathered if it is media of the stream under its own number;
/// rows come when the block of 48 is full, and begin anew with the datagram.
pub proof fn lemma_gathered(g: GeneratorModel, media_seq: u16, wire: Seq<u8>)
    ensures
        ({
            let (after, r) = g.push(media_seq, wire);
            let p = PacketModel::parse(wire);
            let sound = p is Ok && p->Ok_0 is Media && p->Ok_0.header().stream_id == g.stream_id
                && p->Ok_0.header().media_seq == media_seq;
            &&& !sound ==> r is Err
            &&& r is Err ==> after == g
            &&& r is Err && sound ==> r->Err_0 is SeqOutOfWindow
            &&& p is Err <==> r is Err && r->Err_0 is Decode
            &&& p is Ok && !(p->Ok_0 is Media) <==> r is Err && r->Err_0 is NotMedia
            &&& sound && g.block.len() >= 48 ==> r is Ok && r->Ok_0 == g.rows() && after.block
                == seq![(media_seq, wire)]
            &&& sound && g.block.len() == 0 ==> r is Ok
            &&& r is Ok && g.block.len() < 48 ==> r->Ok_0.len() == 0 && after.block
                == g.block.push((media_seq, wire))
            &&& after.stream_id == g.stream_id
            &&& after.fec_rate == g.fec_rate
        }),
{
    let one = fec::block_seqs(g.block).push(media_seq);
    if g.block.len() == 0 {
        assert(one.len() == 1);
        assert(one[0] == media_seq);
        assert(fec::fits(one, media_seq));
        fec::lemma_base_of(one, media_seq);
    }
}

/// The window of a block begins at the one of its numbers from which all the
/// others are reached in fewer than 48 steps.
pub proof fn lemma_in_window(seqs: Seq<u16>, base: u16)
    requires
        seqs.contains(base),
        forall|j: int|
            0 <= j < seqs.len() ==> ((#[trigger] seqs[j]) - base) % 0x1_0000 < 48,
    ensures
        fec::base_of(seqs) == Some(base),
{
    fec::lemma_base_of(seqs, base);
}

/// What was not at hand before is among what was rebuilt.
pub open spec fn accounts(before: MediaMap, after: MediaMap, found: Seq<RecoveredModel>) -> bool {
    forall|k: u64| #[trigger]
        after.contains_key(k) && !before.contains_key(k) ==> told(k, found)
}

/// Whether a datagram with key `k` is among those that were rebuilt.
pub open spec fn told(k: u64, found: Seq<RecoveredModel>) -> bool {
    exists|j: int|
        0 <= j < found.len() && (#[trigger] found[j]).stream_id * 4_294_967_296
            + found[j].media_seq == k
}

proof fn lemma_pass_told(media: MediaMap, rows: Seq<RowModel>, k: int)
    ensures
        accounts(media, fec::pass(media, rows, k).0, fec::pass(media, rows, k).1),
    decreases k,
{
    if k > 0 {
        lemma_pass_told(media, rows, k - 1);
        let (m, out) = fec::pass(media, rows, k - 1);
        let (m2, out2) = fec::pass(media, rows, k);
        assert forall|x: u64| #[trigger]
            m2.contains_key(x) && !media.contains_key(x) implies told(x, out2) by {
            if m.contains_key(x) {
                assert(told(x, out));
                let j = choose|j: int|
                    0 <= j < out.len() && (#[trigger] out[j]).stream_id * 4_294_967_296
                        + out[j].media_seq == x;
                assert(out2[j] == out[j]);
            } else {
                assert(out2[out.len() as int] == out2.last());
            }
        }
    }
}

/// Every datagram that comes to hand by rebuilding is given out.
pub proof fn lemma_found_told(media: MediaMap, rows: Seq<RowModel>)
    ensures
        accounts(media, fec::recover_all(media, rows).0, fec::recover_all(media, rows).1),
    decreases fec::lacking(media, rows),
{
    let (m, out) = fec::pass(media, rows, rows.len() as int);
    lemma_pass_told(media, rows, rows.len() as int);
    if out.len() > 0 {
        fec::lemma_pass_progress(media, rows);
        lemma_found_told(m, rows);
        let (m2, rest) = fec::recover_all(m, rows);
        assert forall|x: u64| #[trigger]
            m2.contains_key(x) && !media.contains_key(x) implies told(x, out + rest) by {
            if m.contains_key(x) {
                assert(told(x, out));
                let j = choose|j: int|
                    0 <= j < out.len() && (#[trigger] out[j]).stream_id * 4_294_967_296
                        + out[j].media_seq == x;
                assert((out + rest)[j] == out[j]);
            } else {
                assert(told(x, rest));
                let j = choose|j: int|
                    0 <= j < rest.len() && (#[trigger] rest[j]).stream_id * 4_294_967_296
                        + rest[j].media_seq == x;
                assert((out + rest)[out.len() + j] == rest[j]);
            }
        }
    }
}

/// A receiver that lacks just one of the datagrams that a row covers gives that
/// one out when the row comes.
pub proof fn lemma_gap_filled(m: ReceiverModel, g: GeneratorModel, r: int, hole: int)
    requires
        m.wf(),
        g.wf(),
        0 <= r < fec::row_count(g.block.len() as int, g.fec_rate as int),
        0 <= hole < 48,
        fec::block_row_members(g, r)(hole) is Some,
        fec::block_row_members(g, r)(hole)->0.len() <= 65_535,
        !m.media.contains_key(fec::row_of(fec::block_row(g, r)).key(hole)),
        forall|b: int|
            #![trigger fec::block_row_members(g, r)(b)]
            0 <= b < 48 && b != hole && fec::block_row_members(g, r)(b) is Some
                ==> m.media.contains_key(fec::row_of(fec::block_row(g, r)).key(b))
                && m.media[fec::row_of(fec::block_row(g, r)).key(b)] == fec::block_row_members(
                g,
                r,
            )(b)->0,
    ensures
        ({
            let row = fec::block_row(g, r);
            let found = m.take_row(fec::row_of(row)).1;
            let seq = (row->seq_base + hole) % 0x1_0000;
            &&& told((g.stream_id * 4_294_967_296 + seq) as u64, found)
            &&& m.fec.len() == 0 ==> found[0].wire == fec::block_row_members(g, r)(hole)->0
        }),
{
    let row = fec::row_of(fec::block_row(g, r));
    fec::lemma_row_rebuilds(g, r, m.media, hole);
    let rows = m.with_row(row).fec;
    let last = rows.len() - 1;
    assert(rows[last] == row);
    fec::lemma_recover_rebuilds(m.media, rows, last);
    lemma_found_told(m.media, rows);
    let k = fec::recovered_key(row.rebuilt(m.media)->0);
    assert(k == row.key(hole));
    assert(told(k, fec::recover_all(m.media, rows).1));
    if m.fec.len() == 0 {
        assert(rows =~= seq![row]);
        let p = fec::pass(m.media, rows, 0);
        assert(p == (m.media, Seq::<RecoveredModel>::empty()));
        let (m1, out) = fec::pass(m.media, rows, 1);
        assert(out =~= seq![row.rebuilt(m.media)->0]);
        let (m2, rest) = fec::recover_all(m1, rows);
        assert(fec::recover_all(m.media, rows).1 =~= out + rest);
    }
}

/// A receiver that holds a row gives the missing datagram out as soon as the
/// last of the others comes.
pub proof fn lemma_gap_filled_later(
    m: ReceiverModel,
    g: GeneratorModel,
    r: int,
    hole: int,
    at: int,
    media_seq: u16,
    wire: Seq<u8>,
)
    requires
        m.wf(),
        m.order.len() < m.capacity,
        g.wf(),
        0 <= r < fec::row_count(g.block.len() as int, g.fec_rate as int),
        0 <= hole < 48,
        0 <= at < m.fec.len(),
        m.fec[at] == fec::row_of(fec::block_row(g, r)),
        fec::block_row_members(g, r)(hole) is Some,
        fec::block_row_members(g, r)(hole)->0.len() <= 65_535,
        !m.media.contains_key(table::stream_key(g.stream_id, media_seq as u32)),
        ({
            let held = m.media.insert(table::stream_key(g.stream_id, media_seq as u32), wire);
            &&& !held.contains_key(fec::row_of(fec::block_row(g, r)).key(hole))
            &&& forall|b: int|
                #![trigger fec::block_row_members(g, r)(b)]
                0 <= b < 48 && b != hole && fec::block_row_members(g, r)(b) is Some
                    ==> held.contains_key(fec::row_of(fec::block_row(g, r)).key(b))
                    && held[fec::row_of(fec::block_row(g, r)).key(b)] == fec::block_row_members(
                    g,
                    r,
                )(b)->0
        }),
    ensures
        told(
            (g.stream_id * 4_294_967_296 + (fec::block_row(g, r)->seq_base + hole) % 0x1_0000)
                as u64,
            m.take_media(g.stream_id, media_seq, wire).1,
        ),
{
    let held = m.media.insert(table::stream_key(g.stream_id, media_seq as u32), wire);
    let row = fec::row_of(fec::block_row(g, r));
    fec::lemma_row_rebuilds(g, r, held, hole);
    fec::lemma_recover_rebuilds(held, m.fec, at);
    lemma_found_told(held, m.fec);
    let k = fec::recovered_key(row.rebuilt(held)->0);
    assert(k == row.key(hole));
    assert(told(k, fec::recover_all(held, m.fec).1));
}

/// A datagram that is at hand changes nothing when it comes again.
pub proof fn lemma_at_hand(m: ReceiverModel, stream_id: u8, media_seq: u16, wire: Seq<u8>)
    requires
        m.media.contains_key(table::stream_key(stream_id, media_seq as u32)),
    ensures
        m.take_media(stream_id, media_seq, wire).0 == m,
        m.take_media(stream_id, media_seq, wire).1.len() == 0,
{
}

/// Of the rows, those that came last are kept, the newest at the end.
pub proof fn lemma_rows_kept(m: ReceiverModel, row: RowModel)
    requires
        m.wf(),
    ensures
        ({
            let after = m.take_row(row).0;
            let full = m.fec.len() == m.capacity;
            &&& after.fec.len() == if full {
                m.fec.len()
            } else {
                m.fec.len() + 1
            }
            &&& after.fec.last() == row
            &&& forall|i: int|
                0 <= i < after.fec.len() - 1 ==> #[trigger] after.fec[i] == m.fec[if full {
                    i + 1
                } else {
                    i
                }]
        }),
{
}

/// Whether `packets` are media of a stream, numbered on from `first`.
pub open spec fn run_of_media(packets: Seq<PacketModel>, stream_id: u8, first: u16) -> bool {
    forall|i: int|
        0 <= i < packets.len() ==> {
            &&& (#[trigger] packets[i]).valid()
            &&& packets[i] is Media
            &&& packets[i].header().stream_id == stream_id
            &&& packets[i].header().media_seq == (first + i) % 0x1_0000
        }
}

/// The block that a run of packets makes.
pub open spec fn block_with(packets: Seq<PacketModel>) -> Block {
    Seq::new(packets.len(), |i: int| (packets[i].header().media_seq, packets[i].wire()))
}

/// Whether a generator is in one of its states.
#[verifier::opaque]
spec fn sound(g: GeneratorModel) -> bool {
    g.wf()
}

proof fn lemma_sound_empty(g: GeneratorModel)
    requires
        g.block.len() == 0,
    ensures
        sound(g),
{
    reveal(sound);
    assert(fec::block_seqs(g.block).len() == 0);
}

proof fn lemma_taken(g: GeneratorModel, p: PacketModel)
    requires
        sound(g),
        p.valid(),
        p is Media,
        p.header().stream_id == g.stream_id,
        g.block.len() < 48,
        fec::base_of(fec::block_seqs(g.block).push(p.header().media_seq)) is Some,
    ensures
        ({
            let after = GeneratorModel {
                block: g.block.push((p.header().media_seq, p.wire())),
                ..g
            };
            &&& g.push(p.header().media_seq, p.wire()) == (
                after,
                Ok::<Seq<PacketModel>, fec::FecError>(Seq::empty()),
            )
            &&& sound(after)
        }),
{
    reveal(sound);
    packet::lemma_packet_round_trip(p);
    let after = GeneratorModel { block: g.block.push((p.header().media_seq, p.wire())), ..g };
    assert(g.refused(p.header().media_seq, p.wire()) is None);
    assert(fec::block_seqs(after.block) =~= fec::block_seqs(g.block).push(p.header().media_seq));
    assert forall|i: int| 0 <= i < after.block.len() implies after.refused(
        (#[trigger] after.block[i]).0,
        after.block[i].1,
    ) is None by {
        if i < g.block.len() {
            assert(after.block[i] == g.block[i]);
            assert(g.refused(g.block[i].0, g.block[i].1) is None);
        }
    }
}

proof fn lemma_steps(first: u16, j: int, k: int)
    requires
        0 <= j < 48,
        0 <= k < 48,
    ensures
        ((first + j) % 0x1_0000 - first) % 0x1_0000 == j,
        (first + j) % 0x1_0000 == (first + k) % 0x1_0000 ==> j == k,
{
}

proof fn lemma_run_window(seqs: Seq<u16>, first: u16)
    requires
        0 < seqs.len() <= 48,
        forall|j: int| 0 <= j < seqs.len() ==> #[trigger] seqs[j] == (first + j) % 0x1_0000,
    ensures
        fec::base_of(seqs) is Some,
{
    assert(seqs[0] == first);
    assert forall|j: int| 0 <= j < seqs.len() implies ((#[trigger] seqs[j]) - first) % 0x1_0000
        < 48 by {
        lemma_steps(first, j, j);
    }
    lemma_in_window(seqs, first);
}

proof fn lemma_gathers(g: GeneratorModel, packets: Seq<PacketModel>, first: u16)
    requires
        g.block.len() == 0,
        packets.len() <= 48,
        run_of_media(packets, g.stream_id, first),
    ensures
        track::protect(g, packets) == (
            GeneratorModel { block: block_with(packets), ..g },
            Seq::<PacketModel>::empty(),
        ),
        sound(GeneratorModel { block: block_with(packets), ..g }),
    decreases packets.len(),
{
    if packets.len() == 0 {
        assert(block_with(packets) =~= g.block);
        lemma_sound_empty(g);
    } else {
        let front = packets.drop_last();
        let n = front.len() as int;
        assert forall|i: int| 0 <= i < front.len() implies #[trigger] front[i] == packets[i] by {}
        lemma_gathers(g, front, first);
        let p = packets.last();
        assert(packets[n] == p);
        let before = GeneratorModel { block: block_with(front), ..g };
        let seqs = fec::block_seqs(before.block).push(p.header().media_seq);
        assert forall|j: int| 0 <= j < seqs.len() implies #[trigger] seqs[j] == (first + j)
            % 0x1_0000 by {
            if j < n {
                assert(seqs[j] == front[j].header().media_seq);
            }
        }
        lemma_run_window(seqs, first);
        lemma_taken(before, p);
        assert(before.block.push((p.header().media_seq, p.wire())) =~= block_with(packets));
        assert(Seq::<PacketModel>::empty() + Seq::<PacketModel>::empty() =~= Seq::<
            PacketModel,
        >::empty());
    }
}

/// Whether a packet is a parity row that covers media `seq` of a stream.
pub open spec fn is_row_over(p: PacketModel, stream_id: u8, seq: u16) -> bool {
    let d = (seq - p->seq_base) % 0x1_0000;
    &&& p is Fec
    &&& p.header().packet_type == PacketType::Fec
    &&& p.header().stream_id == stream_id
    &&& d < 48
    &&& (p->mask >> (d as u64)) & 1u64 == 1u64
}

/// Every fragment of a frame on a protected track is covered by a parity row
/// that is queued with it.
pub proof fn lemma_frame_protected(
    m: SessionModel,
    f: EncodedModel,
    now: Instant,
    ttl: u16,
    k: int,
)
    requires
        m.pacer.queue.wf(),
        now.nanos + 65_535 * 1_000_000 <= u64::MAX,
        f.payload.len() > 0,
        0 < ttl < 65_535,
        f.ttl_ms == Some(ttl) || (f.ttl_ms is None && ttl == m.config.default_ttl_ms),
        m.tracks.contains_key(f.stream_id as u64),
        ({
            let t = m.tracks[f.stream_id as u64];
            let parts = fragment::fragments(
                f.payload,
                sessions::fields(t, f, ttl),
                m.config.payload_limits,
            );
            &&& t.kind == f.kind
            &&& t.wf()
            &&& t.stream_id == f.stream_id
            &&& t.fec_gen is Some
            &&& t.fec_gen->0.block.len() == 0
            &&& t.fec_gen->0.fec_rate > 0
            &&& parts is Ok
            &&& parts->Ok_0.len() <= 48
            &&& 0 <= k < parts->Ok_0.len()
        }),
    ensures
        ({
            let t = m.tracks[f.stream_id as u64];
            let part = fragment::fragments(
                f.payload,
                sessions::fields(t, f, ttl),
                m.config.payload_limits,
            )->Ok_0[k];
            let after = m.enqueue_frame(f, now).0;
            exists|p: PacketModel| #[trigger]
                is_row_over(p, f.stream_id, part.header().media_seq) && sessions::holds(
                    after.pacer.queue.lanes[2],
                    m.pacer.queue.lanes[2].len() as int,
                    p,
                    now,
                )
        }),
{
    let t = m.tracks[f.stream_id as u64];
    let params = sessions::fields(t, f, ttl);
    let limits = m.config.payload_limits;
    let parts = fragment::fragments(f.payload, params, limits)->Ok_0;
    let g = t.fec_gen->0;
    lemma_run(f.payload, params, limits);
    lemma_gathers(g, parts, t.next_media_seq);
    let rows = GeneratorModel { block: block_with(parts), ..g }.rows();
    lemma_row_over(g, parts, t.next_media_seq, ttl, k);
    let seq = parts[k].header().media_seq;
    let i = choose|i: int|
        0 <= i < rows.len() && is_row_over(#[trigger] rows[i], f.stream_id, seq)
            && rows[i].header().ttl_ms == ttl;
    let p = rows[i];
    lemma_rows_queued(m, f, now, ttl, parts, rows);
    assert(sessions::holds(
        m.enqueue_frame(f, now).0.pacer.queue.lanes[2],
        m.pacer.queue.lanes[2].len() as int,
        p,
        now,
    ));
    assert(is_row_over(p, f.stream_id, seq));
}

proof fn lemma_rows_queued(
    m: SessionModel,
    f: EncodedModel,
    now: Instant,
    ttl: u16,
    parts: Seq<PacketModel>,
    rows: Seq<PacketModel>,
)
    requires
        m.pacer.queue.wf(),
        now.nanos + 65_535 * 1_000_000 <= u64::MAX,
        f.payload.len() > 0,
        ttl > 0,
        f.ttl_ms == Some(ttl) || (f.ttl_ms is None && ttl == m.config.default_ttl_ms),
        m.tracks.contains_key(f.stream_id as u64),
        ({
            let t = m.tracks[f.stream_id as u64];
            &&& t.kind == f.kind
            &&& t.fec_gen is Some
            &&& fragment::fragments(
                f.payload,
                sessions::fields(t, f, ttl),
                m.config.payload_limits,
            ) == Ok::<Seq<PacketModel>, fragment::FragmentError>(parts)
            &&& track::protect(t.fec_gen->0, parts).1.len() == 0
            &&& track::protect(t.fec_gen->0, parts).0.rows() == rows
        }),
    ensures
        forall|i: int|
            0 <= i < rows.len() && (#[trigger] rows[i]).header().packet_type == PacketType::Fec
                && rows[i].header().ttl_ms > 0 ==> sessions::holds(
                m.enqueue_frame(f, now).0.pacer.queue.lanes[2],
                m.pacer.queue.lanes[2].len() as int,
                rows[i],
                now,
            ),
{
    let t = m.tracks[f.stream_id as u64];
    assert(t.frame_params(f, ttl) == sessions::fields(t, f, ttl));
    let all = t.split(f, ttl, m.config.payload_limits).1->Ok_0;
    assert(all =~= parts + rows);
    sessions::lemma_all_queued(m.pacer.queue, all, now);
    assert forall|i: int|
        0 <= i < rows.len() && (#[trigger] rows[i]).header().packet_type == PacketType::Fec
            && rows[i].header().ttl_ms > 0 implies sessions::holds(
        m.enqueue_frame(f, now).0.pacer.queue.lanes[2],
        m.pacer.queue.lanes[2].len() as int,
        rows[i],
        now,
    ) by {
        assert(all[parts.len() + i] == rows[i]);
    }
}

proof fn lemma_run(payload: Seq<u8>, params: FragmentParams, limits: PayloadSizeLimits)
    requires
        fragment::fragments(payload, params, limits) is Ok,
    ensures
        ({
            let parts = fragment::fragments(payload, params, limits)->Ok_0;
            &&& run_of_media(parts, params.stream_id, params.first_media_seq)
            &&& forall|i: int|
                0 <= i < parts.len() ==> (#[trigger] parts[i]).header().ttl_ms == params.ttl_ms
        }),
{
    let parts = fragment::fragments(payload, params, limits)->Ok_0;
    assert forall|i: int| 0 <= i < parts.len() implies {
        &&& (#[trigger] parts[i]).valid()
        &&& parts[i] is Media
        &&& parts[i].header().stream_id == params.stream_id
        &&& parts[i].header().media_seq == (params.first_media_seq + i) % 0x1_0000
        &&& parts[i].header().ttl_ms == params.ttl_ms
    } by {
        fragment::lemma_fragments_valid(payload, params, limits, i);
        frames::lemma_headers(payload, params, limits, i);
    }
}

proof fn lemma_head(p: PacketModel)
    requires
        p.valid(),
    ensures
        fec::header_of(p.wire()) == p.header(),
{
    packet::lemma_packet_round_trip(p);
}

proof fn lemma_row_of(h: GeneratorModel, k: int) -> (r: int)
    requires
        sound(h),
        h.fec_rate > 0,
        0 <= k < h.block.len(),
        forall|j: int| k < j < h.block.len() ==> (#[trigger] h.block[j]).0 != h.block[k].0,
    ensures
        covered(h, r, h.block[k].0),
        h.rows().contains(fec::block_row(h, r)),
{
    reveal(sound);
    lemma_protected(h, k);
    choose|r: int|
        #[trigger] covered(h, r, h.block[k].0) && h.rows().contains(fec::block_row(h, r))
}

proof fn lemma_row_ttl(h: GeneratorModel, parts: Seq<PacketModel>, r: int, ttl: u16, k: int)
    requires
        h.block == block_with(parts),
        0 <= k < parts.len(),
        ttl < 65_535,
        forall|i: int|
            0 <= i < parts.len() ==> (#[trigger] parts[i]).valid() && parts[i].header().ttl_ms
                == ttl,
    ensures
        fec::block_row(h, r).header().ttl_ms == ttl,
        fec::block_row(h, r).header().packet_type == PacketType::Fec,
        fec::block_row(h, r).header().stream_id == h.stream_id,
{
    assert forall|j: int| 0 <= j < h.block.len() implies fec::header_of(
        (#[trigger] h.block[j]).1,
    ).ttl_ms == ttl by {
        assert(parts[j].valid());
        assert(h.block[j].1 == parts[j].wire());
        lemma_head(parts[j]);
    }
    lemma_row_headed(h, r, k);
}

proof fn lemma_row_over(
    g: GeneratorModel,
    parts: Seq<PacketModel>,
    first: u16,
    ttl: u16,
    k: int,
)
    requires
        g.fec_rate > 0,
        0 <= k < parts.len() <= 48,
        ttl < 65_535,
        run_of_media(parts, g.stream_id, first),
        forall|i: int| 0 <= i < parts.len() ==> (#[trigger] parts[i]).header().ttl_ms == ttl,
        sound(GeneratorModel { block: block_with(parts), ..g }),
    ensures
        ({
            let rows = GeneratorModel { block: block_with(parts), ..g }.rows();
            exists|i: int|
                0 <= i < rows.len() && is_row_over(
                    #[trigger] rows[i],
                    g.stream_id,
                    parts[k].header().media_seq,
                ) && rows[i].header().ttl_ms == ttl
        }),
{
    let h = GeneratorModel { block: block_with(parts), ..g };
    let rows = h.rows();
    let seq = parts[k].header().media_seq;
    assert(h.block[k].0 == seq);
    assert forall|j: int| k < j < h.block.len() implies (#[trigger] h.block[j]).0 != h.block[k].0 by {
        assert(h.block[j].0 == parts[j].header().media_seq);
        lemma_steps(first, j, k);
    }
    let r = lemma_row_of(h, k);
    let p = fec::block_row(h, r);
    lemma_row_ttl(h, parts, r, ttl, k);
    let i = choose|i: int| 0 <= i < rows.len() && rows[i] == p;
    assert(is_row_over(rows[i], g.stream_id, seq));
}

} // verus!
