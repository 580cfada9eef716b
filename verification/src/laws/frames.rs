//! How a frame is split and put together again.

use crate::fragment;
use crate::fragment::{FragmentError, FragmentParams, PayloadSizeLimits};
use crate::packet::{Header, PacketModel, PacketType};
use crate::reassembly;
use crate::reassembly::{OutcomeModel, ReassemblerModel, ReassemblyError};
use crate::table;
use vstd::prelude::*;

verus! {

/// Whether one fragment carries the frame.
pub open spec fn fits_one(len: int, limits: PayloadSizeLimits) -> bool {
    len + limits.single_packet_reduction_len <= limits.max_payload_len
}

/// Whether `n` is the least number of fragments, of two or more, that carry
/// the frame and what is set aside.
pub open spec fn least_many(len: int, limits: PayloadSizeLimits, n: int) -> bool {
    let all = len + limits.first_packet_reduction_len + limits.last_packet_reduction_len;
    &&& n >= 2
    &&& n * limits.max_payload_len >= all
    &&& n == 2 || (n - 1) * limits.max_payload_len < all
}

/// Fragments are as few as can be: one, where it carries the frame, and
/// otherwise the least number that does.
pub proof fn lemma_few(frame: Seq<u8>, params: FragmentParams, limits: PayloadSizeLimits)
    requires
        fragment::fragments(frame, params, limits) is Ok,
    ensures
        ({
            let n = fragment::fragments(frame, params, limits)->Ok_0.len() as int;
            &&& n == 1 <==> fits_one(frame.len() as int, limits)
            &&& n != 1 ==> least_many(frame.len() as int, limits, n)
        }),
{
    if !fits_one(frame.len() as int, limits) {
        lemma_count(frame.len() as int, limits);
    }
}

proof fn lemma_count(len: int, limits: PayloadSizeLimits)
    requires
        len > 0,
        limits.max_payload_len > limits.first_packet_reduction_len,
        limits.max_payload_len > limits.last_packet_reduction_len,
        !fits_one(len, limits),
    ensures
        least_many(len, limits, fragment::Split::of(len, limits).count()),
{
    let all = len + limits.first_packet_reduction_len + limits.last_packet_reduction_len;
    let max = limits.max_payload_len as int;
    let q = (all + max - 1) / max;
    vstd::arithmetic::div_mod::lemma_fundamental_div_mod(all + max - 1, max);
    vstd::arithmetic::div_mod::lemma_mod_bound(all + max - 1, max);
    assert(max * q == q * max) by (nonlinear_arith);
    assert((q - 1) * max == q * max - max) by (nonlinear_arith);
    assert(q >= 1) by (nonlinear_arith)
        requires
            q * max >= all,
            all > 0,
            max > 0,
    ;
    let n = fragment::Split::of(len, limits).count();
    assert(n == if q == 1 {
        2
    } else {
        q
    });
    assert(n * max >= all) by (nonlinear_arith)
        requires
            n >= q,
            q * max >= all,
            max > 0,
    ;
    if n > 2 {
        assert(n == q);
        assert((n - 1) * max < all);
    }
}

/// When a frame is refused: an empty one; one for which the limits leave no
/// room, or that has fewer bytes than fragments; one of too many fragments.
pub proof fn lemma_refused(
    frame: Seq<u8>,
    params: FragmentParams,
    limits: PayloadSizeLimits,
    n: int,
)
    requires
        least_many(frame.len() as int, limits, n),
        limits.max_payload_len > 0,
    ensures
        ({
            let r = fragment::fragments(frame, params, limits);
            let one = fits_one(frame.len() as int, limits);
            let room = limits.max_payload_len > limits.first_packet_reduction_len
                && limits.max_payload_len > limits.last_packet_reduction_len && n <= frame.len();
            &&& frame.len() == 0 <==> r == Err::<Seq<PacketModel>, FragmentError>(
                FragmentError::EmptyPayload,
            )
            &&& frame.len() > 0 && !one && !room <==> r == Err::<
                Seq<PacketModel>,
                FragmentError,
            >(FragmentError::ImpossibleLimits)
            &&& frame.len() > 0 && !one && room && n > 65_535 <==> r == Err::<
                Seq<PacketModel>,
                FragmentError,
            >(FragmentError::TooManyFragments)
        }),
{
    let len = frame.len() as int;
    if len > 0 && !fits_one(len, limits) && limits.max_payload_len
        > limits.first_packet_reduction_len && limits.max_payload_len
        > limits.last_packet_reduction_len {
        lemma_count(len, limits);
        lemma_one_least(len, limits, n, fragment::Split::of(len, limits).count());
    }
}

proof fn lemma_one_least(len: int, limits: PayloadSizeLimits, a: int, b: int)
    requires
        limits.max_payload_len > 0,
        least_many(len, limits, a),
        least_many(len, limits, b),
    ensures
        a == b,
{
    let max = limits.max_payload_len as int;
    if a < b {
        assert(a * max <= (b - 1) * max) by (nonlinear_arith)
            requires
                a <= b - 1,
                max > 0,
        ;
    } else if b < a {
        assert(b * max <= (a - 1) * max) by (nonlinear_arith)
            requires
                b <= a - 1,
                max > 0,
        ;
    }
}

/// Between the first fragment and the last two, a later one is never the
/// smaller.
pub proof fn lemma_growing(len: int, limits: PayloadSizeLimits, i: int, j: int)
    requires
        len > 0,
        0 < i <= j < fragment::Split::of(len, limits).sizes().len() - 2,
    ensures
        fragment::Split::of(len, limits).sizes()[i] <= fragment::Split::of(len, limits).sizes()[j],
{
}

/// Fragments are numbered on from the first, in media and in sending; they say
/// how many they are and which, and share the rest.
pub proof fn lemma_headers(
    frame: Seq<u8>,
    params: FragmentParams,
    limits: PayloadSizeLimits,
    k: int,
)
    requires
        fragment::fragments(frame, params, limits) is Ok,
        0 <= k < fragment::fragments(frame, params, limits)->Ok_0.len(),
    ensures
        ({
            let all = fragment::fragments(frame, params, limits)->Ok_0;
            let h = all[k].header();
            &&& all[k] is Media
            &&& h.packet_type == PacketType::Media
            &&& h.media_seq == (params.first_media_seq + k) % 0x1_0000
            &&& h.transport_seq == (params.first_transport_seq + k) % 0x1_0000
            &&& h.frag_index == k
            &&& h.frag_count == all.len()
            &&& h.stream_id == params.stream_id
            &&& h.frame_id == params.frame_id
            &&& h.timestamp == params.timestamp
            &&& h.ttl_ms == params.ttl_ms
            &&& h.flags == params.flags
            &&& all[k]->Media_payload.len() <= limits.max_payload_len
            &&& all[k]->Media_payload.len() >= 1
        }),
{
    let len = frame.len() as int;
    let s = fragment::Split::of(len, limits).sizes();
    fragment::lemma_split_complete(len, limits);
    fragment::lemma_split_within_limits(len, limits);
    lemma_within(s, k, k + 1);
    lemma_within(s, k + 1, s.len() as int);
    lemma_within(s, 0, k);
    assert(fragment::offset(s, k + 1) == fragment::offset(s, k) + s[k]);
}

proof fn lemma_within(s: Seq<int>, a: int, b: int)
    requires
        0 <= a <= b <= s.len(),
        forall|k: int| 0 <= k < s.len() ==> #[trigger] s[k] >= 1,
    ensures
        fragment::offset(s, a) <= fragment::offset(s, b),
        fragment::offset(s, 0) == 0,
    decreases b,
{
    if a < b {
        lemma_within(s, a, b - 1);
    }
}

/// The key of a frame: its stream above the 32 bits of its number.
pub open spec fn frame_key(stream_id: u8, frame_id: u32) -> int {
    stream_id * 4_294_967_296 + frame_id
}

/// The key under which a frame is put together.
pub proof fn lemma_frame_key(a: u8, i: u32, b: u8, j: u32)
    ensures
        table::stream_key(a, i) == frame_key(a, i),
        table::stream_key(a, i) == table::stream_key(b, j) <==> a == b
            && i == j,
{
}

/// What a fragment is answered with.
pub proof fn lemma_answered(m: ReassemblerModel, header: Header, payload: Seq<u8>, key: u64)
    requires
        m.wf(),
        key == frame_key(header.stream_id, header.frame_id),
    ensures
        ({
            let (after, r) = m.push(PacketModel::Media { header, payload });
            let done = m.completed.contains(key);
            let sound = header.frag_index < header.frag_count;
            let known = m.frames.contains_key(key);
            let f = m.frames[key];
            let alike = f.frag_count == header.frag_count && f.timestamp == header.timestamp;
            let copy = f.slots[header.frag_index as int] is Some;
            &&& done <==> r == Ok::<OutcomeModel, ReassemblyError>(OutcomeModel::DuplicateFrame)
            &&& !done && (!sound || known && !alike) <==> r is Err
            &&& !done && sound && known && alike && copy <==> r == Ok::<
                OutcomeModel,
                ReassemblyError,
            >(OutcomeModel::DuplicateFragment)
            &&& done || r is Err || r == Ok::<OutcomeModel, ReassemblyError>(
                OutcomeModel::DuplicateFragment,
            ) ==> after == m
            &&& !done && sound && !(known && alike && copy) && r is Ok ==> {
                let g = after.frames[key];
                match r->Ok_0 {
                    OutcomeModel::Incomplete { need, have } => {
                        &&& need == header.frag_count
                        &&& have < need
                        &&& after.frames.contains_key(key)
                        &&& g.slots.len() == need
                        &&& g.slots[header.frag_index as int] == Some(payload)
                        &&& g.timestamp == header.timestamp
                        &&& known ==> forall|i: int|
                            0 <= i < g.slots.len() && i != header.frag_index
                                ==> #[trigger] g.slots[i] == f.slots[i]
                        &&& !known ==> forall|i: int|
                            0 <= i < g.slots.len() && i != header.frag_index
                                ==> #[trigger] g.slots[i] is None
                    },
                    OutcomeModel::Assembled(a) => {
                        &&& a.stream_id == header.stream_id
                        &&& a.frame_id == header.frame_id
                        &&& a.timestamp == header.timestamp
                        &&& !after.frames.contains_key(key)
                        &&& m.history > 0 ==> after.completed.contains(key)
                        &&& known ==> forall|i: int|
                            0 <= i < f.slots.len() && i != header.frag_index
                                ==> #[trigger] f.slots[i] is Some
                        &&& !known ==> header.frag_count == 1
                    },
                    _ => false,
                }
            }
        }),
{
    let packet = PacketModel::Media { header, payload };
    let (after, r) = m.push(packet);
    lemma_frame_key(header.stream_id, header.frame_id, header.stream_id, header.frame_id);
    if !m.completed.contains(key) && header.frag_index < header.frag_count {
        let b = if m.frames.contains_key(key) {
            m
        } else {
            m.begun(key, header)
        };
        let f = b.frames[key];
        let g = f.with(header, payload);
        lemma_some(g.slots);
        if m.frames.contains_key(key) {
            assert(m.frames[key].wf());
        }
        if r is Ok && r->Ok_0 is Assembled {
            let c = after.completed;
            if m.history > 0 {
                assert(c[c.len() - 1] == key);
            }
            if m.frames.contains_key(key) {
                assert forall|i: int|
                    0 <= i < f.slots.len() && i != header.frag_index implies #[trigger] f.slots[i] is Some by {
                    assert(g.slots[i] is Some);
                }
            } else if header.frag_count > 1 {
                let o = if header.frag_index == 0 {
                    1int
                } else {
                    0int
                };
                assert(g.slots[o] is Some);
                assert(f.slots[o] is None);
            }
        }
    }
}

proof fn lemma_some(slots: Seq<Option<Seq<u8>>>)
    ensures
        reassembly::filled(slots) <= slots.len(),
        reassembly::filled(slots) == slots.len() ==> forall|i: int|
            0 <= i < slots.len() ==> #[trigger] slots[i] is Some,
    decreases slots.len(),
{
    if slots.len() > 0 {
        lemma_some(slots.drop_last());
        if reassembly::filled(slots) == slots.len() {
            assert forall|i: int| 0 <= i < slots.len() implies #[trigger] slots[i] is Some by {
                if i < slots.len() - 1 {
                    assert(slots.drop_last()[i] == slots[i]);
                }
            }
        }
    }
}

/// A frame that is begun when there is no room makes the oldest give way, and
/// no other; with room, none does.
pub proof fn lemma_makes_way(m: ReassemblerModel, header: Header, payload: Seq<u8>, key: u64, other: u64)
    requires
        m.wf(),
        key == frame_key(header.stream_id, header.frame_id),
        !m.frames.contains_key(key),
        !m.completed.contains(key),
        header.frag_index < header.frag_count,
        other != key,
    ensures
        ({
            let after = m.push(PacketModel::Media { header, payload }).0;
            let full = m.order.len() == m.max_incomplete;
            after.frames.contains_key(other) <==> m.frames.contains_key(other) && !(full && other
                == m.order[0])
        }),
{
    lemma_frame_key(header.stream_id, header.frame_id, header.stream_id, header.frame_id);
}

/// Finished frames are remembered in order, the newest at the end; the oldest
/// is forgotten only when there is no room.
pub proof fn lemma_remembered(completed: Seq<u64>, key: u64, history: int)
    requires
        history > 0,
        completed.len() <= history,
    ensures
        ({
            let after = reassembly::remembered(completed, key, history);
            &&& after.last() == key
            &&& after.len() == if completed.len() == history {
                history
            } else {
                completed.len() as int + 1
            }
            &&& forall|i: int|
                0 <= i < completed.len() && (i > 0 || completed.len() < history)
                    ==> after.contains(#[trigger] completed[i])
        }),
{
    let after = reassembly::remembered(completed, key, history);
    assert forall|i: int|
        0 <= i < completed.len() && (i > 0 || completed.len() < history) implies after.contains(
        #[trigger] completed[i],
    ) by {
        if completed.len() < history {
            assert(after[i] == completed[i]);
        } else {
            assert(after[i - 1] == completed[i]);
        }
    }
}

/// A stream that is dropped loses its frames in the making, and no other does.
pub proof fn lemma_stream_dropped(m: ReassemblerModel, stream_id: u8, key: u64)
    ensures
        ({
            let after = m.without_stream(stream_id);
            &&& after.frames.contains_key(key) <==> m.frames.contains_key(key) && key
                / 4_294_967_296 != stream_id
            &&& after.frames.contains_key(key) ==> after.frames[key] == m.frames[key]
            &&& after.completed == m.completed
        }),
{
}

} // verus!
