//! Putting frames together from their fragments.
//!
//! Fragments are gathered by stream and frame, in whatever order they arrive.
//! Once every index of a frame is there the payloads are joined in index
//! order. The number of frames in the making is bounded, and the oldest makes
//! way; frames that were put together are remembered for a while, so that late
//! copies of their fragments start nothing new.

use crate::fragment;
use crate::fragment::{FragmentParams, PayloadSizeLimits};
use crate::octets;
use crate::octets::seal;
use crate::packet::{Flags, Header, Packet, PacketModel};
use crate::seqs;
use crate::table;
use crate::table::{key_stream, stream_key, Table};
use bytes::Bytes;
use std::collections::VecDeque;
use vstd::prelude::*;

verus! {

/// Default bound on the frames in the making.
pub const DEFAULT_MAX_INCOMPLETE_FRAMES: usize = 64;

/// Default number of finished frames that are remembered.
pub const DEFAULT_COMPLETED_HISTORY: usize = 128;

/// A frame put together from its fragments.
#[derive(Debug, Clone, PartialEq, Eq)]
pub struct AssembledFrame {
    /// Stream of the frame.
    pub stream_id: u8,
    /// Identity of the frame within its stream.
    pub frame_id: u32,
    /// Capture time in 90 kHz ticks.
    pub timestamp: u32,
    /// Flags of the fragment that was accepted first.
    pub flags: Flags,
    /// Media sequence number of fragment 0.
    pub first_media_seq: Option<u16>,
    /// The payloads, joined in index order.
    pub payload: Bytes,
}

/// An [`AssembledFrame`] as a value.
#[verifier::ext_equal]
pub struct AssembledModel {
    pub stream_id: u8,
    pub frame_id: u32,
    pub timestamp: u32,
    pub flags: Flags,
    pub first_media_seq: Option<u16>,
    pub payload: Seq<u8>,
}

impl View for AssembledFrame {
    type V = AssembledModel;

    open spec fn view(&self) -> AssembledModel {
        AssembledModel {
            stream_id: self.stream_id,
            frame_id: self.frame_id,
            timestamp: self.timestamp,
            flags: self.flags,
            first_media_seq: self.first_media_seq,
            payload: octets::octets(self.payload),
        }
    }
}

/// What became of one fragment.
#[derive(Debug, Clone, PartialEq, Eq)]
pub enum InsertOutcome {
    /// Fragments of the frame are still missing.
    Incomplete {
        /// Fragments at hand.
        have: u16,
        /// Fragments of the frame.
        need: u16,
    },
    /// The frame is complete.
    Assembled(AssembledFrame),
    /// The fragment was there already.
    DuplicateFragment,
    /// The frame was put together before.
    DuplicateFrame,
}

/// An [`InsertOutcome`] as a value.
#[verifier::ext_equal]
pub enum OutcomeModel {
    Incomplete { have: u16, need: u16 },
    Assembled(AssembledModel),
    DuplicateFragment,
    DuplicateFrame,
}

impl View for InsertOutcome {
    type V = OutcomeModel;

    open spec fn view(&self) -> OutcomeModel {
        match *self {
            InsertOutcome::Incomplete { have, need } => OutcomeModel::Incomplete { have, need },
            InsertOutcome::Assembled(f) => OutcomeModel::Assembled(f@),
            InsertOutcome::DuplicateFragment => OutcomeModel::DuplicateFragment,
            InsertOutcome::DuplicateFrame => OutcomeModel::DuplicateFrame,
        }
    }
}

impl InsertOutcome {
    /// Whether fragments of the frame are still missing.
    pub fn is_incomplete(&self) -> (b: bool)
        ensures
            b == (self@ is Incomplete),
    {
        match self {
            InsertOutcome::Incomplete { .. } => true,
            _ => false,
        }
    }

    /// The frame, where this fragment completed it.
    pub fn into_assembled(self) -> (r: Option<AssembledFrame>)
        ensures
            match r {
                Some(f) => self@ == OutcomeModel::Assembled(f@),
                None => !(self@ is Assembled),
            },
    {
        match self {
            InsertOutcome::Assembled(f) => Some(f),
            _ => None,
        }
    }
}

/// Why a packet cannot be taken in.
#[derive(Debug, Clone, Copy, PartialEq, Eq)]
pub enum ReassemblyError {
    /// The packet is not a media fragment.
    NotMedia,
    /// The fragment disagrees with the frame that was begun.
    Conflict(&'static str),
}

impl ReassemblyError {
    /// The text of the error.
    pub open spec fn text(self) -> Seq<char> {
        match self {
            ReassemblyError::NotMedia => "packet is not Media"@,
            ReassemblyError::Conflict(why) => "reassembly conflict: "@ + why@,
        }
    }

    /// Says what is wrong.
    pub fn message(&self) -> (m: String)
        ensures
            m@ == self.text(),
    {
        match self {
            ReassemblyError::NotMedia => String::from_str("packet is not Media"),
            ReassemblyError::Conflict(why) => {
                let mut m = String::from_str("reassembly conflict: ");
                m.append(why);
                m
            },
        }
    }
}

/// A frame in the making, as a value.
#[verifier::ext_equal]
pub struct FrameModel {
    /// Fragments of the frame.
    pub frag_count: u16,
    /// Capture time of all of them.
    pub timestamp: u32,
    /// Flags of the fragment that was accepted first.
    pub flags: Flags,
    /// The payload of each fragment at hand.
    pub slots: Seq<Option<Seq<u8>>>,
    /// Media sequence number of fragment 0.
    pub first_media_seq: Option<u16>,
}

/// How many slots are filled.
pub open spec fn filled<T>(slots: Seq<Option<T>>) -> nat
    decreases slots.len(),
{
    if slots.len() == 0 {
        0
    } else {
        filled(slots.drop_last()) + if slots.last() is Some {
            1nat
        } else {
            0nat
        }
    }
}

/// The payloads of filled slots, one behind the other.
pub open spec fn concat(slots: Seq<Option<Seq<u8>>>) -> Seq<u8>
    decreases slots.len(),
{
    if slots.len() == 0 {
        Seq::empty()
    } else {
        concat(slots.drop_last()) + slots.last()->0
    }
}

impl FrameModel {
    /// A frame of which nothing is at hand, begun by a fragment with header
    /// `h`.
    pub open spec fn begun(h: Header) -> FrameModel {
        FrameModel {
            frag_count: h.frag_count,
            timestamp: h.timestamp,
            flags: h.flags,
            slots: Seq::new(h.frag_count as nat, |i: int| None::<Seq<u8>>),
            first_media_seq: None,
        }
    }

    /// The frame with one more fragment.
    pub open spec fn with(self, h: Header, payload: Seq<u8>) -> FrameModel {
        FrameModel {
            slots: self.slots.update(h.frag_index as int, Some(payload)),
            first_media_seq: if h.frag_index == 0 {
                Some(h.media_seq)
            } else {
                self.first_media_seq
            },
            ..self
        }
    }

    /// Whether there is one slot for each fragment.
    pub open spec fn wf(self) -> bool {
        self.slots.len() == self.frag_count
    }

    /// The complete frame.
    pub open spec fn assembled(self, stream_id: u8, frame_id: u32) -> AssembledModel {
        AssembledModel {
            stream_id,
            frame_id,
            timestamp: self.timestamp,
            flags: self.flags,
            first_media_seq: self.first_media_seq,
            payload: concat(self.slots),
        }
    }
}

/// The state of a [`FrameReassembler`] as a value.
#[verifier::ext_equal]
pub struct ReassemblerModel {
    /// The frames in the making.
    pub frames: Map<u64, FrameModel>,
    /// Their keys, in the order in which they were begun.
    pub order: Seq<u64>,
    /// Keys of finished frames, oldest first.
    pub completed: Seq<u64>,
    /// Bound on the frames in the making.
    pub max_incomplete: int,
    /// Bound on the remembered keys.
    pub history: int,
}

impl ReassemblerModel {
    /// A state without frames.
    pub open spec fn empty(max_incomplete: int, history: int) -> ReassemblerModel {
        ReassemblerModel {
            frames: Map::empty(),
            order: Seq::empty(),
            completed: Seq::empty(),
            max_incomplete,
            history,
        }
    }

    /// What holds of every state.
    pub open spec fn wf(self) -> bool {
        &&& self.max_incomplete > 0
        &&& self.order.no_duplicates()
        &&& self.order.to_set() == self.frames.dom()
        &&& self.order.len() <= self.max_incomplete
        &&& self.completed.no_duplicates()
        &&& self.completed.len() <= self.history
        &&& forall|k: u64| #[trigger]
            self.frames.contains_key(k) ==> self.frames[k].wf() && !self.completed.contains(k)
    }

    /// The state once the oldest frame has made way, if that is needed.
    pub open spec fn evicted(self) -> ReassemblerModel {
        if self.order.len() >= self.max_incomplete {
            ReassemblerModel {
                frames: self.frames.remove(self.order.first()),
                order: self.order.drop_first(),
                ..self
            }
        } else {
            self
        }
    }

    /// The state with a frame begun under `key`.
    pub open spec fn begun(self, key: u64, h: Header) -> ReassemblerModel {
        let e = self.evicted();
        ReassemblerModel {
            frames: e.frames.insert(key, FrameModel::begun(h)),
            order: e.order.push(key),
            ..e
        }
    }

    /// The state without the frame under `key`, which is remembered as
    /// finished.
    pub open spec fn finished(self, key: u64) -> ReassemblerModel {
        ReassemblerModel {
            frames: self.frames.remove(key),
            order: table::kept(self.order, self.frames.remove(key).dom()),
            completed: remembered(self.completed, key, self.history),
            ..self
        }
    }

    /// The state and the outcome once `packet` was taken in.
    pub open spec fn push(self, packet: PacketModel) -> (
        ReassemblerModel,
        Result<OutcomeModel, ReassemblyError>,
    ) {
        match packet {
            PacketModel::Media { header, payload } => {
                let key = stream_key(header.stream_id, header.frame_id);
                if self.completed.contains(key) {
                    (self, Ok(OutcomeModel::DuplicateFrame))
                } else if header.frag_index >= header.frag_count {
                    (self, Err(ReassemblyError::Conflict("frag_index >= frag_count")))
                } else {
                    let m = if self.frames.contains_key(key) {
                        self
                    } else {
                        self.begun(key, header)
                    };
                    m.fill(key, header, payload)
                }
            },
            _ => (self, Err(ReassemblyError::NotMedia)),
        }
    }

    /// The state and the outcome once a fragment of the frame under `key` was
    /// taken in.
    pub open spec fn fill(self, key: u64, header: Header, payload: Seq<u8>) -> (
        ReassemblerModel,
        Result<OutcomeModel, ReassemblyError>,
    ) {
        let f = self.frames[key];
        if f.frag_count != header.frag_count {
            (self, Err(ReassemblyError::Conflict("frag_count mismatch")))
        } else if f.timestamp != header.timestamp {
            (self, Err(ReassemblyError::Conflict("timestamp mismatch")))
        } else if f.slots[header.frag_index as int] is Some {
            (self, Ok(OutcomeModel::DuplicateFragment))
        } else {
            let g = f.with(header, payload);
            if filled(g.slots) < g.frag_count {
                (
                    ReassemblerModel { frames: self.frames.insert(key, g), ..self },
                    Ok(
                        OutcomeModel::Incomplete {
                            have: filled(g.slots) as u16,
                            need: g.frag_count,
                        },
                    ),
                )
            } else {
                (
                    self.finished(key),
                    Ok(OutcomeModel::Assembled(g.assembled(header.stream_id, header.frame_id))),
                )
            }
        }
    }

    /// The state without frames in the making.
    pub open spec fn without_frames(self) -> ReassemblerModel {
        ReassemblerModel { frames: Map::empty(), order: Seq::empty(), ..self }
    }

    /// The state without the frames of one stream.
    pub open spec fn without_stream(self, stream_id: u8) -> ReassemblerModel {
        let frames = self.frames.restrict(Set::new(|k: u64| key_stream(k) != stream_id));
        ReassemblerModel { frames, order: table::kept(self.order, frames.dom()), ..self }
    }
}

/// Remembered keys once `key` was added and the oldest made way.
pub open spec fn remembered(completed: Seq<u64>, key: u64, history: int) -> Seq<u64> {
    if history == 0 {
        completed
    } else if completed.len() >= history {
        completed.drop_first().push(key)
    } else {
        completed.push(key)
    }
}

/// Filling an empty slot adds one to the count.
proof fn lemma_filled_update<T>(slots: Seq<Option<T>>, i: int, v: T)
    requires
        0 <= i < slots.len(),
        slots[i] is None,
    ensures
        filled(slots.update(i, Some(v))) == filled(slots) + 1,
    decreases slots.len(),
{
    let u = slots.update(i, Some(v));
    if i == slots.len() - 1 {
        assert(u.drop_last() =~= slots.drop_last());
    } else {
        lemma_filled_update(slots.drop_last(), i, v);
        assert(u.drop_last() =~= slots.drop_last().update(i, Some(v)));
        assert(u.last() == slots.last());
    }
}

/// The count of filled slots reaches the number of slots just when none is
/// empty.
proof fn lemma_filled_all<T>(slots: Seq<Option<T>>)
    ensures
        filled(slots) <= slots.len(),
        filled(slots) == slots.len() <==> forall|i: int|
            0 <= i < slots.len() ==> #[trigger] slots[i] is Some,
    decreases slots.len(),
{
    if slots.len() > 0 {
        let d = slots.drop_last();
        lemma_filled_all(d);
        if filled(slots) == slots.len() {
            assert forall|i: int| 0 <= i < slots.len() implies #[trigger] slots[i] is Some by {
                if i < d.len() {
                    assert(d[i] == slots[i]);
                }
            }
        }
        if forall|i: int| 0 <= i < slots.len() ==> #[trigger] slots[i] is Some {
            assert forall|i: int| 0 <= i < d.len() implies #[trigger] d[i] is Some by {
                assert(d[i] == slots[i]);
            }
            assert(slots[slots.len() - 1] is Some);
        }
    }
}

proof fn lemma_filled_none<T>(n: nat)
    ensures
        filled(Seq::new(n, |i: int| None::<T>)) == 0,
    decreases n,
{
    let s = Seq::new(n, |i: int| None::<T>);
    if n > 0 {
        lemma_filled_none::<T>((n - 1) as nat);
        assert(s.drop_last() =~= Seq::new((n - 1) as nat, |i: int| None::<T>));
    }
}

/// A frame in the making.
#[derive(Debug)]
struct IncompleteFrame {
    frag_count: u16,
    timestamp: u32,
    flags: Flags,
    slots: Vec<Option<Bytes>>,
    received: u16,
    first_media_seq: Option<u16>,
}

/// What a slot holds.
closed spec fn held(slot: Option<Bytes>) -> Option<Seq<u8>> {
    match slot {
        Some(b) => Some(octets::octets(b)),
        None => None,
    }
}

proof fn lemma_filled_held(slots: Seq<Option<Bytes>>)
    ensures
        filled(slots.map_values(|s: Option<Bytes>| held(s))) == filled(slots),
    decreases slots.len(),
{
    let m = slots.map_values(|s: Option<Bytes>| held(s));
    if slots.len() > 0 {
        lemma_filled_held(slots.drop_last());
        assert(m.drop_last() =~= slots.drop_last().map_values(|s: Option<Bytes>| held(s)));
    }
}

impl IncompleteFrame {
    closed spec fn model(&self) -> FrameModel {
        FrameModel {
            frag_count: self.frag_count,
            timestamp: self.timestamp,
            flags: self.flags,
            slots: self.slots@.map_values(|s: Option<Bytes>| held(s)),
            first_media_seq: self.first_media_seq,
        }
    }

    closed spec fn wf(&self) -> bool {
        self.slots@.len() == self.frag_count && self.received == filled(self.slots@)
    }

    fn new(frag_count: u16, timestamp: u32, flags: Flags) -> (f: Self)
        ensures
            f.wf(),
            f.model().frag_count == frag_count,
            f.model().timestamp == timestamp,
            f.model().flags == flags,
            f.model().first_media_seq is None,
            f.model().slots == Seq::new(frag_count as nat, |i: int| None::<Seq<u8>>),
    {
        let mut slots: Vec<Option<Bytes>> = Vec::new();
        let mut i: u16 = 0;
        while i < frag_count
            invariant
                i <= frag_count,
                slots@ == Seq::new(i as nat, |i: int| None::<Bytes>),
            decreases frag_count - i,
        {
            slots.push(None);
            i = i + 1;
        }
        proof {
            lemma_filled_none::<Bytes>(frag_count as nat);
        }
        let f = IncompleteFrame {
            frag_count,
            timestamp,
            flags,
            slots,
            received: 0,
            first_media_seq: None,
        };
        assert(f.model().slots =~= Seq::new(frag_count as nat, |i: int| None::<Seq<u8>>));
        f
    }

    /// The payloads of a complete frame, joined in index order.
    fn join(&self) -> (out: Vec<u8>)
        requires
            self.wf(),
            self.received == self.frag_count,
        ensures
            out@ == concat(self.model().slots),
    {
        let ghost m = self.model().slots;
        let mut out: Vec<u8> = Vec::new();
        let mut i: usize = 0;
        proof {
            lemma_filled_all(self.slots@);
        }
        while i < self.slots.len()
            invariant
                i <= self.slots@.len(),
                m == self.slots@.map_values(|s: Option<Bytes>| held(s)),
                forall|k: int| 0 <= k < self.slots@.len() ==> #[trigger] self.slots@[k] is Some,
                out@ == concat(m.take(i as int)),
            decreases self.slots@.len() - i,
        {
            assert(self.slots@[i as int] is Some);
            if let Some(b) = &self.slots[i] {
                out.extend_from_slice(octets::as_slice(b));
            }
            assert(m.take(i + 1).drop_last() =~= m.take(i as int));
            assert(m.take(i + 1).last() == m[i as int]);
            assert(out@ =~= concat(m.take(i + 1)));
            i = i + 1;
        }
        assert(m.take(m.len() as int) =~= m);
        out
    }
}

/// Puts frames together from media fragments.
#[derive(Debug)]
pub struct FrameReassembler {
    frames: Table<IncompleteFrame>,
    order: Vec<u64>,
    completed: Table<()>,
    completed_order: VecDeque<u64>,
    max_incomplete_frames: usize,
    completed_history: usize,
}

impl View for FrameReassembler {
    type V = ReassemblerModel;

    closed spec fn view(&self) -> ReassemblerModel {
        ReassemblerModel {
            frames: self.frames@.map_values(|f: IncompleteFrame| f.model()),
            order: self.order@,
            completed: self.completed_order@,
            max_incomplete: self.max_incomplete_frames as int,
            history: self.completed_history as int,
        }
    }
}

impl Default for FrameReassembler {
    fn default() -> (r: Self)
        ensures
            r.wf(),
            r@ == ReassemblerModel::empty(
                DEFAULT_MAX_INCOMPLETE_FRAMES as int,
                DEFAULT_COMPLETED_HISTORY as int,
            ),
    {
        FrameReassembler::new()
    }
}

impl FrameReassembler {
    /// What every reassembler keeps.
    pub closed spec fn wf(&self) -> bool {
        &&& self@.wf()
        &&& self.frames.wf()
        &&& self.completed.wf()
        &&& self.completed@.dom() == self.completed_order@.to_set()
        &&& forall|k: u64| #[trigger] self.frames@.contains_key(k) ==> self.frames@[k].wf()
    }

    /// The state of a well-formed reassembler is well-formed.
    pub proof fn lemma_wf(&self)
        requires
            self.wf(),
        ensures
            self@.wf(),
    {
    }

    /// A reassembler with the default bounds.
    pub fn new() -> (r: Self)
        ensures
            r.wf(),
            r@ == ReassemblerModel::empty(
                DEFAULT_MAX_INCOMPLETE_FRAMES as int,
                DEFAULT_COMPLETED_HISTORY as int,
            ),
    {
        FrameReassembler::with_limits(DEFAULT_MAX_INCOMPLETE_FRAMES, DEFAULT_COMPLETED_HISTORY)
    }

    /// A reassembler with the given bounds.
    pub fn with_limits(max_incomplete_frames: usize, completed_history: usize) -> (r: Self)
        requires
            max_incomplete_frames > 0,
        ensures
            r.wf(),
            r@ == ReassemblerModel::empty(max_incomplete_frames as int, completed_history as int),
    {
        let r = FrameReassembler {
            frames: Table::new(),
            order: Vec::new(),
            completed: Table::new(),
            completed_order: VecDeque::new(),
            max_incomplete_frames,
            completed_history,
        };
        assert(r@.frames =~= Map::<u64, FrameModel>::empty());
        assert(r@.order.to_set() =~= r@.frames.dom());
        assert(r.completed@.dom() =~= r.completed_order@.to_set());
        r
    }

    /// Bound on the frames in the making.
    pub fn max_incomplete_frames(&self) -> (n: usize)
        ensures
            n == self@.max_incomplete,
    {
        self.max_incomplete_frames
    }

    /// Number of frames in the making.
    pub fn incomplete_len(&self) -> (n: usize)
        requires
            self.wf(),
        ensures
            n == self@.order.len(),
    {
        proof {
            self.order@.unique_seq_to_set();
        }
        self.order.len()
    }

    /// Takes in one media fragment.
    pub fn push(&mut self, packet: &Packet<'_>) -> (r: Result<InsertOutcome, ReassemblyError>)
        requires
            old(self).wf(),
        ensures
            final(self).wf(),
            final(self)@ == old(self)@.push(packet@).0,
            match r {
                Ok(o) => old(self)@.push(packet@).1 == Ok::<OutcomeModel, ReassemblyError>(o@),
                Err(e) => old(self)@.push(packet@).1 == Err::<OutcomeModel, ReassemblyError>(e),
            },
    {
        let (header, payload): (Header, &[u8]) = match packet {
            Packet::Media { header, payload } => (*header, *payload),
            _ => return Err(ReassemblyError::NotMedia),
        };
        let key = stream_key(header.stream_id, header.frame_id);
        if self.completed.contains_key(key) {
            return Ok(InsertOutcome::DuplicateFrame);
        }
        assert(!self.completed_order@.to_set().contains(key));
        if header.frag_index >= header.frag_count {
            return Err(ReassemblyError::Conflict("frag_index >= frag_count"));
        }
        if !self.frames.contains_key(key) {
            self.begin(key, header);
        }
        self.fill(key, header, payload)
    }

    fn begin(&mut self, key: u64, header: Header)
        requires
            old(self).wf(),
            !old(self)@.frames.contains_key(key),
            !old(self)@.completed.contains(key),
        ensures
            final(self).wf(),
            final(self)@ == old(self)@.begun(key, header),
            final(self)@.frames.contains_key(key),
    {
        self.evict_if_needed();
        let ghost mid = self@;
        let frame = IncompleteFrame::new(header.frag_count, header.timestamp, header.flags);
        assert(frame.model() == FrameModel::begun(header));
        assert(!self.order@.contains(key)) by {
            assert(self.order@.to_set().contains(key) == self.order@.contains(key));
        }
        self.frames.insert(key, frame);
        self.order.push(key);
        proof {
            assert(self@.frames =~= mid.frames.insert(key, FrameModel::begun(header)));
            mid.order.lemma_push_to_set_commute(key);
            assert(self@.order.to_set() =~= self@.frames.dom());
        }
    }

    fn evict_if_needed(&mut self)
        requires
            old(self).wf(),
        ensures
            final(self).wf(),
            final(self)@ == old(self)@.evicted(),
            final(self)@.order.len() < final(self)@.max_incomplete,
            forall|k: u64| #[trigger]
                final(self)@.frames.contains_key(k) ==> old(self)@.frames.contains_key(k),
    {
        let ghost before = self@;
        if self.order.len() >= self.max_incomplete_frames {
            let victim = self.order.remove(0);
            let _ = self.frames.remove(victim);
            proof {
                assert(self.order@ =~= before.order.drop_first());
                assert(self@.frames =~= before.frames.remove(victim));
                assert forall|k: u64| self.order@.contains(k) <==> before.order.contains(k) && k
                    != victim by {
                    if before.order.contains(k) && k != victim {
                        let i = choose|i: int|
                            0 <= i < before.order.len() && before.order[i] == k;
                        assert(self.order@[i - 1] == k);
                    }
                    if self.order@.contains(k) {
                        let i = choose|i: int| 0 <= i < self.order@.len() && self.order@[i] == k;
                        assert(before.order[i + 1] == k);
                    }
                }
                assert(self@.order.to_set() =~= self@.frames.dom());
            }
        }
    }

    fn fill(&mut self, key: u64, header: Header, payload: &[u8]) -> (r: Result<
        InsertOutcome,
        ReassemblyError,
    >)
        requires
            old(self).wf(),
            old(self)@.frames.contains_key(key),
            header.frag_index < header.frag_count,
            key == stream_key(header.stream_id, header.frame_id),
        ensures
            final(self).wf(),
            final(self)@ == old(self)@.fill(key, header, payload@).0,
            match r {
                Ok(o) => old(self)@.fill(key, header, payload@).1 == Ok::<
                    OutcomeModel,
                    ReassemblyError,
                >(o@),
                Err(e) => old(self)@.fill(key, header, payload@).1 == Err::<
                    OutcomeModel,
                    ReassemblyError,
                >(e),
            },
    {
        let ghost before = self@;
        let ghost f = self@.frames[key];
        let idx: usize = header.frag_index as usize;
        if let Some(frame) = self.frames.get(key) {
            if frame.frag_count != header.frag_count {
                return Err(ReassemblyError::Conflict("frag_count mismatch"));
            }
            if frame.timestamp != header.timestamp {
                return Err(ReassemblyError::Conflict("timestamp mismatch"));
            }
            assert(f.slots[idx as int] == held(frame.slots@[idx as int]));
            if frame.slots[idx].is_some() {
                return Ok(InsertOutcome::DuplicateFragment);
            }
        }
        let taken = self.frames.remove(key);
        let mut frame = match taken {
            Some(frame) => frame,
            None => {
                assert(false);
                return Err(ReassemblyError::NotMedia);
            },
        };
        let ghost slots0 = frame.slots@;
        let piece = Bytes::copy_from_slice(payload);
        proof {
            lemma_filled_update(slots0, idx as int, piece);
            lemma_filled_all(slots0.update(idx as int, Some(piece)));
            lemma_filled_held(slots0.update(idx as int, Some(piece)));
        }
        frame.slots.set(idx, Some(piece));
        frame.received = frame.received + 1;
        if header.frag_index == 0 {
            frame.first_media_seq = Some(header.media_seq);
        }
        let ghost g = f.with(header, payload@);
        assert(frame.model().slots =~= g.slots);
        assert(frame.model() == g);
        if frame.received != frame.frag_count {
            let have: u16 = frame.received;
            let need: u16 = frame.frag_count;
            self.frames.insert(key, frame);
            proof {
                assert(self@.frames =~= before.frames.insert(key, g));
                assert(self@.frames.dom() =~= before.frames.dom());
            }
            return Ok(InsertOutcome::Incomplete { have, need });
        }
        let joined = frame.join();
        let assembled = AssembledFrame {
            stream_id: header.stream_id,
            frame_id: header.frame_id,
            timestamp: frame.timestamp,
            flags: frame.flags,
            first_media_seq: frame.first_media_seq,
            payload: seal(joined),
        };
        self.order = table::keep_keys(&self.order, &self.frames);
        proof {
            assert(self@.frames =~= before.frames.remove(key));
            assert(self.frames@.dom() =~= self@.frames.dom());
            table::lemma_kept(before.order, self@.frames.dom());
            assert(self@.order.to_set() =~= self@.frames.dom()) by {
                assert forall|k: u64| self@.order.to_set().contains(k)
                    <==> self@.frames.dom().contains(k) by {
                    assert(before.order.to_set().contains(k) == before.order.contains(k));
                }
            }
        }
        self.remember_completed(key);
        Ok(InsertOutcome::Assembled(assembled))
    }

    fn remember_completed(&mut self, key: u64)
        requires
            old(self).wf(),
            !old(self)@.completed.contains(key),
            !old(self)@.frames.contains_key(key),
        ensures
            final(self).wf(),
            final(self)@ == (ReassemblerModel {
                completed: remembered(old(self)@.completed, key, old(self)@.history),
                ..old(self)@
            }),
    {
        if self.completed_history == 0 {
            return;
        }
        let ghost c0 = self.completed_order@;
        if self.completed_order.len() >= self.completed_history {
            let oldest = self.completed_order.pop_front();
            if let Some(k) = oldest {
                let _ = self.completed.remove(k);
                proof {
                    assert(self.completed_order@ =~= c0.drop_first());
                    assert forall|x: u64| self.completed_order@.contains(x) <==> c0.contains(x)
                        && x != k by {
                        if c0.contains(x) && x != k {
                            let i = choose|i: int| 0 <= i < c0.len() && c0[i] == x;
                            assert(self.completed_order@[i - 1] == x);
                        }
                        if self.completed_order@.contains(x) {
                            let i = choose|i: int|
                                0 <= i < self.completed_order@.len() && self.completed_order@[i]
                                    == x;
                            assert(c0[i + 1] == x);
                        }
                    }
                    assert(self.completed@.dom() =~= self.completed_order@.to_set());
                }
            }
        }
        let ghost c1 = self.completed_order@;
        assert(!c1.contains(key));
        self.completed.insert(key, ());
        self.completed_order.push_back(key);
        proof {
            assert(self.completed_order@ =~= c1.push(key));
            c1.lemma_push_to_set_commute(key);
            assert(self.completed@.dom() =~= self.completed_order@.to_set());
            assert forall|k: u64| #[trigger] self@.frames.contains_key(k) implies !self@.completed.contains(k) by {
                if self@.completed.contains(k) {
                    assert(self.completed_order@.to_set().contains(k));
                    assert(c1.to_set().contains(k));
                    assert(c1.contains(k));
                    assert(c0.contains(k));
                }
            }
        }
    }

    /// Drops every frame in the making; finished frames stay remembered.
    pub fn clear_incomplete(&mut self)
        requires
            old(self).wf(),
        ensures
            final(self).wf(),
            final(self)@ == old(self)@.without_frames(),
    {
        self.frames.clear();
        self.order.clear();
        assert(self@.frames =~= Map::<u64, FrameModel>::empty());
        assert(self@.order.to_set() =~= self@.frames.dom());
    }

    /// Drops the frames in the making of one stream.
    pub fn clear_stream(&mut self, stream_id: u8)
        requires
            old(self).wf(),
        ensures
            final(self).wf(),
            final(self)@ == old(self)@.without_stream(stream_id),
    {
        let ghost before = self@;
        let ghost keep = Set::new(|k: u64| key_stream(k) != stream_id);
        let mut i: usize = 0;
        while i < self.order.len()
            invariant
                before.wf(),
                keep == Set::new(|k: u64| key_stream(k) != stream_id),
                i <= self.order@.len(),
                self.order@ == before.order,
                self@ == (ReassemblerModel { frames: self@.frames, ..before }),
                self.frames.wf(),
                self.completed.wf(),
                self.completed@.dom() == self.completed_order@.to_set(),
                forall|k: u64| #[trigger] self.frames@.contains_key(k) ==> self.frames@[k].wf(),
                forall|k: u64| #[trigger]
                    self@.frames.contains_key(k) <==> before.frames.contains_key(k) && (
                    keep.contains(k) || !before.order.take(i as int).contains(k)),
                forall|k: u64| #[trigger]
                    self@.frames.contains_key(k) ==> self@.frames[k] == before.frames[k],
            decreases self.order@.len() - i,
        {
            let key: u64 = self.order[i];
            proof {
                let t = before.order.take(i as int);
                let t1 = before.order.take(i + 1);
                assert forall|k: u64| t1.contains(k) <==> t.contains(k) || k == key by {
                    if t1.contains(k) {
                        let j = choose|j: int| 0 <= j < t1.len() && t1[j] == k;
                        if j < i {
                            assert(t[j] == k);
                        }
                    }
                    if t.contains(k) {
                        let j = choose|j: int| 0 <= j < t.len() && t[j] == k;
                        assert(t1[j] == k);
                    }
                    assert(t1[i as int] == key);
                }
            }
            let ghost f0 = self@.frames;
            if key_stream(key) == stream_id as u64 {
                let _ = self.frames.remove(key);
                assert(self@.frames =~= f0.remove(key));
                assert(!keep.contains(key));
            } else {
                assert(keep.contains(key));
            }
            i = i + 1;
        }
        proof {
            assert(before.order.take(before.order.len() as int) =~= before.order);
            assert forall|k: u64| before.frames.contains_key(k) implies before.order.contains(k) by {
                assert(before.order.to_set().contains(k));
            }
            assert(self@.frames =~= before.frames.restrict(keep));
        }
        self.order = table::keep_keys(&self.order, &self.frames);
        proof {
            assert(self.frames@.dom() =~= self@.frames.dom());
            table::lemma_kept(before.order, self@.frames.dom());
            assert(self@.order.to_set() =~= self@.frames.dom());
        }
    }
}

/// Taking in a packet keeps the state well-formed.
pub proof fn lemma_push_wf(m: ReassemblerModel, packet: PacketModel)
    requires
        m.wf(),
    ensures
        m.push(packet).0.wf(),
{
    if let PacketModel::Media { header, payload } = packet {
        let key = stream_key(header.stream_id, header.frame_id);
        if !m.completed.contains(key) && header.frag_index < header.frag_count {
            if !m.frames.contains_key(key) {
                lemma_begun_wf(m, key, header);
                lemma_fill_wf(m.begun(key, header), key, header, payload);
            } else {
                lemma_fill_wf(m, key, header, payload);
            }
        }
    }
}

proof fn lemma_begun_wf(m: ReassemblerModel, key: u64, h: Header)
    requires
        m.wf(),
        !m.frames.contains_key(key),
        !m.completed.contains(key),
    ensures
        m.begun(key, h).wf(),
{
    let e = m.evicted();
    let b = m.begun(key, h);
    if m.order.len() >= m.max_incomplete {
        table::lemma_drop_first(m.order);
    }
    assert(e.order.to_set() =~= e.frames.dom()) by {
        assert forall|k: u64| e.order.to_set().contains(k) <==> e.frames.dom().contains(k) by {
            assert(m.order.to_set().contains(k) == m.order.contains(k));
            assert(e.order.to_set().contains(k) == e.order.contains(k));
        }
    }
    assert(!e.order.contains(key)) by {
        assert(e.order.to_set().contains(key) == e.order.contains(key));
    }
    e.order.lemma_push_to_set_commute(key);
    assert(b.order.to_set() =~= b.frames.dom());
}

proof fn lemma_fill_wf(m: ReassemblerModel, key: u64, header: Header, payload: Seq<u8>)
    requires
        m.wf(),
        m.frames.contains_key(key),
        header.frag_index < header.frag_count,
    ensures
        m.fill(key, header, payload).0.wf(),
{
    let r = m.fill(key, header, payload).0;
    if r.frames.contains_key(key) {
        assert(r.frames.dom() =~= m.frames.dom());
    } else {
        table::lemma_kept(m.order, r.frames.dom());
        assert(r.order.to_set() =~= r.frames.dom()) by {
            assert forall|k: u64| r.order.to_set().contains(k) <==> r.frames.dom().contains(k) by {
                assert(m.order.to_set().contains(k) == m.order.contains(k));
                assert(r.order.to_set().contains(k) == r.order.contains(k));
            }
        }
        let c = m.completed;
        let c1 = if c.len() >= m.history && m.history > 0 {
            c.drop_first()
        } else {
            c
        };
        if c.len() >= m.history && m.history > 0 {
            table::lemma_drop_first(c);
        }
        if m.history > 0 {
            assert(!c1.contains(key));
            assert forall|k: u64| r.completed.contains(k) implies c.contains(k) || k == key by {
                let i = choose|i: int| 0 <= i < r.completed.len() && r.completed[i] == k;
                if i < c1.len() {
                    assert(c1[i] == k);
                    assert(c1.contains(k));
                }
            }
            assert(r.completed.no_duplicates()) by {
                assert forall|i: int, j: int|
                    0 <= i < r.completed.len() && 0 <= j < r.completed.len() && i
                        != j implies r.completed[i] != r.completed[j] by {
                    if i < c1.len() {
                        assert(c1.contains(c1[i]));
                    }
                    if j < c1.len() {
                        assert(c1.contains(c1[j]));
                    }
                }
            }
        }
    }
}

/// The state once the first `k` packets named by `order` were taken in.
pub open spec fn after(
    m: ReassemblerModel,
    packets: Seq<PacketModel>,
    order: Seq<int>,
    k: int,
) -> ReassemblerModel
    decreases k,
{
    if k <= 0 {
        m
    } else {
        after(m, packets, order, k - 1).push(packets[order[k - 1]]).0
    }
}

/// The frame in the making once the first `k` fragments named by `order` are
/// at hand.
spec fn gathered(
    packets: Seq<PacketModel>,
    params: FragmentParams,
    order: Seq<int>,
    k: int,
) -> FrameModel {
    FrameModel {
        frag_count: packets.len() as u16,
        timestamp: params.timestamp,
        flags: params.flags,
        slots: Seq::new(
            packets.len(),
            |i: int|
                if order.take(k).contains(i) {
                    Some(packets[i]->Media_payload)
                } else {
                    None
                },
        ),
        first_media_seq: if order.take(k).contains(0) {
            Some(params.first_media_seq)
        } else {
            None
        },
    }
}

proof fn lemma_take_next(order: Seq<int>, k: int, i: int)
    requires
        0 <= k < order.len(),
    ensures
        order.take(k + 1).contains(i) <==> order.take(k).contains(i) || i == order[k],
{
    let t = order.take(k);
    let t1 = order.take(k + 1);
    if t1.contains(i) {
        let j = choose|j: int| 0 <= j < t1.len() && t1[j] == i;
        if j < k {
            assert(t[j] == i);
        }
    }
    if t.contains(i) {
        let j = choose|j: int| 0 <= j < t.len() && t[j] == i;
        assert(t1[j] == i);
    }
    assert(t1[k] == order[k]);
}

proof fn lemma_gathered_next(
    frame: Seq<u8>,
    params: FragmentParams,
    limits: PayloadSizeLimits,
    order: Seq<int>,
    k: int,
)
    requires
        fragment::fragments(frame, params, limits) is Ok,
        order.no_duplicates(),
        0 <= k < order.len(),
        forall|i: int|
            0 <= i < order.len() ==> 0 <= #[trigger] order[i] < fragment::fragments(
                frame,
                params,
                limits,
            )->Ok_0.len(),
    ensures
        ({
            let f = fragment::fragments(frame, params, limits)->Ok_0;
            let g = gathered(f, params, order, k);
            &&& g.slots[order[k]] is None
            &&& g.with(f[order[k]].header(), f[order[k]]->Media_payload) == gathered(
                f,
                params,
                order,
                k + 1,
            )
        }),
{
    let f = fragment::fragments(frame, params, limits)->Ok_0;
    let g = gathered(f, params, order, k);
    let h = gathered(f, params, order, k + 1);
    let p = f[order[k]];
    assert(!order.take(k).contains(order[k])) by {
        if order.take(k).contains(order[k]) {
            let j = choose|j: int| 0 <= j < k && order.take(k)[j] == order[k];
            assert(order[j] == order[k]);
        }
    }
    assert(p.header().frag_index as int == order[k]);
    assert forall|i: int| 0 <= i < f.len() implies #[trigger] h.slots[i] == g.with(
        p.header(),
        p->Media_payload,
    ).slots[i] by {
        lemma_take_next(order, k, i);
    }
    assert(h.slots =~= g.with(p.header(), p->Media_payload).slots);
    lemma_take_next(order, k, 0);
    if order[k] == 0 {
        assert(p.header().media_seq == seqs::seq_add(params.first_media_seq, 0));
        assert(seqs::seq_add(params.first_media_seq, 0) == params.first_media_seq);
    }
}

proof fn lemma_gathered_count(
    frame: Seq<u8>,
    params: FragmentParams,
    limits: PayloadSizeLimits,
    order: Seq<int>,
    k: int,
)
    requires
        fragment::fragments(frame, params, limits) is Ok,
        order.no_duplicates(),
        0 <= k <= order.len(),
        forall|i: int|
            0 <= i < order.len() ==> 0 <= #[trigger] order[i] < fragment::fragments(
                frame,
                params,
                limits,
            )->Ok_0.len(),
    ensures
        filled(
            gathered(fragment::fragments(frame, params, limits)->Ok_0, params, order, k).slots,
        ) == k,
    decreases k,
{
    let f = fragment::fragments(frame, params, limits)->Ok_0;
    let g = gathered(f, params, order, k);
    if k == 0 {
        lemma_filled_none::<Seq<u8>>(f.len());
        assert(g.slots =~= Seq::new(f.len(), |i: int| None::<Seq<u8>>));
    } else {
        lemma_gathered_count(frame, params, limits, order, k - 1);
        lemma_gathered_next(frame, params, limits, order, k - 1);
        let before = gathered(f, params, order, k - 1);
        lemma_filled_update(before.slots, order[k - 1], f[order[k - 1]]->Media_payload);
    }
}

proof fn lemma_concat_joined(packets: Seq<PacketModel>, slots: Seq<Option<Seq<u8>>>)
    requires
        packets.len() == slots.len(),
        forall|i: int|
            0 <= i < slots.len() ==> #[trigger] slots[i] == Some(packets[i]->Media_payload),
    ensures
        concat(slots) == fragment::joined(packets),
    decreases slots.len(),
{
    if slots.len() > 0 {
        assert forall|i: int| 0 <= i < slots.drop_last().len() implies #[trigger] slots.drop_last()[i]
            == Some(packets.drop_last()[i]->Media_payload) by {
            assert(slots[i] == Some(packets[i]->Media_payload));
        }
        lemma_concat_joined(packets.drop_last(), slots.drop_last());
        assert(slots[slots.len() - 1] == Some(packets[packets.len() - 1]->Media_payload));
    }
}

/// Numbers below the length of a list without repetition all occur in it.
proof fn lemma_all_occur(order: Seq<int>, i: int)
    requires
        order.no_duplicates(),
        forall|j: int| 0 <= j < order.len() ==> 0 <= #[trigger] order[j] < order.len(),
        0 <= i < order.len(),
    ensures
        order.contains(i),
{
    let n = order.len() as int;
    let all = vstd::set_lib::set_int_range(0, n);
    vstd::set_lib::lemma_int_range(0, n);
    order.unique_seq_to_set();
    assert(order.to_set().subset_of(all)) by {
        assert forall|x: int| order.to_set().contains(x) implies all.contains(x) by {
            let j = choose|j: int| 0 <= j < order.len() && order[j] == x;
            assert(0 <= order[j] < order.len());
        }
    }
    if !order.contains(i) {
        vstd::set_lib::lemma_len_subset(order.to_set(), all.remove(i));
        assert(false);
    }
}

proof fn lemma_gathering(
    m: ReassemblerModel,
    frame: Seq<u8>,
    params: FragmentParams,
    limits: PayloadSizeLimits,
    order: Seq<int>,
    k: int,
)
    requires
        m.wf(),
        fragment::fragments(frame, params, limits) is Ok,
        order.len() == fragment::fragments(frame, params, limits)->Ok_0.len(),
        order.no_duplicates(),
        forall|i: int| 0 <= i < order.len() ==> 0 <= #[trigger] order[i] < order.len(),
        !m.frames.contains_key(stream_key(params.stream_id, params.frame_id)),
        !m.completed.contains(stream_key(params.stream_id, params.frame_id)),
        1 <= k < order.len(),
    ensures
        ({
            let f = fragment::fragments(frame, params, limits)->Ok_0;
            let a = after(m, f, order, k);
            let key = stream_key(params.stream_id, params.frame_id);
            &&& a.frames.contains_key(key)
            &&& a.frames[key] == gathered(f, params, order, k)
            &&& a.completed == m.completed
            &&& after(m, f, order, k - 1).push(f[order[k - 1]]).1 == Ok::<
                OutcomeModel,
                ReassemblyError,
            >(OutcomeModel::Incomplete { have: k as u16, need: f.len() as u16 })
        }),
    decreases k,
{
    let f = fragment::fragments(frame, params, limits)->Ok_0;
    let key = stream_key(params.stream_id, params.frame_id);
    let p = f[order[k - 1]];
    let before = after(m, f, order, k - 1);
    assert(0 <= order[k - 1] < order.len());
    assert(p.header().frag_index as int == order[k - 1]);
    lemma_gathered_next(frame, params, limits, order, k - 1);
    lemma_gathered_count(frame, params, limits, order, k);
    if k == 1 {
        assert(gathered(f, params, order, 0).slots =~= FrameModel::begun(p.header()).slots);
        assert(gathered(f, params, order, 0) == FrameModel::begun(p.header()));
    } else {
        lemma_gathering(m, frame, params, limits, order, k - 1);
    }
}

/// The fragments of a frame give the frame back, in whatever order they
/// arrive: each but the last that arrives is counted, and the last completes
/// the frame.
pub proof fn lemma_reassembly(
    m: ReassemblerModel,
    frame: Seq<u8>,
    params: FragmentParams,
    limits: PayloadSizeLimits,
    order: Seq<int>,
)
    requires
        m.wf(),
        fragment::fragments(frame, params, limits) is Ok,
        order.len() == fragment::fragments(frame, params, limits)->Ok_0.len(),
        order.no_duplicates(),
        forall|i: int| 0 <= i < order.len() ==> 0 <= #[trigger] order[i] < order.len(),
        !m.frames.contains_key(stream_key(params.stream_id, params.frame_id)),
        !m.completed.contains(stream_key(params.stream_id, params.frame_id)),
    ensures
        ({
            let f = fragment::fragments(frame, params, limits)->Ok_0;
            let n = f.len() as int;
            &&& forall|k: int|
                0 <= k < n - 1 ==> (#[trigger] after(m, f, order, k)).push(f[order[k]]).1 == Ok::<
                    OutcomeModel,
                    ReassemblyError,
                >(OutcomeModel::Incomplete { have: (k + 1) as u16, need: n as u16 })
            &&& after(m, f, order, n - 1).push(f[order[n - 1]]).1 == Ok::<
                OutcomeModel,
                ReassemblyError,
            >(
                OutcomeModel::Assembled(
                    AssembledModel {
                        stream_id: params.stream_id,
                        frame_id: params.frame_id,
                        timestamp: params.timestamp,
                        flags: params.flags,
                        first_media_seq: Some(params.first_media_seq),
                        payload: frame,
                    },
                ),
            )
        }),
{
    let f = fragment::fragments(frame, params, limits)->Ok_0;
    let n = f.len() as int;
    let key = stream_key(params.stream_id, params.frame_id);
    assert forall|k: int| 0 <= k < n - 1 implies (#[trigger] after(m, f, order, k)).push(
        f[order[k]],
    ).1 == Ok::<OutcomeModel, ReassemblyError>(
        OutcomeModel::Incomplete { have: (k + 1) as u16, need: n as u16 },
    ) by {
        lemma_gathering(m, frame, params, limits, order, k + 1);
    }
    let p = f[order[n - 1]];
    assert(0 <= order[n - 1] < order.len());
    lemma_gathered_next(frame, params, limits, order, n - 1);
    lemma_gathered_count(frame, params, limits, order, n);
    if n == 1 {
        assert(gathered(f, params, order, 0).slots =~= FrameModel::begun(p.header()).slots);
        assert(gathered(f, params, order, 0) == FrameModel::begun(p.header()));
    } else {
        lemma_gathering(m, frame, params, limits, order, n - 1);
    }
    let g = gathered(f, params, order, n);
    assert(order.take(n) =~= order);
    assert forall|i: int| 0 <= i < n implies #[trigger] g.slots[i] == Some(
        f[i]->Media_payload,
    ) by {
        lemma_all_occur(order, i);
    }
    lemma_all_occur(order, 0);
    lemma_concat_joined(f, g.slots);
    fragment::lemma_fragments_join(frame, params, limits);
}

/// A fragment that comes twice changes nothing the second time: it is
/// reported as a copy of a fragment, or of a finished frame.
pub proof fn lemma_duplicate(m: ReassemblerModel, packet: PacketModel)
    requires
        m.wf(),
        m.history > 0,
        m.push(packet).1 is Ok,
    ensures
        m.push(packet).0.push(packet).0 == m.push(packet).0,
        ({
            let again = m.push(packet).0.push(packet).1;
            again == Ok::<OutcomeModel, ReassemblyError>(OutcomeModel::DuplicateFragment) || again
                == Ok::<OutcomeModel, ReassemblyError>(OutcomeModel::DuplicateFrame)
        }),
{
    if let PacketModel::Media { header, payload } = packet {
        let key = stream_key(header.stream_id, header.frame_id);
        let r = m.push(packet).0;
        if !m.completed.contains(key) {
            if r.frames.contains_key(key) {
                lemma_push_wf(m, packet);
            } else {
                let c = r.completed;
                assert(c[c.len() - 1] == key);
                assert(c.contains(key));
            }
        }
    }
}

/// A fragment of one frame leaves the other frames as they are, but for the
/// oldest, which may make way.
pub proof fn lemma_push_others(m: ReassemblerModel, packet: PacketModel, other: u64)
    requires
        m.wf(),
        packet is Media,
        other != stream_key(packet.header().stream_id, packet.header().frame_id),
        m.frames.contains_key(other),
        other != m.order.first() || m.order.len() < m.max_incomplete,
    ensures
        m.push(packet).0.frames.contains_key(other),
        m.push(packet).0.frames[other] == m.frames[other],
{
}

/// A frame has the flags of the fragment that was accepted first: a fragment
/// that begins a frame gives it its flags, and one that comes later, fragment 0
/// too, does not change them.
pub proof fn lemma_first_flags(m: ReassemblerModel, packet: PacketModel)
    requires
        packet is Media,
        m.push(packet).1 is Ok,
    ensures
        ({
            let h = packet.header();
            let key = stream_key(h.stream_id, h.frame_id);
            let flags = if m.frames.contains_key(key) {
                m.frames[key].flags
            } else {
                h.flags
            };
            match m.push(packet).1->Ok_0 {
                OutcomeModel::Assembled(f) => f.flags == flags,
                OutcomeModel::DuplicateFrame => true,
                _ => m.push(packet).0.frames[key].flags == flags,
            }
        }),
{
}

/// Whether `p` carries the same fragment as `q`: it may have been sent again,
/// with another number and another lifetime.
pub open spec fn same_fragment(p: PacketModel, q: PacketModel) -> bool {
    &&& p is Media
    &&& q is Media
    &&& p->Media_payload == q->Media_payload
    &&& p.header() == Header {
        transport_seq: p.header().transport_seq,
        ttl_ms: p.header().ttl_ms,
        flags: Flags { retrans: p.header().flags.retrans, ..q.header().flags },
        ..q.header()
    }
}

/// Whether a packet belongs to the frame under `key`.
pub open spec fn of_frame(p: PacketModel, key: u64) -> bool {
    p is Media && stream_key(p.header().stream_id, p.header().frame_id) == key
}

/// The state once the first `k` of `packets` were taken in.
pub open spec fn taken(m: ReassemblerModel, packets: Seq<PacketModel>, k: int) -> ReassemblerModel
    decreases k,
{
    if k <= 0 {
        m
    } else {
        taken(m, packets, k - 1).push(packets[k - 1]).0
    }
}

/// Whether fragment `i` of the frame under `key` is among the first `k` of
/// `packets`.
pub open spec fn occurs(packets: Seq<PacketModel>, key: u64, k: int, i: int) -> bool {
    exists|j: int|
        0 <= j < k && of_frame(#[trigger] packets[j], key) && packets[j].header().frag_index == i
}

/// Whether every packet of the frame under `key` carries one of `fragments`.
pub open spec fn only_fragments(
    packets: Seq<PacketModel>,
    key: u64,
    fragments: Seq<PacketModel>,
) -> bool {
    forall|j: int|
        0 <= j < packets.len() && of_frame(#[trigger] packets[j], key) ==> {
            &&& packets[j].header().frag_index < fragments.len()
            &&& same_fragment(packets[j], fragments[packets[j].header().frag_index as int])
        }
}

/// Whether the frame under `key` is never the one that makes way.
pub open spec fn stays(m: ReassemblerModel, packets: Seq<PacketModel>, key: u64) -> bool {
    forall|j: int|
        0 <= j < packets.len() ==> ({
            let s = #[trigger] taken(m, packets, j);
            s.frames.contains_key(key) ==> s.order.first() != key || s.order.len()
                < s.max_incomplete
        })
}

proof fn lemma_taken_wf(m: ReassemblerModel, packets: Seq<PacketModel>, k: int)
    requires
        m.wf(),
        0 <= k <= packets.len(),
    ensures
        taken(m, packets, k).wf(),
    decreases k,
{
    if k > 0 {
        lemma_taken_wf(m, packets, k - 1);
        lemma_push_wf(taken(m, packets, k - 1), packets[k - 1]);
    }
}

/// A packet of another frame neither begins nor finishes the one under `key`.
proof fn lemma_apart(m: ReassemblerModel, packet: PacketModel, key: u64)
    requires
        m.wf(),
        !of_frame(packet, key),
        !m.completed.contains(key),
        m.frames.contains_key(key) ==> m.order.first() != key || m.order.len() < m.max_incomplete,
    ensures
        !m.push(packet).0.completed.contains(key),
        m.push(packet).0.frames.contains_key(key) == m.frames.contains_key(key),
        m.frames.contains_key(key) ==> m.push(packet).0.frames[key] == m.frames[key],
{
    if packet is Media {
        let h = packet.header();
        let other = stream_key(h.stream_id, h.frame_id);
        let c = remembered(m.completed, other, m.history);
        assert(!c.contains(key)) by {
            if c.contains(key) {
                let j = choose|j: int| 0 <= j < c.len() && c[j] == key;
                if m.history > 0 && j < c.len() - 1 {
                    if m.completed.len() >= m.history {
                        assert(m.completed[j + 1] == key);
                    } else {
                        assert(m.completed[j] == key);
                    }
                } else if m.history == 0 {
                    assert(m.completed[j] == key);
                }
            }
        }
    }
}

/// All slots are filled just when as many are as there are.
proof fn lemma_all_filled<T>(slots: Seq<Option<T>>)
    ensures
        filled(slots) <= slots.len(),
        filled(slots) == slots.len() <==> forall|i: int|
            0 <= i < slots.len() ==> (#[trigger] slots[i]) is Some,
    decreases slots.len(),
{
    if slots.len() > 0 {
        let front = slots.drop_last();
        lemma_all_filled(front);
        if filled(slots) == slots.len() {
            assert forall|i: int| 0 <= i < slots.len() implies (#[trigger] slots[i]) is Some by {
                if i < front.len() {
                    assert(front[i] is Some);
                }
            }
        }
        if forall|i: int| 0 <= i < slots.len() ==> (#[trigger] slots[i]) is Some {
            assert forall|i: int| 0 <= i < front.len() implies (#[trigger] front[i]) is Some by {
                assert(slots[i] is Some);
            }
        }
    }
}

/// Whether `g` is the frame in the making with the fragments that occur among
/// the first `k` of `packets`.
spec fn holds_occurring(
    g: FrameModel,
    params: FragmentParams,
    fragments: Seq<PacketModel>,
    packets: Seq<PacketModel>,
    key: u64,
    k: int,
) -> bool {
    &&& g.frag_count == fragments.len()
    &&& g.slots.len() == fragments.len()
    &&& g.timestamp == params.timestamp
    &&& g.flags == Flags { retrans: g.flags.retrans, ..params.flags }
    &&& forall|i: int|
        0 <= i < fragments.len() ==> #[trigger] g.slots[i] == (if occurs(packets, key, k, i) {
            Some(fragments[i]->Media_payload)
        } else {
            None
        })
    &&& occurs(packets, key, k, 0) ==> g.first_media_seq == Some(params.first_media_seq)
}

proof fn lemma_occurs_next(packets: Seq<PacketModel>, key: u64, k: int, i: int)
    requires
        0 <= k < packets.len(),
    ensures
        occurs(packets, key, k + 1, i) <==> occurs(packets, key, k, i) || (of_frame(
            packets[k],
            key,
        ) && packets[k].header().frag_index == i),
{
    if occurs(packets, key, k + 1, i) {
        let j = choose|j: int|
            0 <= j < k + 1 && of_frame(#[trigger] packets[j], key)
                && packets[j].header().frag_index == i;
        assert(j == k || occurs(packets, key, k, i));
    }
    if occurs(packets, key, k, i) {
        let j = choose|j: int|
            0 <= j < k && of_frame(#[trigger] packets[j], key) && packets[j].header().frag_index
                == i;
        assert(of_frame(packets[j], key));
    }
    if of_frame(packets[k], key) && packets[k].header().frag_index == i {
        assert(occurs(packets, key, k + 1, i));
    }
}

/// The frame under `key` after the first `k` packets, none of which completes
/// it.
proof fn lemma_in_the_making(
    m: ReassemblerModel,
    frame: Seq<u8>,
    params: FragmentParams,
    limits: PayloadSizeLimits,
    packets: Seq<PacketModel>,
    k: int,
)
    requires
        m.wf(),
        fragment::fragments(frame, params, limits) is Ok,
        0 <= k <= packets.len(),
        ({
            let key = stream_key(params.stream_id, params.frame_id);
            let f = fragment::fragments(frame, params, limits)->Ok_0;
            &&& !m.frames.contains_key(key)
            &&& !m.completed.contains(key)
            &&& only_fragments(packets, key, f)
            &&& stays(m, packets, key)
            &&& exists|i: int| 0 <= i < f.len() && !#[trigger] occurs(packets, key, k, i)
        }),
    ensures
        ({
            let key = stream_key(params.stream_id, params.frame_id);
            let f = fragment::fragments(frame, params, limits)->Ok_0;
            let s = taken(m, packets, k);
            &&& !s.completed.contains(key)
            &&& s.frames.contains_key(key) ==> holds_occurring(
                s.frames[key],
                params,
                f,
                packets,
                key,
                k,
            )
            &&& !s.frames.contains_key(key) ==> forall|i: int| !#[trigger] occurs(packets, key, k, i)
        }),
    decreases k,
{
    let key = stream_key(params.stream_id, params.frame_id);
    let f = fragment::fragments(frame, params, limits)->Ok_0;
    let s = taken(m, packets, k);
    if k > 0 {
        let hole = choose|i: int| 0 <= i < f.len() && !#[trigger] occurs(packets, key, k, i);
        lemma_occurs_next(packets, key, k - 1, hole);
        assert(!occurs(packets, key, k - 1, hole));
        lemma_in_the_making(m, frame, params, limits, packets, k - 1);
        let before = taken(m, packets, k - 1);
        let p = packets[k - 1];
        lemma_taken_wf(m, packets, k - 1);
        assert forall|i: int| #![trigger occurs(packets, key, k, i)]
            occurs(packets, key, k, i) <==> occurs(packets, key, k - 1, i) || (of_frame(p, key)
                && p.header().frag_index == i) by {
            lemma_occurs_next(packets, key, k - 1, i);
        }
        if of_frame(p, key) {
            let h = p.header();
            let at = h.frag_index as int;
            let q = f[at];
            assert(same_fragment(p, q));
            let b = if before.frames.contains_key(key) {
                before
            } else {
                before.begun(key, h)
            };
            let g = b.frames[key];
            assert(b.frames.contains_key(key));
            assert(holds_occurring(g, params, f, packets, key, k - 1)) by {
                if !before.frames.contains_key(key) {
                    assert(g == FrameModel::begun(h));
                }
            }
            if g.slots[at] is None {
                lemma_step(g, params, frame, limits, packets, k - 1);
                let w = g.with(h, p->Media_payload);
                lemma_all_filled(w.slots);
                assert(w.slots[hole] is None);
                assert(s.frames[key] == w);
            } else {
                assert(occurs(packets, key, k - 1, at));
                assert(s == b);
                assert forall|i: int| 0 <= i < f.len() implies #[trigger] g.slots[i] == (if occurs(
                    packets,
                    key,
                    k,
                    i,
                ) {
                    Some(f[i]->Media_payload)
                } else {
                    None
                }) by {
                    assert(occurs(packets, key, k, i) <==> occurs(packets, key, k - 1, i));
                }
                assert(occurs(packets, key, k, 0) <==> occurs(packets, key, k - 1, 0));
            }
        } else {
            lemma_apart(before, p, key);
            if s.frames.contains_key(key) {
                let g = s.frames[key];
                assert forall|i: int| 0 <= i < f.len() implies #[trigger] g.slots[i] == (if occurs(
                    packets,
                    key,
                    k,
                    i,
                ) {
                    Some(f[i]->Media_payload)
                } else {
                    None
                }) by {
                    assert(occurs(packets, key, k, i) <==> occurs(packets, key, k - 1, i));
                }
                assert(occurs(packets, key, k, 0) <==> occurs(packets, key, k - 1, 0));
            }
        }
    }
}

/// One more fragment fills its slot.
proof fn lemma_step(
    g: FrameModel,
    params: FragmentParams,
    frame: Seq<u8>,
    limits: PayloadSizeLimits,
    packets: Seq<PacketModel>,
    k: int,
)
    requires
        fragment::fragments(frame, params, limits) is Ok,
        0 <= k < packets.len(),
        ({
            let key = stream_key(params.stream_id, params.frame_id);
            let f = fragment::fragments(frame, params, limits)->Ok_0;
            &&& of_frame(packets[k], key)
            &&& only_fragments(packets, key, f)
            &&& holds_occurring(g, params, f, packets, key, k)
        }),
    ensures
        ({
            let key = stream_key(params.stream_id, params.frame_id);
            let f = fragment::fragments(frame, params, limits)->Ok_0;
            holds_occurring(
                g.with(packets[k].header(), packets[k]->Media_payload),
                params,
                f,
                packets,
                key,
                k + 1,
            )
        }),
{
    let key = stream_key(params.stream_id, params.frame_id);
    let f = fragment::fragments(frame, params, limits)->Ok_0;
    let p = packets[k];
    let at = p.header().frag_index as int;
    let w = g.with(p.header(), p->Media_payload);
    assert(same_fragment(p, f[at]));
    assert forall|i: int| 0 <= i < f.len() implies #[trigger] w.slots[i] == (if occurs(
        packets,
        key,
        k + 1,
        i,
    ) {
        Some(f[i]->Media_payload)
    } else {
        None
    }) by {
        lemma_occurs_next(packets, key, k, i);
        assert(g.slots[i] == g.slots[i]);
    }
    lemma_occurs_next(packets, key, k, 0);
    if at == 0 {
        assert(f[0].header().media_seq == seqs::seq_add(params.first_media_seq, 0));
        assert(seqs::seq_add(params.first_media_seq, 0) == params.first_media_seq);
    }
}

/// Whatever else arrives, and however often and in whatever order the
/// fragments of a frame do, first sent or sent again: the packet that brings
/// the last missing fragment completes the frame, with every byte in place.
/// No packet before it does.
pub proof fn lemma_completion(
    m: ReassemblerModel,
    frame: Seq<u8>,
    params: FragmentParams,
    limits: PayloadSizeLimits,
    packets: Seq<PacketModel>,
)
    requires
        m.wf(),
        packets.len() > 0,
        fragment::fragments(frame, params, limits) is Ok,
        ({
            let key = stream_key(params.stream_id, params.frame_id);
            let f = fragment::fragments(frame, params, limits)->Ok_0;
            let n = packets.len() as int;
            &&& !m.frames.contains_key(key)
            &&& !m.completed.contains(key)
            &&& only_fragments(packets, key, f)
            &&& stays(m, packets, key)
            &&& of_frame(packets.last(), key)
            &&& !occurs(packets, key, n - 1, packets.last().header().frag_index as int)
            &&& forall|i: int|
                0 <= i < f.len() && i != packets.last().header().frag_index ==> #[trigger] occurs(
                    packets,
                    key,
                    n - 1,
                    i,
                )
        }),
    ensures
        ({
            let key = stream_key(params.stream_id, params.frame_id);
            let n = packets.len() as int;
            let r = taken(m, packets, n - 1).push(packets.last()).1;
            &&& r matches Ok(OutcomeModel::Assembled(a)) && a == (AssembledModel {
                stream_id: params.stream_id,
                frame_id: params.frame_id,
                timestamp: params.timestamp,
                flags: Flags { retrans: a.flags.retrans, ..params.flags },
                first_media_seq: Some(params.first_media_seq),
                payload: frame,
            })
            &&& forall|j: int|
                0 <= j < n - 1 && of_frame(#[trigger] packets[j], key) ==> !(taken(
                    m,
                    packets,
                    j,
                ).push(packets[j]).1 matches Ok(OutcomeModel::Assembled(_)))
        }),
{
    let key = stream_key(params.stream_id, params.frame_id);
    let f = fragment::fragments(frame, params, limits)->Ok_0;
    let n = packets.len() as int;
    let p = packets.last();
    let at = p.header().frag_index as int;
    let before = taken(m, packets, n - 1);
    assert(packets[n - 1] == p);
    assert(!occurs(packets, key, n - 1, at));
    lemma_in_the_making(m, frame, params, limits, packets, n - 1);
    let b = if before.frames.contains_key(key) {
        before
    } else {
        before.begun(key, p.header())
    };
    let g = b.frames[key];
    assert(holds_occurring(g, params, f, packets, key, n - 1)) by {
        assert(same_fragment(p, f[at]));
        if !before.frames.contains_key(key) {
            assert(g == FrameModel::begun(p.header()));
        }
    }
    assert(g.slots[at] is None);
    lemma_step(g, params, frame, limits, packets, n - 1);
    let w = g.with(p.header(), p->Media_payload);
    assert forall|i: int| 0 <= i < f.len() implies #[trigger] w.slots[i] == Some(
        f[i]->Media_payload,
    ) by {
        lemma_occurs_next(packets, key, n - 1, i);
    }
    lemma_all_filled(w.slots);
    lemma_concat_joined(f, w.slots);
    fragment::lemma_fragments_join(frame, params, limits);
    lemma_occurs_next(packets, key, n - 1, 0);
    assert(0 < f.len());
    assert forall|j: int| 0 <= j < n - 1 && of_frame(#[trigger] packets[j], key) implies !(taken(
        m,
        packets,
        j,
    ).push(packets[j]).1 matches Ok(OutcomeModel::Assembled(_))) by {
        lemma_not_yet(m, frame, params, limits, packets, j);
    }
}

/// A packet behind which a fragment is still missing does not complete the
/// frame.
proof fn lemma_not_yet(
    m: ReassemblerModel,
    frame: Seq<u8>,
    params: FragmentParams,
    limits: PayloadSizeLimits,
    packets: Seq<PacketModel>,
    j: int,
)
    requires
        m.wf(),
        fragment::fragments(frame, params, limits) is Ok,
        0 <= j < packets.len() - 1,
        ({
            let key = stream_key(params.stream_id, params.frame_id);
            let f = fragment::fragments(frame, params, limits)->Ok_0;
            let n = packets.len() as int;
            &&& !m.frames.contains_key(key)
            &&& !m.completed.contains(key)
            &&& only_fragments(packets, key, f)
            &&& stays(m, packets, key)
            &&& of_frame(packets[j], key)
            &&& of_frame(packets.last(), key)
            &&& !occurs(packets, key, n - 1, packets.last().header().frag_index as int)
        }),
    ensures
        !(taken(m, packets, j).push(packets[j]).1 matches Ok(OutcomeModel::Assembled(_))),
{
    let key = stream_key(params.stream_id, params.frame_id);
    let f = fragment::fragments(frame, params, limits)->Ok_0;
    let n = packets.len() as int;
    let hole = packets[n - 1].header().frag_index as int;
    assert(of_frame(packets[n - 1], key));
    assert(!occurs(packets, key, j + 1, hole)) by {
        if occurs(packets, key, j + 1, hole) {
            let x = choose|x: int|
                0 <= x < j + 1 && of_frame(#[trigger] packets[x], key)
                    && packets[x].header().frag_index == hole;
            assert(of_frame(packets[x], key));
        }
    }
    lemma_occurs_next(packets, key, j, hole);
    lemma_in_the_making(m, frame, params, limits, packets, j);
    let before = taken(m, packets, j);
    let p = packets[j];
    let at = p.header().frag_index as int;
    assert(same_fragment(p, f[at]));
    let b = if before.frames.contains_key(key) {
        before
    } else {
        before.begun(key, p.header())
    };
    let g = b.frames[key];
    assert(holds_occurring(g, params, f, packets, key, j)) by {
        if !before.frames.contains_key(key) {
            assert(g == FrameModel::begun(p.header()));
        }
    }
    if g.slots[at] is None {
        lemma_step(g, params, frame, limits, packets, j);
        let w = g.with(p.header(), p->Media_payload);
        lemma_all_filled(w.slots);
        assert(w.slots[hole] is None);
    }
}

} // verus!
