//! Splitting encoded frames into datagram-sized fragments.
//!
//! A frame is cut into payloads of about equal size. The transport never
//! looks inside: the first and the last fragment are told by their index.

use crate::packet::{Flags, Header, Packet, PacketModel, PacketType};
use crate::seqs;
use vstd::prelude::*;
use vstd::slice::slice_subrange;

verus! {

/// Default number of media bytes in one datagram.
pub const DEFAULT_MAX_PAYLOAD_LEN: usize = 1200;

/// How many media bytes fit into a datagram.
#[derive(Debug, Clone, Copy, PartialEq, Eq, Structural)]
pub struct PayloadSizeLimits {
    /// Most media bytes in any fragment.
    pub max_payload_len: usize,
    /// Bytes set aside in the first of several fragments.
    pub first_packet_reduction_len: usize,
    /// Bytes set aside in the last of several fragments.
    pub last_packet_reduction_len: usize,
    /// Bytes set aside where one fragment holds the frame.
    pub single_packet_reduction_len: usize,
}

impl Default for PayloadSizeLimits {
    fn default() -> (l: Self)
        ensures
            l.max_payload_len == DEFAULT_MAX_PAYLOAD_LEN,
            l.first_packet_reduction_len == 0,
            l.last_packet_reduction_len == 0,
            l.single_packet_reduction_len == 0,
    {
        PayloadSizeLimits {
            max_payload_len: DEFAULT_MAX_PAYLOAD_LEN,
            first_packet_reduction_len: 0,
            last_packet_reduction_len: 0,
            single_packet_reduction_len: 0,
        }
    }
}

/// Header fields of the fragments of one frame.
#[derive(Debug, Clone, Copy, PartialEq, Eq, Structural)]
pub struct FragmentParams {
    /// Stream of the frame.
    pub stream_id: u8,
    /// Frame that the fragments are put together to.
    pub frame_id: u32,
    /// Capture time in 90 kHz ticks.
    pub timestamp: u32,
    /// Lifetime that each fragment starts with.
    pub ttl_ms: u16,
    /// Flags of each fragment.
    pub flags: Flags,
    /// Media sequence number of the first fragment; the others count on.
    pub first_media_seq: u16,
    /// Transport sequence number of the first fragment; the others count on.
    pub first_transport_seq: u16,
}

/// Why a frame cannot be split.
#[derive(Debug, Clone, Copy, PartialEq, Eq, Structural)]
pub enum FragmentError {
    /// The frame has no bytes.
    EmptyPayload,
    /// The limits leave no room, or ask for more fragments than bytes.
    ImpossibleLimits,
    /// The fragments do not fit a 16-bit count.
    TooManyFragments,
}

impl FragmentError {
    /// The text of the error.
    pub open spec fn text(self) -> Seq<char> {
        match self {
            FragmentError::EmptyPayload => "empty frame payload"@,
            FragmentError::ImpossibleLimits => "payload size limits cannot carry this frame"@,
            FragmentError::TooManyFragments => "fragment count exceeds u16::MAX"@,
        }
    }

    /// Says what is wrong.
    pub fn message(&self) -> (m: String)
        ensures
            m@ == self.text(),
    {
        match self {
            FragmentError::EmptyPayload => String::from_str("empty frame payload"),
            FragmentError::ImpossibleLimits => String::from_str("payload size limits cannot carry this frame"),
            FragmentError::TooManyFragments => String::from_str("fragment count exceeds u16::MAX"),
        }
    }
}

/// The plan for splitting `len` bytes under limits.
pub struct Split {
    /// Bytes of the frame.
    pub len: int,
    /// Most bytes in any fragment.
    pub max: int,
    /// Bytes set aside in the first fragment.
    pub first: int,
    /// Bytes set aside in the last fragment.
    pub last: int,
    /// Bytes set aside where one fragment holds the frame.
    pub single: int,
}

impl Split {
    /// The plan for `len` bytes under `limits`.
    pub open spec fn of(len: int, limits: PayloadSizeLimits) -> Split {
        Split {
            len,
            max: limits.max_payload_len as int,
            first: limits.first_packet_reduction_len as int,
            last: limits.last_packet_reduction_len as int,
            single: limits.single_packet_reduction_len as int,
        }
    }

    /// Whether one fragment holds the frame.
    pub open spec fn fits_one(self) -> bool {
        self.single + self.len <= self.max
    }

    /// The bytes to spread: the frame, and what is set aside as if it were
    /// frame bytes.
    pub open spec fn total(self) -> int {
        self.len + self.first + self.last
    }

    /// How many fragments the spread bytes take, but at least two.
    pub open spec fn count(self) -> int {
        let n = (self.total() + self.max - 1) / self.max;
        if n == 1 {
            2
        } else {
            n
        }
    }

    /// Whether several fragments can hold the frame: each has room for a byte
    /// of it, and there is a byte for each.
    pub open spec fn fits_many(self) -> bool {
        self.first < self.max && self.last < self.max && self.count() <= self.len
    }

    /// The even share of fragment `k`. The last fragments take the bytes that
    /// are left over, one each.
    pub open spec fn share(self, k: int) -> int {
        let n = self.count();
        self.total() / n + if n - k <= self.total() % n {
            1int
        } else {
            0int
        }
    }

    /// What fragment `k` takes before the end is looked at: its share, less
    /// what is set aside in the first fragment, but at least a byte.
    pub open spec fn claim(self, k: int) -> int {
        if k == 0 {
            if self.share(0) > self.first + 1 {
                self.share(0) - self.first
            } else {
                1
            }
        } else {
            self.share(k)
        }
    }

    /// What the fragments before `k` take, up to the last but one.
    pub open spec fn claimed(self, k: int) -> int
        decreases k,
    {
        if k <= 0 {
            0
        } else {
            self.claimed(k - 1) + self.claim(k - 1)
        }
    }

    /// Bytes of fragment `k` of several. The last takes what is left, and the
    /// last but one leaves it a byte.
    pub open spec fn size(self, k: int) -> int {
        let n = self.count();
        let left = self.len - self.claimed(n - 2);
        if k < n - 2 {
            self.claim(k)
        } else {
            let before_last = if self.claim(n - 2) >= left {
                left - 1
            } else {
                self.claim(n - 2)
            };
            if k == n - 2 {
                before_last
            } else {
                left - before_last
            }
        }
    }

    /// The sizes of the fragments; none where the frame cannot be split.
    pub open spec fn sizes(self) -> Seq<int> {
        if self.fits_one() {
            seq![self.len]
        } else if self.fits_many() {
            Seq::new(self.count() as nat, |k: int| self.size(k))
        } else {
            Seq::empty()
        }
    }
}

/// The sum of the first `k` of `sizes`.
pub open spec fn offset(sizes: Seq<int>, k: int) -> int
    decreases k,
{
    if k <= 0 {
        0
    } else {
        offset(sizes, k - 1) + sizes[k - 1]
    }
}

/// `v` as integers.
pub open spec fn ints(v: Seq<usize>) -> Seq<int> {
    v.map_values(|x: usize| x as int)
}

proof fn lemma_remainder(total: int, n: int)
    requires
        total >= 0,
        n > 0,
    ensures
        total == n * (total / n) + total % n,
        0 <= total % n < n,
        total / n >= 0,
{
    vstd::arithmetic::div_mod::lemma_fundamental_div_mod(total, n);
    vstd::arithmetic::div_mod::lemma_mod_bound(total, n);
    vstd::arithmetic::div_mod::lemma_div_pos_is_pos(total, n);
}

impl Split {
    spec fn splittable(self) -> bool {
        &&& self.len > 0
        &&& self.first >= 0
        &&& self.last >= 0
        &&& self.single >= 0
        &&& !self.fits_one()
        &&& self.fits_many()
    }
}

/// The number of fragments is the least that holds the bytes to spread.
proof fn lemma_count(p: Split)
    requires
        p.splittable(),
    ensures
        p.count() >= 2,
        p.count() > 2 ==> (p.count() - 1) * p.max < p.total(),
        p.total() <= p.count() * p.max,
        p.max == 1 ==> p.total() == p.count(),
        p.total() == p.count() * (p.total() / p.count()) + p.total() % p.count(),
        0 <= p.total() % p.count() < p.count(),
        1 <= p.total() / p.count() <= p.max,
        p.total() / p.count() == p.max ==> p.total() % p.count() == 0,
{
    let t = p.total();
    let m = p.max;
    let c = (t + m - 1) / m;
    lemma_remainder(t + m - 1, m);
    let rest = (t + m - 1) % m;
    assert(m * c == t + m - 1 - rest);
    assert(c * m >= t && (c - 1) * m < t) by (nonlinear_arith)
        requires
            m * c == t + m - 1 - rest,
            0 <= rest < m,
    ;
    if c <= 0 {
        assert(c * m <= 0) by (nonlinear_arith)
            requires
                c <= 0,
                m > 0,
        ;
    }
    assert(m == 1 ==> c == t) by (nonlinear_arith)
        requires
            c * m >= t,
            (c - 1) * m < t,
    ;
    let n = p.count();
    assert(n * m >= t) by (nonlinear_arith)
        requires
            c * m >= t,
            n >= c,
            m > 0,
    ;
    lemma_remainder(t, n);
    let q = t / n;
    let r = t % n;
    assert(q >= 1) by (nonlinear_arith)
        requires
            t == n * q + r,
            0 <= r < n,
            t >= n,
    ;
    assert(q <= m && (q == m ==> r == 0)) by (nonlinear_arith)
        requires
            t == n * q + r,
            n * m >= t,
            0 <= r < n,
            n >= 2,
    ;
}

/// What the fragments before `k` take, in closed form.
proof fn lemma_claimed(p: Split, k: int)
    requires
        p.splittable(),
        1 <= k <= p.count(),
    ensures
        ({
            let n = p.count();
            let q = p.total() / n;
            let r = p.total() % n;
            p.claimed(k) == p.claim(0) + (k - 1) * q + (if r > n - k {
                r - (n - k)
            } else {
                0
            })
        }),
    decreases k,
{
    lemma_count(p);
    let n = p.count();
    let q = p.total() / n;
    if k == 1 {
        assert(p.claimed(0) == 0);
        assert(p.claimed(1) == p.claimed(0) + p.claim(0));
        assert((k - 1) * q == 0) by (nonlinear_arith)
            requires
                k == 1,
        ;
    } else {
        lemma_claimed(p, k - 1);
        assert(p.claimed(k) == p.claimed(k - 1) + p.claim(k - 1));
        assert((k - 1) * q == (k - 2) * q + q) by (nonlinear_arith);
    }
}

/// The last two fragments find two bytes or more.
proof fn lemma_left(p: Split)
    requires
        p.splittable(),
    ensures
        p.len - p.claimed(p.count() - 2) >= 2,
{
    lemma_count(p);
    let n = p.count();
    let q = p.total() / n;
    let r = p.total() % n;
    let t = p.total();
    let m = p.max;
    if n == 2 {
        assert(p.claimed(0) == 0);
    } else {
        lemma_claimed(p, n - 2);
        assert((n - 3) * q == n * q - 3 * q) by (nonlinear_arith);
        let two = if r > 2 {
            2
        } else {
            r
        };
        let taken = p.claim(0) + (n - 3) * q + (r - two);
        assert(p.claimed(n - 2) == taken);
        if p.share(0) > p.first + 1 {
            assert(2 * q + two >= m + 1) by (nonlinear_arith)
                requires
                    n >= 3,
                    m >= 1,
                    t == n * q + r,
                    (n - 1) * m < t,
                    0 <= r < n,
                    two == (if r > 2 {
                        2int
                    } else {
                        r
                    }),
            {
                if 2 * q <= m - two {
                    assert(n * (2 * q) <= n * (m - two));
                    assert(n * (2 * q) == 2 * (t - r));
                    assert(2 * t >= 2 * ((n - 1) * m) + 2);
                    assert((n - 1) * m == n * m - m);
                    assert(n * (m - two) == n * m - n * two);
                    assert((n - 2) * m >= m);
                    assert((n - 2) * m == n * m - 2 * m);
                    assert(n * two >= 2 * r || r > 2);
                }
            }
        } else {
            assert(3 * q + two >= 2 * m + 1) by (nonlinear_arith)
                requires
                    n >= 3,
                    m >= 1,
                    m == 1 ==> t == n,
                    t == n * q + r,
                    (n - 1) * m < t,
                    0 <= r < n,
                    two == (if r > 2 {
                        2int
                    } else {
                        r
                    }),
            {
                if 3 * q + two <= 2 * m {
                    if n == 3 {
                        assert(t == 3 * q + two);
                    } else {
                        assert(n * (3 * q) <= n * (2 * m - two));
                        assert(n * (3 * q) == 3 * (t - r));
                        assert((n - 1) * m == n * m - m);
                        assert(n * (2 * m - two) == 2 * (n * m) - n * two);
                        assert(n * m >= 4 * m);
                        if m == 1 {
                            assert(q == 1 && r == 0);
                        } else {
                            assert((n - 3) * m >= (n - 3) * 2);
                            assert((n - 3) * m == n * m - 3 * m);
                        }
                    }
                }
            }
        }
    }
}

/// All fragments together claim the frame.
proof fn lemma_claims_cover(p: Split)
    requires
        p.splittable(),
    ensures
        p.claimed(p.count() - 2) + p.claim(p.count() - 2) + p.claim(p.count() - 1) >= p.len,
        p.len - p.claimed(p.count() - 2) - p.claim(p.count() - 2) <= p.max - p.last,
{
    lemma_count(p);
    let n = p.count();
    let q = p.total() / n;
    lemma_claimed(p, n);
    lemma_claimed(p, n - 1);
    assert(p.claimed(n) == p.claimed(n - 1) + p.claim(n - 1));
    assert(p.claimed(n - 1) == p.claimed(n - 2) + p.claim(n - 2));
    assert((n - 1) * q == n * q - q) by (nonlinear_arith);
    assert((n - 2) * q == n * q - 2 * q) by (nonlinear_arith);
}

/// What is claimed grows with each fragment.
proof fn lemma_claimed_monotone(p: Split, a: int, b: int)
    requires
        p.splittable(),
        0 <= a <= b <= p.count(),
    ensures
        p.claimed(a) + (b - a) <= p.claimed(b),
    decreases b - a,
{
    lemma_count(p);
    if a < b {
        lemma_claimed_monotone(p, a, b - 1);
        assert(p.claimed(b) == p.claimed(b - 1) + p.claim(b - 1));
        assert(p.claim(b - 1) >= 1);
    }
}

proof fn lemma_offset_claimed(p: Split, k: int)
    requires
        p.splittable(),
        0 <= k <= p.count() - 2,
    ensures
        offset(p.sizes(), k) == p.claimed(k),
    decreases k,
{
    lemma_count(p);
    if k > 0 {
        lemma_offset_claimed(p, k - 1);
        assert(p.sizes()[k - 1] == p.size(k - 1));
    }
}

/// Splitting loses nothing: where a frame can be split, no fragment is empty
/// and together they are as long as the frame.
pub proof fn lemma_split_complete(len: int, limits: PayloadSizeLimits)
    requires
        len > 0,
    ensures
        ({
            let s = Split::of(len, limits).sizes();
            s.len() > 0 ==> {
                &&& forall|k: int| 0 <= k < s.len() ==> #[trigger] s[k] >= 1
                &&& offset(s, s.len() as int) == len
                &&& s.len() <= len
            }
        }),
{
    let p = Split::of(len, limits);
    let s = p.sizes();
    if p.fits_one() {
        assert(offset(s, 0) == 0);
        assert(offset(s, 1) == offset(s, 0) + s[0]);
    } else if p.fits_many() {
        lemma_count(p);
        lemma_left(p);
        lemma_claims_cover(p);
        let n = p.count();
        lemma_offset_claimed(p, n - 2);
        assert(s[n - 2] == p.size(n - 2));
        assert(s[n - 1] == p.size(n - 1));
        assert(offset(s, n) == offset(s, n - 1) + s[n - 1]);
        assert(offset(s, n - 1) == offset(s, n - 2) + s[n - 2]);
        assert forall|k: int| 0 <= k < s.len() implies #[trigger] s[k] >= 1 by {
            assert(p.claim(k) >= 1);
            assert(p.claim(n - 2) >= 1);
        }
    }
}

/// No fragment is larger than the limits allow: one alone leaves room for its
/// reduction, the first and the last of several for theirs.
pub proof fn lemma_split_within_limits(len: int, limits: PayloadSizeLimits)
    requires
        len > 0,
    ensures
        ({
            let s = Split::of(len, limits).sizes();
            &&& s.len() == 1 ==> s[0] + limits.single_packet_reduction_len
                <= limits.max_payload_len
            &&& s.len() > 1 ==> s[0] + limits.first_packet_reduction_len <= limits.max_payload_len
            &&& s.len() > 1 ==> s.last() + limits.last_packet_reduction_len
                <= limits.max_payload_len
            &&& forall|k: int| 0 <= k < s.len() ==> #[trigger] s[k] <= limits.max_payload_len
        }),
{
    let p = Split::of(len, limits);
    let s = p.sizes();
    if !p.fits_one() && p.fits_many() {
        lemma_count(p);
        lemma_left(p);
        lemma_claims_cover(p);
        let n = p.count();
        assert(s[0] == p.size(0));
        assert(s.last() == p.size(n - 1));
        assert forall|k: int| 0 <= k < s.len() implies #[trigger] s[k] <= limits.max_payload_len by {
            assert(s[k] == p.size(k));
            assert(p.claim(k) <= p.max);
        }
    }
}

/// Fragments between the first and the last two differ by at most a byte.
pub proof fn lemma_split_even(len: int, limits: PayloadSizeLimits, i: int, j: int)
    requires
        len > 0,
        0 < i < Split::of(len, limits).sizes().len() - 2,
        0 < j < Split::of(len, limits).sizes().len() - 2,
    ensures
        -1 <= Split::of(len, limits).sizes()[i] - Split::of(len, limits).sizes()[j] <= 1,
{
}

/// The sizes of the fragments of a frame of `payload_len` bytes; none where
/// the limits cannot carry it.
pub fn split_about_equally(payload_len: usize, limits: &PayloadSizeLimits) -> (sizes: Vec<usize>)
    requires
        payload_len > 0,
    ensures
        ints(sizes@) == Split::of(payload_len as int, *limits).sizes(),
{
    let ghost p = Split::of(payload_len as int, *limits);
    let len: u128 = payload_len as u128;
    let max: u128 = limits.max_payload_len as u128;
    let first: u128 = limits.first_packet_reduction_len as u128;
    let last: u128 = limits.last_packet_reduction_len as u128;
    let mut result: Vec<usize> = Vec::new();
    if max >= limits.single_packet_reduction_len as u128 + len {
        result.push(payload_len);
        assert(ints(result@) =~= p.sizes());
        return result;
    }
    if max <= first || max <= last {
        assert(ints(result@) =~= p.sizes());
        return result;
    }
    let total: u128 = len + first + last;
    let mut left: u128 = (total + max - 1) / max;
    if left == 1 {
        left = 2;
    }
    assert(left == p.count());
    if len < left {
        assert(ints(result@) =~= p.sizes());
        return result;
    }
    proof {
        lemma_count(p);
        lemma_left(p);
        lemma_claims_cover(p);
    }
    let ghost n = p.count();
    let mut per: u128 = total / left;
    let larger: u128 = total % left;
    let mut remaining: u128 = len;
    while remaining > 0
        invariant
            p == Split::of(payload_len as int, *limits),
            p.splittable(),
            n == p.count(),
            n >= 2,
            first == p.first,
            larger == p.total() % n,
            larger < n,
            1 <= p.total() / n <= p.max,
            p.max <= usize::MAX,
            p.len <= usize::MAX,
            p.len - p.claimed(n - 2) >= 2,
            p.claimed(n - 2) + p.claim(n - 2) + p.claim(n - 1) >= p.len,
            result@.len() <= n,
            left == n - result@.len(),
            remaining <= p.len,
            per == (if result@.len() == 0 {
                p.total() / n
            } else {
                p.share(result@.len() - 1)
            }),
            result@.len() <= n - 2 ==> remaining == p.len - p.claimed(result@.len() as int),
            result@.len() == n - 1 ==> remaining == p.size(n - 1) && remaining >= 1,
            result@.len() == n ==> remaining == 0,
            forall|k: int| 0 <= k < result@.len() ==> #[trigger] result@[k] == p.size(k),
        decreases remaining,
    {
        let ghost k = result@.len() as int;
        if left == larger {
            per = per + 1;
        }
        assert(per == p.share(k));
        let mut current: u128 = per;
        if result.len() == 0 {
            if current > first + 1 {
                current = current - first;
            } else {
                current = 1;
            }
        }
        assert(current == p.claim(k));
        proof {
            if k < n - 2 {
                lemma_claimed_monotone(p, k + 1, n - 2);
                assert(p.claimed(k + 1) == p.claimed(k) + p.claim(k));
            }
        }
        if current > remaining {
            current = remaining;
        }
        if left == 2 && current == remaining {
            current = current - 1;
        }
        assert(current == p.size(k));
        assert(current >= 1);
        result.push(current as usize);
        remaining = remaining - current;
        left = left - 1;
    }
    assert(result@.len() == n) by {
        if result@.len() <= n - 2 {
            lemma_claimed_monotone(p, result@.len() as int, n - 2);
        }
    }
    assert(ints(result@) =~= p.sizes());
    result
}

/// Fragment `k` of `frame` cut into `sizes`.
pub open spec fn fragment_at(
    frame: Seq<u8>,
    params: FragmentParams,
    sizes: Seq<int>,
    k: int,
) -> PacketModel {
    PacketModel::Media {
        header: Header {
            packet_type: PacketType::Media,
            flags: params.flags,
            stream_id: params.stream_id,
            media_seq: seqs::seq_add(params.first_media_seq, k),
            transport_seq: seqs::seq_add(params.first_transport_seq, k),
            frame_id: params.frame_id,
            frag_index: k as u16,
            frag_count: sizes.len() as u16,
            timestamp: params.timestamp,
            ttl_ms: params.ttl_ms,
        },
        payload: frame.subrange(offset(sizes, k), offset(sizes, k + 1)),
    }
}

/// The fragments of `frame`, or why there are none.
pub open spec fn fragments(
    frame: Seq<u8>,
    params: FragmentParams,
    limits: PayloadSizeLimits,
) -> Result<Seq<PacketModel>, FragmentError> {
    let sizes = Split::of(frame.len() as int, limits).sizes();
    if frame.len() == 0 {
        Err(FragmentError::EmptyPayload)
    } else if sizes.len() == 0 {
        Err(FragmentError::ImpossibleLimits)
    } else if sizes.len() > u16::MAX {
        Err(FragmentError::TooManyFragments)
    } else {
        Ok(Seq::new(sizes.len(), |k: int| fragment_at(frame, params, sizes, k)))
    }
}

/// Packets as values.
pub open spec fn models(packets: Seq<Packet<'_>>) -> Seq<PacketModel> {
    packets.map_values(|p: Packet<'_>| p@)
}

/// A splitting outcome as a value.
pub open spec fn outcome(
    r: Result<Vec<Packet<'_>>, FragmentError>,
) -> Result<Seq<PacketModel>, FragmentError> {
    match r {
        Ok(v) => Ok(models(v@)),
        Err(e) => Err(e),
    }
}

proof fn lemma_offset_monotone(sizes: Seq<int>, a: int, b: int)
    requires
        0 <= a <= b <= sizes.len(),
        forall|k: int| 0 <= k < sizes.len() ==> #[trigger] sizes[k] >= 1,
    ensures
        0 <= offset(sizes, a) <= offset(sizes, b),
    decreases b,
{
    if a < b {
        lemma_offset_monotone(sizes, a, b - 1);
    } else if a > 0 {
        lemma_offset_monotone(sizes, a - 1, b - 1);
    }
}

/// The payloads of a run of media packets, one behind the other.
pub open spec fn joined(packets: Seq<PacketModel>) -> Seq<u8>
    decreases packets.len(),
{
    if packets.len() == 0 {
        Seq::empty()
    } else {
        joined(packets.drop_last()) + packets.last()->Media_payload
    }
}

proof fn lemma_joined_prefix(
    frame: Seq<u8>,
    params: FragmentParams,
    limits: PayloadSizeLimits,
    k: int,
)
    requires
        fragments(frame, params, limits) is Ok,
        0 <= k <= fragments(frame, params, limits)->Ok_0.len(),
    ensures
        joined(fragments(frame, params, limits)->Ok_0.take(k)) == frame.take(
            offset(Split::of(frame.len() as int, limits).sizes(), k),
        ),
    decreases k,
{
    let f = fragments(frame, params, limits)->Ok_0;
    let s = Split::of(frame.len() as int, limits).sizes();
    lemma_split_complete(frame.len() as int, limits);
    lemma_offset_monotone(s, k, s.len() as int);
    if k == 0 {
        assert(f.take(0).len() == 0);
    } else {
        lemma_joined_prefix(frame, params, limits, k - 1);
        lemma_offset_monotone(s, k - 1, k);
        assert(f.take(k).drop_last() =~= f.take(k - 1));
        assert(f.take(k).last() == f[k - 1]);
        assert(frame.take(offset(s, k - 1)) + frame.subrange(offset(s, k - 1), offset(s, k))
            =~= frame.take(offset(s, k)));
    }
}

/// The fragments cover the whole frame without overlap: joined in order, their
/// payloads are the frame.
pub proof fn lemma_fragments_join(
    frame: Seq<u8>,
    params: FragmentParams,
    limits: PayloadSizeLimits,
)
    requires
        fragments(frame, params, limits) is Ok,
    ensures
        joined(fragments(frame, params, limits)->Ok_0) == frame,
{
    let f = fragments(frame, params, limits)->Ok_0;
    let s = Split::of(frame.len() as int, limits).sizes();
    lemma_split_complete(frame.len() as int, limits);
    lemma_joined_prefix(frame, params, limits, f.len() as int);
    assert(f.take(f.len() as int) =~= f);
    assert(frame.take(offset(s, s.len() as int)) =~= frame);
}

/// Every fragment is a datagram that a decoder accepts.
pub proof fn lemma_fragments_valid(
    frame: Seq<u8>,
    params: FragmentParams,
    limits: PayloadSizeLimits,
    k: int,
)
    requires
        fragments(frame, params, limits) is Ok,
        0 <= k < fragments(frame, params, limits)->Ok_0.len(),
    ensures
        fragments(frame, params, limits)->Ok_0[k].valid(),
{
}

/// Splits an encoded frame into media packets that borrow from it.
pub fn fragment<'a>(
    frame: &'a [u8],
    params: &FragmentParams,
    limits: &PayloadSizeLimits,
) -> (r: Result<Vec<Packet<'a>>, FragmentError>)
    ensures
        outcome(r) == fragments(frame@, *params, *limits),
{
    if frame.len() == 0 {
        return Err(FragmentError::EmptyPayload);
    }
    let sizes = split_about_equally(frame.len(), limits);
    let ghost s = Split::of(frame@.len() as int, *limits).sizes();
    assert(s.len() == sizes@.len());
    if sizes.len() == 0 {
        return Err(FragmentError::ImpossibleLimits);
    }
    if sizes.len() > u16::MAX as usize {
        return Err(FragmentError::TooManyFragments);
    }
    let frag_count: u16 = sizes.len() as u16;
    let mut packets: Vec<Packet<'a>> = Vec::new();
    let mut start: usize = 0;
    let mut i: u16 = 0;
    proof {
        lemma_split_complete(frame@.len() as int, *limits);
    }
    while i < frag_count
        invariant
            s == ints(sizes@),
            s == Split::of(frame@.len() as int, *limits).sizes(),
            frag_count == s.len(),
            i <= frag_count,
            start == offset(s, i as int),
            frame@.len() <= usize::MAX,
            offset(s, s.len() as int) == frame@.len(),
            forall|k: int| 0 <= k < s.len() ==> #[trigger] s[k] >= 1,
            packets@.len() == i,
            forall|k: int|
                0 <= k < i ==> #[trigger] packets@[k]@ == fragment_at(frame@, *params, s, k),
        decreases frag_count - i,
    {
        proof {
            lemma_offset_monotone(s, i + 1, s.len() as int);
            lemma_offset_monotone(s, i as int, i + 1);
            assert(offset(s, i + 1) == offset(s, i as int) + s[i as int]);
            assert(s[i as int] == sizes@[i as int]);
        }
        let end: usize = start + sizes[i as usize];
        let payload = slice_subrange(frame, start, end);
        start = end;
        let header = Header {
            packet_type: PacketType::Media,
            flags: params.flags,
            stream_id: params.stream_id,
            media_seq: params.first_media_seq.wrapping_add(i),
            transport_seq: params.first_transport_seq.wrapping_add(i),
            frame_id: params.frame_id,
            frag_index: i,
            frag_count,
            timestamp: params.timestamp,
            ttl_ms: params.ttl_ms,
        };
        packets.push(Packet::Media { header, payload });
        assert(packets@[i as int]@ == fragment_at(frame@, *params, s, i as int));
        i = i + 1;
    }
    assert(models(packets@) =~= fragments(frame@, *params, *limits)->Ok_0);
    Ok(packets)
}

} // verus!
