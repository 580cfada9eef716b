//! Lists of sequence numbers, and their packed form in retransmission
//! requests.

use crate::bits;
use crate::bits::{has_bit16, set_bit16};
use crate::table;
use vstd::prelude::*;

verus! {

/// `a + n` on the circle of 16-bit numbers.
pub open spec fn seq_add(a: u16, n: int) -> u16 {
    ((a + n) % 0x1_0000) as u16
}

/// How far `a` is past `b` on the circle of 16-bit numbers.
pub open spec fn seq_sub(a: u16, b: u16) -> int {
    (a - b) % 0x1_0000
}

/// `base`, then `base + 1 + i` for each of the first `n` bits `i` of `blp`
/// that is set.
pub open spec fn missing_up_to(base: u16, blp: u16, n: nat) -> Seq<u16>
    decreases n,
{
    if n == 0 {
        seq![base]
    } else {
        let front = missing_up_to(base, blp, (n - 1) as nat);
        if bits::bit16(blp, n - 1) {
            front.push(seq_add(base, n as int))
        } else {
            front
        }
    }
}

/// The sequence numbers that one packed entry stands for.
pub open spec fn missing(entry: (u16, u16)) -> Seq<u16> {
    missing_up_to(entry.0, entry.1, 16)
}

/// The sequence numbers that a list of packed entries stands for.
pub open spec fn all_missing(entries: Seq<(u16, u16)>) -> Seq<u16>
    decreases entries.len(),
{
    if entries.len() == 0 {
        Seq::empty()
    } else {
        all_missing(entries.drop_last()) + missing(entries.last())
    }
}

/// Whether no entry could take in the first number of the next.
pub open spec fn tightly_packed(entries: Seq<(u16, u16)>) -> bool {
    forall|i: int|
        0 <= i < entries.len() - 1 ==> entries[i + 1].0 - #[trigger] entries[i].0 > 16
}

/// Whether `r` lists the numbers in `s`, ascending.
pub open spec fn sorts(r: Seq<u16>, s: Set<u16>) -> bool {
    table::ascending(r) && forall|x: u16| #[trigger] r.contains(x) <==> s.contains(x)
}

/// The numbers in `s`, ascending.
pub open spec fn sorted(s: Set<u16>) -> Seq<u16> {
    choose|r: Seq<u16>| sorts(r, s)
}

/// There is one ascending list of a set.
pub proof fn lemma_sorted(r: Seq<u16>, s: Set<u16>)
    requires
        sorts(r, s),
    ensures
        r == sorted(s),
{
    let c = sorted(s);
    assert(sorts(c, s));
    assert forall|x: u16| r.contains(x) <==> c.contains(x) by {
        assert(r.contains(x) <==> s.contains(x));
        assert(c.contains(x) <==> s.contains(x));
    }
    lemma_ascending_unique(r, c);
}

/// How many numbers of `s` from position `j` on are at most sixteen past the
/// first, up to the first that is not; `j` is added.
pub open spec fn reach(s: Seq<u16>, j: int) -> int
    decreases s.len() - j,
{
    if j < 0 || j >= s.len() || s[j] - s[0] > 16 {
        j
    } else {
        reach(s, j + 1)
    }
}

/// The mask of the first `k` numbers of `s`, relative to the first.
pub open spec fn blp_of(s: Seq<u16>, k: int) -> u16
    decreases k,
{
    if k <= 1 {
        0
    } else {
        blp_of(s, k - 1) | (1u16 << ((s[k - 1] - s[0] - 1) as u16))
    }
}

/// An ascending list, packed: each entry takes in as much as it can.
pub open spec fn packed(s: Seq<u16>) -> Seq<(u16, u16)>
    decreases s.len(),
{
    if s.len() == 0 {
        Seq::empty()
    } else {
        let n = reach(s, 1);
        if 1 <= n <= s.len() {
            seq![(s[0], blp_of(s, n))] + packed(s.skip(n))
        } else {
            Seq::empty()
        }
    }
}

/// Ascending lists of the same numbers are equal.
pub proof fn lemma_ascending_unique(a: Seq<u16>, b: Seq<u16>)
    requires
        table::ascending(a),
        table::ascending(b),
        forall|x: u16| a.contains(x) <==> b.contains(x),
    ensures
        a == b,
    decreases a.len(),
{
    if a.len() == 0 {
        if b.len() > 0 {
            assert(b.contains(b[0]));
            assert(a.contains(b[0]));
        }
        assert(a =~= b);
    } else {
        let x = a.last();
        assert(a.contains(x));
        let j = choose|j: int| 0 <= j < b.len() && b[j] == x;
        let y = b.last();
        assert(b.contains(y));
        assert(a.contains(y));
        let i = choose|i: int| 0 <= i < a.len() && a[i] == y;
        assert(x == y);
        let a1 = a.drop_last();
        let b1 = b.drop_last();
        assert forall|z: u16| a1.contains(z) <==> b1.contains(z) by {
            if a1.contains(z) {
                let k = choose|k: int| 0 <= k < a1.len() && a1[k] == z;
                assert(a[k] == z);
                assert(a.contains(z));
                let l = choose|l: int| 0 <= l < b.len() && b[l] == z;
                assert(z < x);
                assert(b1[l] == z);
            }
            if b1.contains(z) {
                let k = choose|k: int| 0 <= k < b1.len() && b1[k] == z;
                assert(b[k] == z);
                assert(b.contains(z));
                let l = choose|l: int| 0 <= l < a.len() && a[l] == z;
                assert(z < y);
                assert(a1[l] == z);
            }
        }
        lemma_ascending_unique(a1, b1);
        assert(a =~= a1.push(x));
        assert(b =~= b1.push(y));
    }
}

/// Where no set bit wraps, an entry's numbers ascend from its base and are
/// the base and `base + 1 + i` for each set bit `i`.
pub proof fn lemma_missing_up_to(base: u16, blp: u16, n: nat)
    requires
        n <= 16,
        forall|i: int| 0 <= i < n && #[trigger] bits::bit16(blp, i) ==> base + 1 + i < 0x1_0000,
    ensures
        table::ascending(missing_up_to(base, blp, n)),
        forall|k: int|
            0 <= k < missing_up_to(base, blp, n).len() ==> base <= #[trigger] missing_up_to(
                base,
                blp,
                n,
            )[k] <= base + n,
        forall|x: u16|
            missing_up_to(base, blp, n).contains(x) <==> (x == base || (1 <= x - base <= n
                && bits::bit16(blp, x - base - 1))),
    decreases n,
{
    let s = missing_up_to(base, blp, n);
    if n == 0 {
        assert(s[0] == base);
        assert(s.contains(base));
    } else {
        let m = (n - 1) as nat;
        lemma_missing_up_to(base, blp, m);
        let front = missing_up_to(base, blp, m);
        let x = seq_add(base, n as int);
        if bits::bit16(blp, n - 1) {
            assert(base + 1 + (n - 1) < 0x1_0000);
            assert(x == base + n);
            assert(s == front.push(x));
            assert forall|y: u16| s.contains(y) <==> (y == base || (1 <= y - base <= n
                && bits::bit16(blp, y - base - 1))) by {
                if s.contains(y) {
                    let k = choose|k: int| 0 <= k < s.len() && s[k] == y;
                    if k < front.len() {
                        assert(front[k] == y);
                        assert(front.contains(y));
                    }
                }
                if y == x {
                    assert(s[s.len() - 1] == y);
                }
                if front.contains(y) {
                    let k = choose|k: int| 0 <= k < front.len() && front[k] == y;
                    assert(s[k] == y);
                }
            }
        }
    }
}

/// The numbers of the entry `(base, blp)`, in order.
pub fn expand(base: u16, blp: u16) -> (out: Vec<u16>)
    ensures
        out@ == missing((base, blp)),
{
    let mut out: Vec<u16> = Vec::new();
    out.push(base);
    let mut i: u16 = 0;
    assert(out@ =~= seq![base]);
    while i < 16
        invariant
            i <= 16,
            out@ == missing_up_to(base, blp, i as nat),
        decreases 16 - i,
    {
        if has_bit16(blp, i) {
            out.push(base.wrapping_add(i + 1));
        }
        i = i + 1;
    }
    out
}

/// The numbers of `v` in ascending order, each once.
pub fn sort_unique(v: &Vec<u16>) -> (out: Vec<u16>)
    ensures
        table::ascending(out@),
        forall|x: u16| out@.contains(x) <==> v@.contains(x),
{
    let mut out: Vec<u16> = Vec::new();
    let mut i: usize = 0;
    while i < v.len()
        invariant
            i <= v@.len(),
            table::ascending(out@),
            forall|x: u16| out@.contains(x) <==> v@.take(i as int).contains(x),
        decreases v@.len() - i,
    {
        let x = v[i];
        let mut at: usize = out.len();
        while at > 0 && out[at - 1] > x
            invariant
                at <= out@.len(),
                table::ascending(out@),
                forall|k: int| at <= k < out@.len() ==> out@[k] > x,
            decreases at,
        {
            at = at - 1;
        }
        let ghost before = out@;
        if at == 0 || out[at - 1] != x {
            out.insert(at, x);
            assert(out@ == before.insert(at as int, x));
            assert forall|y: u16| out@.contains(y) <==> (y == x || before.contains(y)) by {
                if out@.contains(y) {
                    let k = choose|k: int| 0 <= k < out@.len() && out@[k] == y;
                    if k < at {
                        assert(before[k] == y);
                    } else if k > at {
                        assert(before[k - 1] == y);
                    }
                }
                if before.contains(y) {
                    let k = choose|k: int| 0 <= k < before.len() && before[k] == y;
                    if k < at {
                        assert(out@[k] == y);
                    } else {
                        assert(out@[k + 1] == y);
                    }
                }
                if y == x {
                    assert(out@[at as int] == x);
                }
            }
        } else {
            assert(before.contains(x)) by {
                assert(before[at - 1] == x);
            }
        }
        assert forall|y: u16| out@.contains(y) <==> v@.take(i + 1).contains(y) by {
            let t = v@.take(i as int);
            let t1 = v@.take(i + 1);
            assert(before.contains(y) <==> t.contains(y));
            if t1.contains(y) {
                let k = choose|k: int| 0 <= k < t1.len() && t1[k] == y;
                if k < i {
                    assert(t[k] == y);
                    assert(t.contains(y));
                } else {
                    assert(y == x);
                }
                assert(out@.contains(y));
            }
            if t.contains(y) {
                let k = choose|k: int| 0 <= k < t.len() && t[k] == y;
                assert(t1[k] == y);
            }
            if y == x {
                assert(t1[i as int] == x);
            }
        }
        i = i + 1;
    }
    assert(v@.take(v@.len() as int) =~= v@);
    out
}

/// Packs sequence numbers into as few entries as hold them, each entry a base
/// and a mask over the sixteen numbers behind it.
#[verifier::rlimit(50)]
pub fn pack(seqs: &Vec<u16>) -> (out: Vec<(u16, u16)>)
    ensures
        out@ == packed(sorted(seqs@.to_set())),
        table::ascending(all_missing(out@)),
        forall|x: u16| all_missing(out@).contains(x) <==> seqs@.contains(x),
        tightly_packed(out@),
{
    let sorted = sort_unique(seqs);
    proof {
        assert(sorts(sorted@, seqs@.to_set()));
        lemma_sorted(sorted@, seqs@.to_set());
    }
    let mut out: Vec<(u16, u16)> = Vec::new();
    let mut i: usize = 0;
    assert(sorted@.take(0) =~= all_missing(out@));
    assert(sorted@.skip(0) =~= sorted@);
    assert(out@ + packed(sorted@) =~= packed(sorted@));
    while i < sorted.len()
        invariant
            i <= sorted@.len(),
            packed(sorted@) == out@ + packed(sorted@.skip(i as int)),
            table::ascending(sorted@),
            all_missing(out@) == sorted@.take(i as int),
            tightly_packed(out@),
            out@.len() > 0 && i < sorted@.len() ==> sorted@[i as int] - out@.last().0 > 16,
        decreases sorted@.len() - i,
    {
        let start: usize = i;
        let base = sorted[i];
        let mut blp: u16 = 0;
        proof {
            bits::lemma_zero16();
        }
        i = i + 1;
        let ghost tail = sorted@.skip(start as int);
        while i < sorted.len() && sorted[i] - base <= 16
            invariant
                start < i <= sorted@.len(),
                tail == sorted@.skip(start as int),
                reach(tail, 1) == reach(tail, i - start),
                blp == blp_of(tail, i - start),
                table::ascending(sorted@),
                base == sorted@[start as int],
                forall|k: int| start < k < i ==> sorted@[k] - base <= 16,
                forall|b: int|
                    #[trigger] bits::bit16(blp, b) <==> (0 <= b < 16 && exists|k: int|
                        start < k < i && sorted@[k] == base + 1 + b),
            decreases sorted@.len() - i,
        {
            let d: u16 = sorted[i] - base;
            let ghost old_blp = blp;
            blp = set_bit16(blp, d - 1);
            assert forall|b: int|
                #[trigger] bits::bit16(blp, b) <==> (0 <= b < 16 && exists|k: int|
                    start < k < i + 1 && sorted@[k] == base + 1 + b) by {
                if bits::bit16(blp, b) {
                    if b == d - 1 {
                        assert(sorted@[i as int] == base + 1 + b);
                    } else {
                        assert(bits::bit16(old_blp, b));
                        let k = choose|k: int| start < k < i && sorted@[k] == base + 1 + b;
                        assert(start < k < i + 1 && sorted@[k] == base + 1 + b);
                    }
                }
                if 0 <= b < 16 && exists|k: int|
                    start < k < i + 1 && sorted@[k] == base + 1 + b {
                    let k = choose|k: int| start < k < i + 1 && sorted@[k] == base + 1 + b;
                    if k < i {
                        assert(bits::bit16(old_blp, b));
                    } else {
                        assert(b == d - 1);
                    }
                }
            }
            i = i + 1;
        }
        let ghost group = sorted@.subrange(start as int, i as int);
        proof {
            lemma_missing_up_to(base, blp, 16);
            let m = missing((base, blp));
            assert forall|x: u16| m.contains(x) <==> group.contains(x) by {
                if m.contains(x) {
                    if x == base {
                        assert(group[0] == x);
                    } else {
                        assert(bits::bit16(blp, x - base - 1));
                        let k = choose|k: int|
                            start < k < i && sorted@[k] == base + 1 + (x - base - 1);
                        assert(group[k - start] == x);
                    }
                }
                if group.contains(x) {
                    let k = choose|k: int| 0 <= k < group.len() && group[k] == x;
                    if k > 0 {
                        assert(sorted@[start + k] == x);
                        assert(base + 1 + (x - base - 1) == x);
                        assert(bits::bit16(blp, x - base - 1));
                    }
                }
            }
            lemma_ascending_unique(m, group);
        }
        let ghost before = out@;
        out.push((base, blp));
        proof {
            assert(reach(tail, 1) == i - start);
            assert(tail.skip(i - start) =~= sorted@.skip(i as int));
            assert(before + packed(tail) =~= out@ + packed(sorted@.skip(i as int)));
            assert(out@.drop_last() =~= before);
            assert(sorted@.take(start as int) + group =~= sorted@.take(i as int));
            assert forall|k: int| 0 <= k < out@.len() - 1 implies out@[k + 1].0
                - #[trigger] out@[k].0 > 16 by {
                if k < before.len() - 1 {
                    assert(before[k + 1].0 - before[k].0 > 16);
                } else {
                    assert(out@[k] == before.last());
                }
            }
        }
    }
    assert(sorted@.take(sorted@.len() as int) =~= sorted@);
    assert(sorted@.skip(sorted@.len() as int).len() == 0);
    assert(out@ + packed(sorted@.skip(sorted@.len() as int)) =~= out@);
    out
}

} // verus!
