//! Keyed tables.
//!
//! [`Table`] is a hash table under 64-bit keys, [`SeqTable`] an ordered table
//! under 16-bit sequence numbers. Both are plain finite maps in contracts.

use ahash::RandomState;
use std::collections::hash_map::Keys;
use std::collections::BTreeMap;
use std::collections::HashMap;
use vstd::prelude::*;

verus! {

broadcast use vstd::laws_cmp::group_laws_cmp;

/// The key of item `id` of a stream: distinct pairs have distinct keys.
#[verifier::allow_in_spec]
pub fn stream_key(stream_id: u8, id: u32) -> (key: u64)
    returns
        (stream_id * 0x1_0000_0000 + id) as u64,
{
    stream_id as u64 * 0x1_0000_0000 + id as u64
}

/// The stream that a [`stream_key`] belongs to.
#[verifier::allow_in_spec]
pub fn key_stream(key: u64) -> (stream_id: u64)
    returns
        key / 0x1_0000_0000,
{
    key / 0x1_0000_0000
}

/// The item that a [`stream_key`] belongs to.
#[verifier::allow_in_spec]
pub fn key_id(key: u64) -> (id: u64)
    returns
        key % 0x1_0000_0000,
{
    key % 0x1_0000_0000
}

/// A key gives its stream and its item back.
pub proof fn lemma_stream_key(stream_id: u8, id: u32)
    ensures
        key_stream(stream_key(stream_id, id)) == stream_id,
        key_id(stream_key(stream_id, id)) == id,
{
}

/// The hash builder of the `ahash` crate.
#[verifier::external_type_specification]
#[verifier::external_body]
pub struct ExRandomState(ahash::RandomState);

/// `<HashMap<u64, T, ahash::RandomState> as ahash::HashMapExt>::new`: a map
/// without entries.
#[verifier::external_body]
fn map_new<T>() -> (m: HashMap<u64, T, RandomState>)
    ensures
        m@.dom() == Set::<u64>::empty(),
{
    ahash::HashMapExt::new()
}

/// `HashMap::get` under an `ahash` hasher: the value under `k`, if there is
/// one.
#[verifier::external_body]
fn map_get<T>(m: &HashMap<u64, T, RandomState>, k: u64) -> (r: Option<&T>)
    ensures
        r == (if m@.contains_key(k) {
            Some(&m@[k])
        } else {
            None::<&T>
        }),
{
    m.get(&k)
}

/// `HashMap::insert` under an `ahash` hasher: puts `v` under `k` and returns
/// what was there before.
#[verifier::external_body]
fn map_insert<T>(m: &mut HashMap<u64, T, RandomState>, k: u64, v: T) -> (r: Option<T>)
    ensures
        final(m)@ == old(m)@.insert(k, v),
        r == (if old(m)@.contains_key(k) {
            Some(old(m)@[k])
        } else {
            None::<T>
        }),
{
    m.insert(k, v)
}

/// `HashMap::remove` under an `ahash` hasher: takes the entry under `k` out,
/// if there is one.
#[verifier::external_body]
fn map_remove<T>(m: &mut HashMap<u64, T, RandomState>, k: u64) -> (r: Option<T>)
    ensures
        final(m)@ == old(m)@.remove(k),
        r == (if old(m)@.contains_key(k) {
            Some(old(m)@[k])
        } else {
            None::<T>
        }),
{
    m.remove(&k)
}

/// `HashMap::len` under an `ahash` hasher: the number of entries.
#[verifier::external_body]
fn map_len<T>(m: &HashMap<u64, T, RandomState>) -> (n: usize)
    ensures
        n == m@.len(),
{
    m.len()
}

/// `HashMap::keys` under an `ahash` hasher: every key once, in an order that
/// is left open.
#[verifier::external_body]
fn map_keys<'a, T>(m: &'a HashMap<u64, T, RandomState>) -> (keys: Keys<'a, u64, T>)
    ensures
        keys == vstd::std_specs::hash::spec_keys_iter(m),
        vstd::std_specs::iter::IteratorSpec::decrease(&keys) is Some,
        vstd::std_specs::iter::IteratorSpec::initial_value_relation(&keys, &keys),
{
    m.keys()
}

/// A hash table under 64-bit keys.
#[verifier::reject_recursive_types(T)]
#[derive(Debug, Clone)]
pub struct Table<T> {
    map: HashMap<u64, T, RandomState>,
}

impl<T> View for Table<T> {
    type V = Map<u64, T>;

    closed spec fn view(&self) -> Map<u64, T> {
        self.map@
    }
}

impl<T> Table<T> {
    /// The table holds finitely many entries.
    pub open spec fn wf(&self) -> bool {
        self@.dom().finite()
    }

    /// A table without entries.
    pub fn new() -> (t: Self)
        ensures
            t.wf(),
            t@ == Map::<u64, T>::empty(),
    {
        let t = Table { map: map_new() };
        assert(t@ =~= Map::<u64, T>::empty());
        t
    }

    /// The number of entries.
    pub fn len(&self) -> (n: usize)
        ensures
            n == self@.len(),
    {
        map_len(&self.map)
    }

    /// Whether there is an entry under `k`.
    pub fn contains_key(&self, k: u64) -> (b: bool)
        ensures
            b == self@.contains_key(k),
    {
        map_get(&self.map, k).is_some()
    }

    /// The value under `k`.
    pub fn get(&self, k: u64) -> (r: Option<&T>)
        ensures
            r == (if self@.contains_key(k) {
                Some(&self@[k])
            } else {
                None::<&T>
            }),
    {
        map_get(&self.map, k)
    }

    /// Puts `v` under `k`, in place of what was there.
    pub fn insert(&mut self, k: u64, v: T)
        requires
            old(self).wf(),
        ensures
            final(self).wf(),
            final(self)@ == old(self)@.insert(k, v),
    {
        let _ = map_insert(&mut self.map, k, v);
    }

    /// Takes the entry under `k` out.
    pub fn remove(&mut self, k: u64) -> (r: Option<T>)
        requires
            old(self).wf(),
        ensures
            final(self).wf(),
            final(self)@ == old(self)@.remove(k),
            r == (if old(self)@.contains_key(k) {
                Some(old(self)@[k])
            } else {
                None::<T>
            }),
    {
        map_remove(&mut self.map, k)
    }

    /// Every key once, in an order that is left open.
    pub fn keys(&self) -> (ks: Vec<u64>)
        ensures
            ks@.no_duplicates(),
            ks@.to_set() == self@.dom(),
            ks@.len() == self@.len(),
    {
        let mut out: Vec<u64> = Vec::new();
        let keys = map_keys(&self.map);
        for k in it: keys
            invariant
                it.seq() == vstd::std_specs::iter::IteratorSpec::remaining(&vstd::std_specs::hash::spec_keys_iter(&self.map)),
                out@ == it.seq().unref().take(it.index() as int),
        {
            out.push(*k);
        }
        assert(out@ == vstd::std_specs::iter::IteratorSpec::remaining(&vstd::std_specs::hash::spec_keys_iter(&self.map)).unref());
        out
    }

    /// Takes every entry out.
    pub fn clear(&mut self)
        ensures
            final(self).wf(),
            final(self)@ == Map::<u64, T>::empty(),
    {
        self.map.clear();
    }
}

/// What is left once the first of a list without repetition is gone.
pub proof fn lemma_drop_first(s: Seq<u64>)
    requires
        s.len() > 0,
        s.no_duplicates(),
    ensures
        s.drop_first().no_duplicates(),
        forall|k: u64| #[trigger] s.drop_first().contains(k) <==> s.contains(k) && k != s.first(),
{
    let d = s.drop_first();
    assert forall|i: int, j: int| 0 <= i < d.len() && 0 <= j < d.len() && i != j implies d[i]
        != d[j] by {
        assert(s[i + 1] != s[j + 1]);
    }
    assert forall|k: u64| #[trigger] d.contains(k) <==> s.contains(k) && k != s.first() by {
        if s.contains(k) && k != s.first() {
            let i = choose|i: int| 0 <= i < s.len() && s[i] == k;
            assert(d[i - 1] == k);
        }
        if d.contains(k) {
            let i = choose|i: int| 0 <= i < d.len() && d[i] == k;
            assert(s[i + 1] == k);
            assert(s[0] != s[i + 1]);
        }
    }
}

/// The members of `s` that are in `keep`, in order.
pub open spec fn kept(s: Seq<u64>, keep: Set<u64>) -> Seq<u64>
    decreases s.len(),
{
    if s.len() == 0 {
        s
    } else if keep.contains(s.last()) {
        kept(s.drop_last(), keep).push(s.last())
    } else {
        kept(s.drop_last(), keep)
    }
}

/// What is kept is what is in both, each as often as before.
pub proof fn lemma_kept(s: Seq<u64>, keep: Set<u64>)
    ensures
        kept(s, keep).len() <= s.len(),
        forall|x: u64| #[trigger]
            kept(s, keep).contains(x) <==> s.contains(x) && keep.contains(x),
        s.no_duplicates() ==> kept(s, keep).no_duplicates(),
    decreases s.len(),
{
    if s.len() > 0 {
        let d = s.drop_last();
        lemma_kept(d, keep);
        assert forall|x: u64| s.contains(x) <==> (d.contains(x) || x == s.last()) by {
            if s.contains(x) {
                let i = choose|i: int| 0 <= i < s.len() && s[i] == x;
                if i < d.len() {
                    assert(d[i] == x);
                }
            }
            if d.contains(x) {
                let i = choose|i: int| 0 <= i < d.len() && d[i] == x;
                assert(s[i] == x);
            }
            if x == s.last() {
                assert(s[s.len() - 1] == x);
            }
        }
        let k = kept(d, keep);
        assert forall|x: u64| k.push(s.last()).contains(x) <==> (k.contains(x) || x == s.last()) by {
            let p = k.push(s.last());
            if p.contains(x) {
                let i = choose|i: int| 0 <= i < p.len() && p[i] == x;
                if i < k.len() {
                    assert(k[i] == x);
                }
            }
            if k.contains(x) {
                let i = choose|i: int| 0 <= i < k.len() && k[i] == x;
                assert(p[i] == x);
            }
            assert(p[k.len() as int] == s.last());
        }
        let r = kept(s, keep);
        assert forall|x: u64| #[trigger] r.contains(x) <==> s.contains(x) && keep.contains(x) by {
            assert(k.contains(x) <==> d.contains(x) && keep.contains(x));
            assert(s.contains(x) <==> (d.contains(x) || x == s.last()));
        }
        if s.no_duplicates() {
            assert(d.no_duplicates()) by {
                assert forall|i: int, j: int| 0 <= i < d.len() && 0 <= j < d.len() && i
                    != j implies d[i] != d[j] by {
                    assert(s[i] != s[j]);
                }
            }
            assert(!d.contains(s.last())) by {
                if d.contains(s.last()) {
                    let i = choose|i: int| 0 <= i < d.len() && d[i] == s.last();
                    assert(s[i] != s[s.len() - 1]);
                }
            }
            assert(!k.contains(s.last()));
            assert(k.no_duplicates());
            assert forall|i: int, j: int| 0 <= i < r.len() && 0 <= j < r.len() && i
                != j implies r[i] != r[j] by {
                if i < k.len() {
                    assert(k.contains(k[i]));
                }
                if j < k.len() {
                    assert(k.contains(k[j]));
                }
            }
        }
    }
}

/// The keys in `order` that `t` holds an entry under, in order.
pub fn keep_keys<T>(order: &Vec<u64>, t: &Table<T>) -> (out: Vec<u64>)
    ensures
        out@ == kept(order@, t@.dom()),
{
    let mut out: Vec<u64> = Vec::new();
    let mut i: usize = 0;
    while i < order.len()
        invariant
            i <= order@.len(),
            out@ == kept(order@.take(i as int), t@.dom()),
        decreases order@.len() - i,
    {
        let k: u64 = order[i];
        assert(order@.take(i + 1).drop_last() =~= order@.take(i as int));
        if t.contains_key(k) {
            out.push(k);
        }
        i = i + 1;
    }
    assert(order@.take(order@.len() as int) =~= order@);
    out
}

/// A table under 16-bit sequence numbers, in numeric order.
#[derive(Debug, Clone)]
pub struct SeqTable<T> {
    map: BTreeMap<u16, T>,
}

impl<T> View for SeqTable<T> {
    type V = Map<u16, T>;

    closed spec fn view(&self) -> Map<u16, T> {
        self.map@
    }
}

/// Whether `s` ascends strictly.
pub open spec fn ascending(s: Seq<u16>) -> bool {
    forall|i: int, j: int| 0 <= i < j < s.len() ==> s[i] < s[j]
}

proof fn lemma_increasing(refs: Seq<&u16>)
    requires
        vstd::std_specs::btree::increasing_seq(refs),
    ensures
        ascending(refs.unref()),
{
    broadcast use vstd::std_specs::btree::axiom_increasing_seq_meaning;

    assert(vstd::laws_cmp::obeys_cmp::<&u16>());
    assert forall|i: int, j: int| 0 <= i < j < refs.len() implies refs.unref()[i]
        < refs.unref()[j] by {
        assert(vstd::std_specs::cmp::OrdSpec::cmp_spec(&refs[i], &refs[j]) is Less);
        assert(refs.unref()[i] == *refs[i] && refs.unref()[j] == *refs[j]);
    }
}

impl<T> SeqTable<T> {
    /// A table without entries.
    pub fn new() -> (t: Self)
        ensures
            t@ == Map::<u16, T>::empty(),
    {
        SeqTable { map: BTreeMap::new() }
    }

    /// The number of entries.
    pub fn len(&self) -> (n: usize)
        ensures
            n == self@.len(),
    {
        self.map.len()
    }

    /// Whether there is an entry under `k`.
    pub fn contains_key(&self, k: u16) -> (b: bool)
        ensures
            b == self@.contains_key(k),
    {
        self.map.contains_key(&k)
    }

    /// The value under `k`.
    pub fn get(&self, k: u16) -> (r: Option<&T>)
        ensures
            r == (if self@.contains_key(k) {
                Some(&self@[k])
            } else {
                None::<&T>
            }),
    {
        self.map.get(&k)
    }

    /// Puts `v` under `k`, in place of what was there.
    pub fn insert(&mut self, k: u16, v: T)
        ensures
            final(self)@ == old(self)@.insert(k, v),
    {
        let _ = self.map.insert(k, v);
    }

    /// Takes the entry under `k` out.
    pub fn remove(&mut self, k: u16) -> (r: Option<T>)
        ensures
            final(self)@ == old(self)@.remove(k),
            r == (if old(self)@.contains_key(k) {
                Some(old(self)@[k])
            } else {
                None::<T>
            }),
    {
        self.map.remove(&k)
    }

    /// Every key once, in ascending order.
    pub fn keys(&self) -> (ks: Vec<u16>)
        ensures
            ascending(ks@),
            ks@.to_set() == self@.dom(),
            ks@.len() == self@.len(),
    {
        let mut out: Vec<u16> = Vec::new();
        for k in it: self.map.keys()
            invariant
                it.seq() == vstd::std_specs::iter::IteratorSpec::remaining(&vstd::std_specs::btree::spec_keys_iter(&self.map)),
                out@ == it.seq().unref().take(it.index() as int),
        {
            out.push(*k);
        }
        let ghost refs = vstd::std_specs::iter::IteratorSpec::remaining(&vstd::std_specs::btree::spec_keys_iter(&self.map));
        assert(out@ == refs.unref());
        proof {
            lemma_increasing(refs);
        }
        out
    }

    /// Takes every entry out.
    pub fn clear(&mut self)
        ensures
            final(self)@ == Map::<u16, T>::empty(),
    {
        self.map.clear();
    }
}

} // verus!
