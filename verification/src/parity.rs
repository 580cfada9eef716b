//! XOR over byte strings of unequal length.
//!
//! A selection names a byte string, or none, for each of a run of positions.
//! Shorter strings count as padded with zeros.

use vstd::prelude::*;

verus! {

/// Byte `i` of `w`, which zeros follow without end.
pub open spec fn byte_at(w: Seq<u8>, i: int) -> u8 {
    if 0 <= i < w.len() {
        w[i]
    } else {
        0
    }
}

/// A length as it enters the XOR of lengths.
pub open spec fn len16(w: Seq<u8>) -> u16 {
    (w.len() % 0x1_0000) as u16
}

/// The XOR of byte `i` of the strings at positions below `k`.
pub open spec fn parity(sel: spec_fn(int) -> Option<Seq<u8>>, k: int, i: int) -> u8
    decreases k,
{
    if k <= 0 {
        0
    } else {
        match sel(k - 1) {
            Some(w) => parity(sel, k - 1, i) ^ byte_at(w, i),
            None => parity(sel, k - 1, i),
        }
    }
}

/// The XOR of the lengths of the strings at positions below `k`.
pub open spec fn len_parity(sel: spec_fn(int) -> Option<Seq<u8>>, k: int) -> u16
    decreases k,
{
    if k <= 0 {
        0
    } else {
        match sel(k - 1) {
            Some(w) => len_parity(sel, k - 1) ^ len16(w),
            None => len_parity(sel, k - 1),
        }
    }
}

/// The length of the longest string at the positions below `k`.
pub open spec fn longest(sel: spec_fn(int) -> Option<Seq<u8>>, k: int) -> nat
    decreases k,
{
    if k <= 0 {
        0
    } else {
        let n = longest(sel, k - 1);
        match sel(k - 1) {
            Some(w) => if w.len() > n {
                w.len()
            } else {
                n
            },
            None => n,
        }
    }
}

/// The mask of the positions below `k` that name a string.
pub open spec fn mask_of(sel: spec_fn(int) -> Option<Seq<u8>>, k: int) -> u64
    decreases k,
{
    if k <= 0 {
        0
    } else {
        match sel(k - 1) {
            Some(w) => mask_of(sel, k - 1) | (1u64 << ((k - 1) as u64)),
            None => mask_of(sel, k - 1),
        }
    }
}

/// The XOR of the strings at positions below `k`, as long as the longest.
pub open spec fn xor_all(sel: spec_fn(int) -> Option<Seq<u8>>, k: int) -> Seq<u8> {
    Seq::new(longest(sel, k), |i: int| parity(sel, k, i))
}

pub proof fn lemma_xor8(a: u8, b: u8, c: u8)
    ensures
        (a ^ b) ^ c == a ^ (b ^ c),
        a ^ b == b ^ a,
        a ^ a == 0,
        a ^ 0 == a,
        0 ^ a == a,
        (a ^ c) ^ (b ^ c) == a ^ b,
        (a ^ c) ^ a == c,
{
    assert((a ^ b) ^ c == a ^ (b ^ c) && a ^ b == b ^ a && a ^ a == 0 && a ^ 0 == a && 0 ^ a == a
        && (a ^ c) ^ (b ^ c) == a ^ b && (a ^ c) ^ a == c) by (bit_vector);
}

pub proof fn lemma_xor16(a: u16, b: u16, c: u16)
    ensures
        (a ^ b) ^ c == a ^ (b ^ c),
        a ^ b == b ^ a,
        a ^ a == 0,
        a ^ 0 == a,
        0 ^ a == a,
        (a ^ c) ^ (b ^ c) == a ^ b,
        (a ^ c) ^ a == c,
{
    assert((a ^ b) ^ c == a ^ (b ^ c) && a ^ b == b ^ a && a ^ a == 0 && a ^ 0 == a && 0 ^ a == a
        && (a ^ c) ^ (b ^ c) == a ^ b && (a ^ c) ^ a == c) by (bit_vector);
}

/// Selections that agree below `k` have the same XOR, lengths and mask there.
pub proof fn lemma_agree(
    a: spec_fn(int) -> Option<Seq<u8>>,
    b: spec_fn(int) -> Option<Seq<u8>>,
    k: int,
    i: int,
)
    requires
        forall|j: int| 0 <= j < k ==> #[trigger] a(j) == b(j),
    ensures
        parity(a, k, i) == parity(b, k, i),
        len_parity(a, k) == len_parity(b, k),
        longest(a, k) == longest(b, k),
        mask_of(a, k) == mask_of(b, k),
    decreases k,
{
    if k > 0 {
        lemma_agree(a, b, k - 1, i);
        assert(a(k - 1) == b(k - 1));
    }
}

/// What a selection XORs to and what it XORs to without one of its strings
/// differ by just that string.
pub proof fn lemma_without_one(
    all: spec_fn(int) -> Option<Seq<u8>>,
    rest: spec_fn(int) -> Option<Seq<u8>>,
    hole: int,
    k: int,
    i: int,
)
    requires
        0 <= hole < k,
        all(hole) is Some,
        rest(hole) is None,
        forall|j: int| 0 <= j < k && j != hole ==> #[trigger] all(j) == rest(j),
    ensures
        parity(all, k, i) ^ parity(rest, k, i) == byte_at(all(hole)->0, i),
        len_parity(all, k) ^ len_parity(rest, k) == len16(all(hole)->0),
    decreases k,
{
    let w = all(hole)->0;
    if hole == k - 1 {
        lemma_agree(all, rest, k - 1, i);
        lemma_xor8(parity(rest, k - 1, i), 0, byte_at(w, i));
        lemma_xor16(len_parity(rest, k - 1), 0, len16(w));
    } else {
        lemma_without_one(all, rest, hole, k - 1, i);
        assert(all(k - 1) == rest(k - 1));
        if let Some(x) = all(k - 1) {
            lemma_xor8(parity(all, k - 1, i), parity(rest, k - 1, i), byte_at(x, i));
            lemma_xor16(len_parity(all, k - 1), len_parity(rest, k - 1), len16(x));
        }
    }
}

/// No string is longer than the longest, and past the longest all is zero.
pub proof fn lemma_longest(sel: spec_fn(int) -> Option<Seq<u8>>, k: int, j: int)
    requires
        0 <= j < k,
        sel(j) is Some,
    ensures
        sel(j)->0.len() <= longest(sel, k),
    decreases k,
{
    if j < k - 1 {
        lemma_longest(sel, k - 1, j);
    }
}

/// A bit of the mask is set just where a string is named.
pub proof fn lemma_mask_of(sel: spec_fn(int) -> Option<Seq<u8>>, k: int)
    requires
        0 <= k <= 64,
    ensures
        forall|j: int| #[trigger]
            crate::bits::bit64(mask_of(sel, k), j) <==> 0 <= j < k && sel(j) is Some,
    decreases k,
{
    if k == 0 {
        crate::bits::lemma_zero64();
    } else {
        lemma_mask_of(sel, k - 1);
        if sel(k - 1) is Some {
            crate::bits::lemma_set_bit64(mask_of(sel, k - 1), (k - 1) as u64);
        }
    }
}

/// XORs `src` into `dst`; bytes of `dst` past the end of `src` stay.
pub fn xor_bytes(dst: &mut Vec<u8>, src: &[u8])
    ensures
        final(dst)@ == Seq::new(old(dst)@.len(), |i: int| old(dst)@[i] ^ byte_at(src@, i)),
{
    let ghost d0 = dst@;
    let n: usize = if dst.len() < src.len() {
        dst.len()
    } else {
        src.len()
    };
    let mut i: usize = 0;
    while i < n
        invariant
            i <= n,
            n <= d0.len(),
            n <= src@.len(),
            dst@.len() == d0.len(),
            forall|j: int| 0 <= j < i ==> #[trigger] dst@[j] == d0[j] ^ src@[j],
            forall|j: int| i <= j < d0.len() ==> #[trigger] dst@[j] == d0[j],
        decreases n - i,
    {
        let x: u8 = dst[i] ^ src[i];
        dst.set(i, x);
        i = i + 1;
    }
    assert forall|j: int| 0 <= j < d0.len() implies #[trigger] dst@[j] == d0[j] ^ byte_at(
        src@,
        j,
    ) by {
        lemma_xor8(d0[j], 0, 0);
    }
    assert(dst@ =~= Seq::new(d0.len(), |i: int| d0[i] ^ byte_at(src@, i)));
}

} // verus!
