//! Bitmasks over runs of sequence numbers.

use vstd::prelude::*;

verus! {

/// Whether bit `i` of `m` is set.
pub open spec fn bit16(m: u16, i: int) -> bool {
    0 <= i < 16 && (m >> (i as u16)) & 1u16 == 1u16
}

/// Whether bit `i` of `m` is set.
pub open spec fn bit64(m: u64, i: int) -> bool {
    0 <= i < 64 && (m >> (i as u64)) & 1u64 == 1u64
}

/// Whether bit `i` of `m` is set.
pub fn has_bit16(m: u16, i: u16) -> (b: bool)
    requires
        i < 16,
    ensures
        b == bit16(m, i as int),
{
    (m >> i) & 1 == 1
}

/// Whether bit `i` of `m` is set.
pub fn has_bit64(m: u64, i: u16) -> (b: bool)
    requires
        i < 64,
    ensures
        b == bit64(m, i as int),
{
    (m >> (i as u64)) & 1 == 1
}

/// Setting a bit sets that bit and leaves the others.
pub proof fn lemma_set_bit16(m: u16, w: u16)
    requires
        w < 16,
    ensures
        forall|j: int| #[trigger] bit16(m | (1u16 << w), j) == (j == w || bit16(m, j)),
{
    let r = m | (1u16 << w);
    assert forall|j: int| #[trigger] bit16(r, j) == (j == w || bit16(m, j)) by {
        if 0 <= j < 16 {
            let k = j as u16;
            assert(((m | (1u16 << w)) >> k) & 1u16 == 1u16 <==> (k == w || (m >> k) & 1u16
                == 1u16)) by (bit_vector)
                requires
                    w < 16,
                    k < 16,
            ;
        }
    }
}

/// `m` with bit `i` set.
pub fn set_bit16(m: u16, i: u16) -> (r: u16)
    requires
        i < 16,
    ensures
        r == m | (1u16 << i),
        forall|j: int| #[trigger] bit16(r, j) == (j == i || bit16(m, j)),
{
    proof {
        lemma_set_bit16(m, i);
    }
    m | (1u16 << i)
}

/// Setting a bit sets that bit and leaves the others.
pub proof fn lemma_set_bit64(m: u64, w: u64)
    requires
        w < 64,
    ensures
        forall|j: int| #[trigger] bit64(m | (1u64 << w), j) == (j == w || bit64(m, j)),
{
    let r = m | (1u64 << w);
    assert forall|j: int| #[trigger] bit64(r, j) == (j == w || bit64(m, j)) by {
        if 0 <= j < 64 {
            let k = j as u64;
            assert(((m | (1u64 << w)) >> k) & 1u64 == 1u64 <==> (k == w || (m >> k) & 1u64
                == 1u64)) by (bit_vector)
                requires
                    w < 64,
                    k < 64,
            ;
        }
    }
}

/// `m` with bit `i` set.
pub fn set_bit64(m: u64, i: u16) -> (r: u64)
    requires
        i < 64,
    ensures
        r == m | (1u64 << (i as u64)),
        forall|j: int| #[trigger] bit64(r, j) == (j == i || bit64(m, j)),
{
    proof {
        lemma_set_bit64(m, i as u64);
    }
    m | (1u64 << (i as u64))
}

/// No bit of zero is set.
pub proof fn lemma_zero16()
    ensures
        forall|j: int| !#[trigger] bit16(0, j),
{
    assert forall|j: int| !#[trigger] bit16(0, j) by {
        let k = j as u16;
        assert((0u16 >> k) & 1u16 == 0u16) by (bit_vector);
    }
}

/// No bit of zero is set.
pub proof fn lemma_zero64()
    ensures
        forall|j: int| !#[trigger] bit64(0, j),
{
    assert forall|j: int| !#[trigger] bit64(0, j) by {
        let k = j as u64;
        assert((0u64 >> k) & 1u64 == 0u64) by (bit_vector);
    }
}

/// The mask of the positions below `k` where `f` holds.
pub open spec fn mask_where(f: spec_fn(int) -> bool, k: int) -> u64
    decreases k,
{
    if k <= 0 {
        0
    } else if f(k - 1) {
        mask_where(f, k - 1) | (1u64 << ((k - 1) as u64))
    } else {
        mask_where(f, k - 1)
    }
}

/// A bit of the mask is set just where `f` holds.
pub proof fn lemma_mask_where(f: spec_fn(int) -> bool, k: int)
    requires
        0 <= k <= 64,
    ensures
        forall|j: int| #[trigger] bit64(mask_where(f, k), j) <==> 0 <= j < k && f(j),
    decreases k,
{
    if k == 0 {
        lemma_zero64();
    } else {
        lemma_mask_where(f, k - 1);
        if f(k - 1) {
            lemma_set_bit64(mask_where(f, k - 1), (k - 1) as u64);
        }
    }
}

/// How many of the first `k` bits of `m` are set.
pub open spec fn ones(m: u64, k: int) -> nat
    decreases k,
{
    if k <= 0 {
        0
    } else {
        ones(m, k - 1) + if bit64(m, k - 1) {
            1nat
        } else {
            0nat
        }
    }
}

} // verus!
