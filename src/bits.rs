use vstd::prelude::*;
use vstd::std_specs::bits::axiom_u64_trailing_zeros;

verus! {

/// Whether bit `i` (counted from the least significant end) of `w` is set.
pub open spec fn is_bit_set(w: u64, i: int) -> bool {
    0 <= i < 64 && (w >> (i as u64)) & 1u64 == 1u64
}

/// Setting bit `i` of `w` adds exactly `i` to its set bits.
pub proof fn lemma_set_bit(w: u64, i: u64)
    requires
        i < 64,
    ensures
        forall|j: int| #[trigger] is_bit_set(w | (1u64 << i), j) == (j == i || is_bit_set(w, j)),
{
    assert forall|j: int| #[trigger] is_bit_set(w | (1u64 << i), j) == (j == i || is_bit_set(w, j)) by {
        if 0 <= j < 64 {
            let k = j as u64;
            assert(((w | (1u64 << i)) >> k) & 1u64 == 1u64 <==> (k == i || (w >> k) & 1u64 == 1u64))
                by (bit_vector)
                requires
                    i < 64,
                    k < 64,
            ;
        }
    }
}

/// Clearing bit `i` of `w` removes exactly `i` from its set bits.
pub proof fn lemma_clear_bit(w: u64, i: u64)
    requires
        i < 64,
    ensures
        forall|j: int| #[trigger] is_bit_set(w & !(1u64 << i), j) == (j != i && is_bit_set(w, j)),
{
    assert forall|j: int| #[trigger] is_bit_set(w & !(1u64 << i), j) == (j != i && is_bit_set(w, j)) by {
        if 0 <= j < 64 {
            let k = j as u64;
            assert(((w & !(1u64 << i)) >> k) & 1u64 == 1u64 <==> (k != i && (w >> k) & 1u64 == 1u64))
                by (bit_vector)
                requires
                    i < 64,
                    k < 64,
            ;
        }
    }
}

/// The zero word has no bit set.
pub proof fn lemma_zero_has_no_bits()
    ensures
        forall|j: int| !#[trigger] is_bit_set(0u64, j),
{
    assert forall|j: int| !#[trigger] is_bit_set(0u64, j) by {
        if 0 <= j < 64 {
            let k = j as u64;
            assert((0u64 >> k) & 1u64 == 0u64) by (bit_vector);
        }
    }
}

/// The positions of the set bits of `bitset`, in ascending order.
///
/// Each step finds the lowest remaining set bit by its trailing-zero count and
/// clears it, so the work is proportional to the number of set bits.
pub fn iter_set_bits(bitset: u64) -> (r: Vec<usize>)
    ensures
        forall|a: int, b: int| 0 <= a < b < r@.len() ==> r@[a] < r@[b],
        forall|a: int| 0 <= a < r@.len() ==> is_bit_set(bitset, r@[a] as int),
        forall|i: int| is_bit_set(bitset, i) ==> r@.contains(i as usize),
{
    let mut out: Vec<usize> = Vec::new();
    let mut w: u64 = bitset;
    while w != 0
        invariant
            forall|i: int| is_bit_set(w, i) ==> is_bit_set(bitset, i),
            forall|i: int| is_bit_set(bitset, i) && !is_bit_set(w, i) ==> out@.contains(i as usize),
            forall|a: int, b: int| 0 <= a < b < out@.len() ==> out@[a] < out@[b],
            forall|a: int| 0 <= a < out@.len() ==> is_bit_set(bitset, out@[a] as int),
            forall|a: int, i: int| 0 <= a < out@.len() && is_bit_set(w, i) ==> out@[a] < i,
        decreases w,
    {
        let tz: u32 = w.trailing_zeros();
        proof {
            axiom_u64_trailing_zeros(w);
        }
        let pos: u64 = tz as u64;
        let t: u64 = 1u64 << pos;
        assert(w & t == t && (w ^ t) < w) by (bit_vector)
            requires
                pos < 64,
                t == 1u64 << pos,
                (w >> pos) & 1u64 == 1u64,
        ;
        let next: u64 = w ^ t;
        assert forall|j: u64| j < 64 implies
            #[trigger] is_bit_set(next, j as int) == (j != pos && is_bit_set(w, j as int)) by {
            assert(((next >> j) & 1u64 == 1u64) <==> (j != pos && (w >> j) & 1u64 == 1u64))
                by (bit_vector)
                requires
                    pos < 64,
                    j < 64,
                    t == 1u64 << pos,
                    next == w ^ t,
                    (w >> pos) & 1u64 == 1u64,
            ;
        }
        assert forall|i: int| is_bit_set(w, i) implies pos as int <= i by {
            if i < pos as int {
                assert((w >> (i as u64)) & 1u64 == 0u64);
            }
        }
        let ghost prev = out@;
        out.push(pos as usize);
        proof {
            assert(out@ == prev.push(pos as usize));
            assert(out@[prev.len() as int] == pos as usize);
            assert(is_bit_set(w, pos as int));
            assert forall|a: int, b: int| 0 <= a < b < out@.len() implies out@[a] < out@[b] by {
                if b == prev.len() {
                    assert(prev[a] < pos);
                }
            }
            assert forall|i: int| is_bit_set(next, i) implies is_bit_set(bitset, i) by {
                assert(is_bit_set(next, (i as u64) as int));
            }
            assert forall|i: int| is_bit_set(bitset, i) && !is_bit_set(next, i) implies out@.contains(
                i as usize,
            ) by {
                assert(is_bit_set(next, (i as u64) as int) == (i != pos && is_bit_set(w, i)));
                if i == pos as int {
                    assert(out@[prev.len() as int] == i as usize);
                } else {
                    assert(prev.contains(i as usize));
                    let k = choose|k: int| 0 <= k < prev.len() && prev[k] == i as usize;
                    assert(out@[k] == i as usize);
                }
            }
            assert forall|a: int, i: int| 0 <= a < out@.len() && is_bit_set(next, i) implies out@[a]
                < i by {
                assert(is_bit_set(next, (i as u64) as int) == (i != pos && is_bit_set(w, i)));
            }
        }
        w = next;
    }
    proof {
        lemma_zero_has_no_bits();
    }
    out
}

} // verus!
