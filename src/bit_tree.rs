//! A flat array of 64-bit words read as one long sequence of bits, and the
//! operations on its 512-bit nodes (eight consecutive words).
use vstd::prelude::*;
use crate::bits::{
    bit_of, bsf, lemma_bit_of_and_not, lemma_bit_of_or, lemma_full_iff_all_bits,
    lemma_zero_iff_no_bit,
};

verus! {

/// Bit `j` of the word array `t`: bit `j % 64` of word `j / 64`.
pub open spec fn tbit(t: Seq<u64>, j: int) -> bool {
    bit_of(t[j / 64], (j % 64) as u64)
}

/// `t1` is `t0` with bit `j` cleared when `c` holds, and equal to it otherwise.
pub open spec fn bits_cleared(t0: Seq<u64>, t1: Seq<u64>, j: int, c: bool) -> bool {
    &&& t1.len() == t0.len()
    &&& forall|m: int| 0 <= m < 64 * t0.len() ==> #[trigger] tbit(t1, m) == (tbit(t0, m) && !(c && m == j))
}

/// `t1` is `t0` with bit `j` set when `c` holds, and equal to it otherwise.
pub open spec fn bits_set(t0: Seq<u64>, t1: Seq<u64>, j: int, c: bool) -> bool {
    &&& t1.len() == t0.len()
    &&& forall|m: int| 0 <= m < 64 * t0.len() ==> #[trigger] tbit(t1, m) == (tbit(t0, m) || (c && m == j))
}

/// No bit of the 512-bit node that starts at word `base` is set.
pub open spec fn node_empty(t: Seq<u64>, base: int) -> bool {
    forall|m: int| 0 <= m < 512 ==> !#[trigger] tbit(t, 64 * base + m)
}

/// Every bit of the 512-bit node that starts at word `base` is set.
pub open spec fn node_full(t: Seq<u64>, base: int) -> bool {
    forall|m: int| 0 <= m < 512 ==> #[trigger] tbit(t, 64 * base + m)
}

/// Bit `64 * q + r` lies in word `q`, at position `r`.
pub proof fn lemma_word_pos(q: int, r: int)
    requires
        0 <= r < 64,
    ensures
        (64 * q + r) / 64 == q,
        (64 * q + r) % 64 == r,
{
    vstd::arithmetic::div_mod::lemma_fundamental_div_mod_converse(64 * q + r, 64, q, r);
}

/// Bit `j` lies in word `j / 64`.
pub proof fn lemma_word_of(j: int)
    requires
        0 <= j,
    ensures
        64 * (j / 64) <= j < 64 * (j / 64) + 64,
        j % 64 == j - 64 * (j / 64),
{
    vstd::arithmetic::div_mod::lemma_fundamental_div_mod(j, 64);
    vstd::arithmetic::div_mod::lemma_mod_bound(j, 64);
}

/// Reads bit `j`.
pub fn get_bit(t: &Vec<u64>, j: usize) -> (r: bool)
    requires
        j < 64 * t.len(),
    ensures
        r == tbit(t@, j as int),
{
    (t[j / 64] >> ((j % 64) as u64)) & 1 == 1
}

/// Sets bit `j`, leaving every other bit as it was.
pub fn set_bit(t: &mut Vec<u64>, j: usize)
    requires
        j < 64 * old(t).len(),
    ensures
        bits_set(old(t)@, final(t)@, j as int, true),
{
    let w = j / 64;
    let k = (j % 64) as u64;
    let v = t[w] | (1u64 << k);
    let ghost t0 = t@;
    t.set(w, v);
    proof {
        assert forall|m: int| 0 <= m < 64 * t0.len() implies #[trigger] tbit(t@, m) == (tbit(t0, m)
            || (true && m == j)) by {
            if m / 64 == w as int {
                lemma_bit_of_or(t0[w as int], k, (m % 64) as u64);
            }
        }
    }
}

/// Clears bit `j`, leaving every other bit as it was.
pub fn clear_bit(t: &mut Vec<u64>, j: usize)
    requires
        j < 64 * old(t).len(),
    ensures
        bits_cleared(old(t)@, final(t)@, j as int, true),
{
    let w = j / 64;
    let k = (j % 64) as u64;
    let v = t[w] & !(1u64 << k);
    let ghost t0 = t@;
    t.set(w, v);
    proof {
        assert forall|m: int| 0 <= m < 64 * t0.len() implies #[trigger] tbit(t@, m) == (tbit(t0, m)
            && !(true && m == j)) by {
            if m / 64 == w as int {
                lemma_bit_of_and_not(t0[w as int], k, (m % 64) as u64);
            }
        }
    }
}

/// The lowest set bit among the 512 bits of the node that starts at word
/// `base`, or `None` when the node is empty.
pub fn scan_node(t: &Vec<u64>, base: usize) -> (r: Option<usize>)
    requires
        base + 8 <= t.len(),
    ensures
        match r {
            Some(k) => {
                &&& k < 512
                &&& tbit(t@, 64 * base + k)
                &&& forall|m: int| 0 <= m < k ==> !#[trigger] tbit(t@, 64 * base + m)
            },
            None => node_empty(t@, base as int),
        },
        r is None <==> node_empty(t@, base as int),
{
    let mut i: usize = 0;
    while i < 8
        invariant
            i <= 8,
            base + 8 <= t.len(),
            forall|m: int| 0 <= m < 64 * i ==> !#[trigger] tbit(t@, 64 * base + m),
        decreases 8 - i,
    {
        let w = t[base + i];
        if w != 0 {
            let p = bsf(w);
            let k = 64 * i + p as usize;
            proof {
                lemma_word_pos(base + i, p as int);
                assert(64 * base + k == 64 * (base + i) + p);
                assert forall|m: int| 0 <= m < k implies !#[trigger] tbit(t@, 64 * base + m) by {
                    if m >= 64 * i {
                        lemma_word_pos(base + i, m - 64 * i);
                        assert(64 * base + m == 64 * (base + i) + (m - 64 * i));
                        assert(!bit_of(w, (m - 64 * i) as u64));
                    }
                }
            }
            assert(tbit(t@, 64 * base + k));
            return Some(k);
        }
        proof {
            lemma_zero_iff_no_bit(w);
            assert forall|m: int| 0 <= m < 64 * (i + 1) implies !#[trigger] tbit(
                t@,
                64 * base + m,
            ) by {
                if m >= 64 * i {
                    lemma_word_pos(base + i, m - 64 * i);
                    assert(64 * base + m == 64 * (base + i) + (m - 64 * i));
                    assert(!bit_of(w, (m - 64 * i) as u64));
                }
            }
        }
        i += 1;
    }
    None
}

/// Whether all 512 bits of the node that starts at word `base` are set.
pub fn all_ones(t: &Vec<u64>, base: usize) -> (r: bool)
    requires
        base + 8 <= t.len(),
    ensures
        r == node_full(t@, base as int),
{
    let mut i: usize = 0;
    while i < 8
        invariant
            i <= 8,
            base + 8 <= t.len(),
            forall|m: int| 0 <= m < 64 * i ==> #[trigger] tbit(t@, 64 * base + m),
        decreases 8 - i,
    {
        let w = t[base + i];
        proof {
            lemma_full_iff_all_bits(w);
        }
        if w != 0xFFFF_FFFF_FFFF_FFFFu64 {
            proof {
                let k = choose|k: u64| k < 64 && !#[trigger] bit_of(w, k);
                lemma_word_pos(base + i, k as int);
                assert(!tbit(t@, 64 * base + (64 * i + k)));
            }
            return false;
        }
        proof {
            assert forall|m: int| 0 <= m < 64 * (i + 1) implies #[trigger] tbit(
                t@,
                64 * base + m,
            ) by {
                if m >= 64 * i {
                    lemma_word_pos(base + i, m - 64 * i);
                    assert(64 * base + m == 64 * (base + i) + (m - 64 * i));
                    assert(bit_of(w, (m - 64 * i) as u64));
                }
            }
        }
        i += 1;
    }
    true
}

} // verus!
