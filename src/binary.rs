use crate::spongos::{sum_seq, SpongosTbitWord};
use crate::word::{splice, BasicTbitWord};
use vstd::prelude::*;

verus! {

/// The value of bit `j` of a byte, as a mask.
pub open spec fn mask(j: int) -> u8 {
    if j == 0 {
        1
    } else if j == 1 {
        2
    } else if j == 2 {
        4
    } else if j == 3 {
        8
    } else if j == 4 {
        16
    } else if j == 5 {
        32
    } else if j == 6 {
        64
    } else {
        128
    }
}

/// The byte whose bit `j` is set where `ts[j]` holds.
pub open spec fn byte_of(ts: Seq<bool>) -> u8 {
    (if ts[0] { 1u8 } else { 0u8 }) | (if ts[1] { 2u8 } else { 0u8 }) | (if ts[2] { 4u8 } else {
        0u8
    }) | (if ts[3] { 8u8 } else { 0u8 }) | (if ts[4] { 16u8 } else { 0u8 }) | (if ts[5] {
        32u8
    } else {
        0u8
    }) | (if ts[6] { 64u8 } else { 0u8 }) | (if ts[7] { 128u8 } else { 0u8 })
}

/// A byte is a word of eight bits, least significant first; the sum of two bits
/// is their exclusive or.
impl BasicTbitWord for u8 {
    type Tbit = bool;

    open spec fn width() -> nat {
        8
    }

    open spec fn zero() -> bool {
        false
    }

    open spec fn valid_tbit(t: bool) -> bool {
        true
    }

    open spec fn valid_word(w: u8) -> bool {
        true
    }

    open spec fn tbits(w: u8) -> Seq<bool> {
        Seq::new(8, |j: int| w & mask(j) != 0)
    }

    open spec fn word_of(ts: Seq<bool>) -> u8 {
        byte_of(ts)
    }

    proof fn lemma_alphabet() {
    }

    proof fn lemma_word_round_trip(w: u8) {
        let ts = Self::tbits(w);
        assert(w == (if w & 1u8 != 0 { 1u8 } else { 0u8 }) | (if w & 2u8 != 0 { 2u8 } else {
            0u8
        }) | (if w & 4u8 != 0 { 4u8 } else { 0u8 }) | (if w & 8u8 != 0 { 8u8 } else { 0u8 }) | (
        if w & 16u8 != 0 {
            16u8
        } else {
            0u8
        }) | (if w & 32u8 != 0 { 32u8 } else { 0u8 }) | (if w & 64u8 != 0 { 64u8 } else { 0u8 })
            | (if w & 128u8 != 0 { 128u8 } else { 0u8 })) by (bit_vector);
        assert(ts[0] == (w & 1u8 != 0));
        assert(ts[1] == (w & 2u8 != 0));
        assert(ts[2] == (w & 4u8 != 0));
        assert(ts[3] == (w & 8u8 != 0));
        assert(ts[4] == (w & 16u8 != 0));
        assert(ts[5] == (w & 32u8 != 0));
        assert(ts[6] == (w & 64u8 != 0));
        assert(ts[7] == (w & 128u8 != 0));
    }

    proof fn lemma_tbits_round_trip(ts: Seq<bool>) {
        let w = byte_of(ts);
        let (b0, b1, b2, b3, b4, b5, b6, b7) = (ts[0], ts[1], ts[2], ts[3], ts[4], ts[5], ts[6], ts[7]);
        assert(w == (if b0 { 1u8 } else { 0u8 }) | (if b1 { 2u8 } else { 0u8 }) | (if b2 { 4u8 } else {
            0u8
        }) | (if b3 { 8u8 } else { 0u8 }) | (if b4 { 16u8 } else { 0u8 }) | (if b5 { 32u8 } else {
            0u8
        }) | (if b6 { 64u8 } else { 0u8 }) | (if b7 { 128u8 } else { 0u8 }));
        assert((w & 1u8 != 0) == b0 && (w & 2u8 != 0) == b1 && (w & 4u8 != 0) == b2 && (w & 8u8
            != 0) == b3 && (w & 16u8 != 0) == b4 && (w & 32u8 != 0) == b5 && (w & 64u8 != 0) == b6
            && (w & 128u8 != 0) == b7) by (bit_vector)
            requires
                w == (if b0 { 1u8 } else { 0u8 }) | (if b1 { 2u8 } else { 0u8 }) | (if b2 { 4u8 } else {
                    0u8
                }) | (if b3 { 8u8 } else { 0u8 }) | (if b4 { 16u8 } else { 0u8 }) | (if b5 {
                    32u8
                } else {
                    0u8
                }) | (if b6 { 64u8 } else { 0u8 }) | (if b7 { 128u8 } else { 0u8 }),
        ;
        assert(Self::tbits(w) =~= ts);
    }

    fn size() -> usize {
        8
    }

    fn zero_tbit() -> bool {
        false
    }

    fn zero_word() -> u8 {
        proof {
            let z = Seq::new(8, |i: int| false);
            assert(byte_of(z) == 0u8) by {
                assert(z[0] == false && z[1] == false && z[2] == false && z[3] == false && z[4]
                    == false && z[5] == false && z[6] == false && z[7] == false);
                assert((0u8 | 0u8 | 0u8 | 0u8 | 0u8 | 0u8 | 0u8 | 0u8) == 0u8) by (bit_vector);
            }
        }
        0
    }

    fn is_valid_word(w: u8) -> bool {
        true
    }

    fn tbit_eq(a: bool, b: bool) -> bool {
        a == b
    }

    fn word_eq(a: u8, b: u8) -> bool {
        a == b
    }

    fn word_to_tbits(x: u8) -> Vec<bool> {
        let v = vec![
            x & 1 != 0,
            x & 2 != 0,
            x & 4 != 0,
            x & 8 != 0,
            x & 16 != 0,
            x & 32 != 0,
            x & 64 != 0,
            x & 128 != 0,
        ];
        proof {
            assert(v@ =~= Self::tbits(x));
        }
        v
    }

    fn word_from_tbits(ts: &Vec<bool>) -> u8 {
        (if ts[0] { 1u8 } else { 0u8 }) | (if ts[1] { 2u8 } else { 0u8 }) | (if ts[2] { 4u8 } else {
            0u8
        }) | (if ts[3] { 8u8 } else { 0u8 }) | (if ts[4] { 16u8 } else { 0u8 }) | (if ts[5] {
            32u8
        } else {
            0u8
        }) | (if ts[6] { 64u8 } else { 0u8 }) | (if ts[7] { 128u8 } else { 0u8 })
    }
}

impl SpongosTbitWord for u8 {
    open spec fn sum(x: bool, y: bool) -> bool {
        x != y
    }

    open spec fn diff(x: bool, y: bool) -> bool {
        x != y
    }

    proof fn lemma_algebra(x: bool, y: bool) {
    }

    fn tbit_add(x: bool, y: bool) -> bool {
        x != y
    }

    fn tbit_sub(x: bool, y: bool) -> bool {
        x != y
    }
}

/// Over bits, absorbing the same symbols twice in add mode gives back the state:
/// adding is its own inverse.
pub proof fn lemma_absorb_xor_twice(t: Seq<bool>, d: int, xs: Seq<bool>)
    requires
        0 <= d,
        d + xs.len() <= t.len(),
    ensures
        ({
            let n = xs.len() as int;
            let once = splice(t, d, sum_seq::<u8>(t.subrange(d, d + n), xs));
            splice(once, d, sum_seq::<u8>(once.subrange(d, d + n), xs))
        }) == t,
{
    let n = xs.len() as int;
    let once = splice(t, d, sum_seq::<u8>(t.subrange(d, d + n), xs));
    assert(splice(once, d, sum_seq::<u8>(once.subrange(d, d + n), xs)) =~= t);
}

} // verus!
