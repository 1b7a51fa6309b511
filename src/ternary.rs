use crate::spongos::SpongosTbitWord;
use crate::word::BasicTbitWord;
use vstd::prelude::*;

verus! {

/// Three balanced trits packed in one integer: trits `t0, t1, t2` in `{-1, 0, 1}` are
/// held as `t0 + 3 * t1 + 9 * t2`, a value in `-13..=13`.
#[derive(Clone, Copy, Debug, PartialEq, Eq, Structural)]
pub struct Tryte(pub i8);

/// Trit `j` (of three) of the packed value `v`.
pub open spec fn trit_of(v: int, j: int) -> int {
    let u = v + 13;
    if j == 0 {
        u % 3 - 1
    } else if j == 1 {
        (u / 3) % 3 - 1
    } else {
        u / 9 - 1
    }
}

/// Balanced addition modulo three.
pub open spec fn trit_sum(x: int, y: int) -> int {
    (x + y + 4) % 3 - 1
}

/// Balanced subtraction modulo three.
pub open spec fn trit_diff(x: int, y: int) -> int {
    (x - y + 4) % 3 - 1
}

impl BasicTbitWord for Tryte {
    type Tbit = i8;

    open spec fn width() -> nat {
        3
    }

    open spec fn zero() -> i8 {
        0
    }

    open spec fn valid_tbit(t: i8) -> bool {
        -1 <= t <= 1
    }

    open spec fn valid_word(w: Tryte) -> bool {
        -13 <= w.0 <= 13
    }

    open spec fn tbits(w: Tryte) -> Seq<i8> {
        Seq::new(3, |j: int| trit_of(w.0 as int, j) as i8)
    }

    open spec fn word_of(ts: Seq<i8>) -> Tryte {
        Tryte((ts[0] + 3 * ts[1] + 9 * ts[2]) as i8)
    }

    proof fn lemma_alphabet() {
    }

    proof fn lemma_word_round_trip(w: Tryte) {
        let ts = Self::tbits(w);
        assert(ts[0] == trit_of(w.0 as int, 0));
        assert(ts[1] == trit_of(w.0 as int, 1));
        assert(ts[2] == trit_of(w.0 as int, 2));
    }

    proof fn lemma_tbits_round_trip(ts: Seq<i8>) {
        let v = ts[0] + 3 * ts[1] + 9 * ts[2];
        assert(Self::valid_tbit(ts[0]) && Self::valid_tbit(ts[1]) && Self::valid_tbit(ts[2]));
        assert(trit_of(v, 0) == ts[0]);
        assert(trit_of(v, 1) == ts[1]);
        assert(trit_of(v, 2) == ts[2]);
        assert(Self::tbits(Self::word_of(ts)) =~= ts);
    }

    fn size() -> usize {
        3
    }

    fn zero_tbit() -> i8 {
        0
    }

    fn zero_word() -> Tryte {
        proof {
            let z = Seq::new(3, |i: int| 0i8);
            assert(z[0] == 0 && z[1] == 0 && z[2] == 0);
        }
        Tryte(0)
    }

    fn is_valid_word(w: Tryte) -> bool {
        -13 <= w.0 && w.0 <= 13
    }

    fn tbit_eq(a: i8, b: i8) -> bool {
        a == b
    }

    fn word_eq(a: Tryte, b: Tryte) -> bool {
        a.0 == b.0
    }

    fn word_to_tbits(x: Tryte) -> Vec<i8> {
        let u: i16 = x.0 as i16 + 13;
        let v = vec![(u % 3 - 1) as i8, ((u / 3) % 3 - 1) as i8, (u / 9 - 1) as i8];
        proof {
            assert(v@ =~= Self::tbits(x));
        }
        v
    }

    fn word_from_tbits(ts: &Vec<i8>) -> Tryte {
        proof {
            assert(Self::valid_tbit(ts@[0]) && Self::valid_tbit(ts@[1]) && Self::valid_tbit(ts@[2]));
        }
        Tryte(ts[0] + 3 * ts[1] + 9 * ts[2])
    }
}

impl SpongosTbitWord for Tryte {
    open spec fn sum(x: i8, y: i8) -> i8 {
        trit_sum(x as int, y as int) as i8
    }

    open spec fn diff(x: i8, y: i8) -> i8 {
        trit_diff(x as int, y as int) as i8
    }

    proof fn lemma_algebra(x: i8, y: i8) {
    }

    fn tbit_add(x: i8, y: i8) -> i8 {
        (x + y + 4) % 3 - 1
    }

    fn tbit_sub(x: i8, y: i8) -> i8 {
        (x - y + 4) % 3 - 1
    }
}

} // verus!
