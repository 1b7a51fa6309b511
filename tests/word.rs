use iota_streams_core::span::{check_span, SpanError};
use iota_streams_core::ternary::Tryte;
use iota_streams_core::word::{
    copy, equals, from_tbits, get_tbit, put_tbit, set_zero, to_tbits, BasicTbitWord,
};

fn naive_copy<W: BasicTbitWord>(n: usize, dx: usize, x: &Vec<W>, dy: usize, y: &mut Vec<W>) {
    for i in 0..n {
        let t = get_tbit(dx + i, x);
        put_tbit(dy + i, y, t);
    }
}

fn naive_equals<W: BasicTbitWord>(n: usize, dx: usize, x: &Vec<W>, dy: usize, y: &Vec<W>) -> bool
where
    W::Tbit: PartialEq,
{
    (0..n).all(|i| get_tbit(dx + i, x) == get_tbit(dy + i, y))
}

fn bytes(seed: u8, len: usize) -> Vec<u8> {
    (0..len).map(|i| (i as u8).wrapping_mul(37).wrapping_add(seed)).collect()
}

fn trytes(seed: i32, len: usize) -> Vec<Tryte> {
    (0..len).map(|i| Tryte((((i as i32) * 7 + seed).rem_euclid(27) - 13) as i8)).collect()
}

#[test]
fn byte_codec_round_trip() {
    for w in 0..=255u8 {
        let ts = u8::word_to_tbits(w);
        assert_eq!(ts.len(), 8);
        assert_eq!(u8::word_from_tbits(&ts), w);
    }
    for bits in 0..256u32 {
        let ts: Vec<bool> = (0..8).map(|j| bits & (1 << j) != 0).collect();
        assert_eq!(u8::word_to_tbits(u8::word_from_tbits(&ts)), ts);
    }
}

#[test]
fn byte_codec_bit_order() {
    assert_eq!(
        u8::word_to_tbits(0b1000_0101),
        vec![true, false, true, false, false, false, false, true]
    );
    assert_eq!(u8::word_from_tbits(&vec![false, true, false, false, false, false, false, false]), 2);
}

#[test]
fn tryte_codec_round_trip() {
    for v in -13..=13i8 {
        let ts = Tryte::word_to_tbits(Tryte(v));
        assert_eq!(ts.len(), 3);
        assert!(ts.iter().all(|t| (-1..=1).contains(t)));
        assert_eq!(Tryte::word_from_tbits(&ts), Tryte(v));
    }
    for a in -1..=1i8 {
        for b in -1..=1i8 {
            for c in -1..=1i8 {
                let ts = vec![a, b, c];
                assert_eq!(Tryte::word_to_tbits(Tryte::word_from_tbits(&ts)), ts);
            }
        }
    }
}

#[test]
fn tryte_codec_values() {
    assert_eq!(Tryte::word_to_tbits(Tryte(5)), vec![-1, -1, 1]);
    assert_eq!(Tryte::word_to_tbits(Tryte(-13)), vec![-1, -1, -1]);
    assert_eq!(Tryte::word_from_tbits(&vec![1, 1, 1]), Tryte(13));
    assert_eq!(Tryte::zero_word(), Tryte(0));
}

#[test]
fn put_and_get_tbit_across_words() {
    let mut x = vec![0u8; 3];
    put_tbit(9, &mut x, true);
    assert_eq!(x, vec![0, 2, 0]);
    assert!(get_tbit(9, &x));
    assert!(!get_tbit(8, &x));
    let mut t = vec![Tryte(0); 2];
    put_tbit(4, &mut t, 1i8);
    assert_eq!(t, vec![Tryte(0), Tryte(3)]);
    assert_eq!(get_tbit(4, &t), 1);
}

#[test]
fn copy_onto_same_offset_keeps_buffer() {
    let x = bytes(11, 4);
    for d in 0..32 {
        for n in 0..=(32 - d) {
            let mut y = x.clone();
            copy(n, d, &x, d, &mut y);
            assert_eq!(y, x);
        }
    }
}

#[test]
fn copy_matches_symbols_round_trip() {
    let x = bytes(3, 4);
    for dx in 0..12 {
        for dy in 0..12 {
            for n in 0..=20 {
                let mut y1 = bytes(200, 4);
                let mut y2 = y1.clone();
                copy(n, dx, &x, dy, &mut y1);
                let ts = to_tbits(n, dx, &x);
                assert_eq!(ts.len(), n);
                from_tbits(n, dy, &mut y2, &ts);
                assert_eq!(y1, y2);
            }
        }
    }
}

#[test]
fn zero_length_changes_nothing() {
    let x = bytes(5, 3);
    let mut y = bytes(9, 3);
    let before = y.clone();
    for d in 0..=24 {
        copy(0, d, &x, d, &mut y);
        set_zero(0, d, &mut y);
        assert!(equals(0, d, &x, 24 - d, &y));
        assert!(to_tbits(0, d, &x).is_empty());
    }
    assert_eq!(y, before);
}

#[test]
fn aligned_paths_match_naive_bytes() {
    let x = bytes(77, 4);
    for dx in 0..24 {
        for dy in 0..24 {
            for n in 0..=(32 - dx.max(dy)).min(24) {
                let mut fast = bytes(140, 4);
                let mut slow = fast.clone();
                copy(n, dx, &x, dy, &mut fast);
                naive_copy(n, dx, &x, dy, &mut slow);
                assert_eq!(fast, slow, "copy n={} dx={} dy={}", n, dx, dy);
                assert_eq!(equals(n, dx, &x, dy, &fast), naive_equals(n, dx, &x, dy, &fast));
                let other = bytes(141, 4);
                assert_eq!(equals(n, dx, &x, dy, &other), naive_equals(n, dx, &x, dy, &other));
            }
        }
    }
}

#[test]
fn aligned_paths_match_naive_trytes() {
    let x = trytes(4, 4);
    for dx in 0..9 {
        for dy in 0..9 {
            for n in 0..=(12 - dx.max(dy)).min(9) {
                let mut fast = trytes(19, 4);
                let mut slow = fast.clone();
                copy(n, dx, &x, dy, &mut fast);
                naive_copy(n, dx, &x, dy, &mut slow);
                assert_eq!(fast, slow);
                assert_eq!(equals(n, dx, &x, dy, &fast), naive_equals(n, dx, &x, dy, &fast));
                let other = trytes(20, 4);
                assert_eq!(equals(n, dx, &x, dy, &other), naive_equals(n, dx, &x, dy, &other));
            }
        }
    }
}

#[test]
fn equals_finds_single_difference() {
    let x = bytes(1, 4);
    for flip in 0..32 {
        let mut y = x.clone();
        let t = get_tbit(flip, &y);
        put_tbit(flip, &mut y, !t);
        assert!(!equals(32, 0, &x, 0, &y));
        assert!(equals(flip, 0, &x, 0, &y));
        assert!(equals(31 - flip, flip + 1, &x, flip + 1, &y));
    }
}

#[test]
fn set_zero_clears_span_only() {
    let mut x = vec![0xffu8; 3];
    set_zero(10, 3, &mut x);
    assert_eq!(x, vec![0b0000_0111, 0b1110_0000, 0xff]);
    let mut t = vec![Tryte(13); 3];
    set_zero(5, 2, &mut t);
    assert_eq!(t, vec![Tryte(4), Tryte(0), Tryte(12)]);
}

#[test]
fn to_tbits_reads_unaligned_span() {
    let x = vec![0b1010_0000u8, 0b0000_0001];
    assert_eq!(to_tbits(4, 5, &x), vec![true, false, true, true]);
}

#[test]
fn check_span_reports_each_error() {
    let x = vec![0u8; 2];
    assert_eq!(check_span(16, 0, &x), Ok(()));
    assert_eq!(check_span(9, 7, &x), Ok(()));
    assert_eq!(check_span(10, 7, &x), Err(SpanError::OutOfBounds));
    assert_eq!(check_span(1, usize::MAX, &x), Err(SpanError::OutOfBounds));
    assert_eq!(check_span(0, 16, &x), Ok(()));
    let t = vec![Tryte(0), Tryte(14)];
    assert_eq!(check_span(3, 0, &t), Err(SpanError::InvalidWord));
    assert_eq!(check_span(7, 0, &t), Err(SpanError::OutOfBounds));
}
