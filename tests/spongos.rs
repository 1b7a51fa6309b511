use iota_streams_core::spongos::{
    absorb_overwrite, absorb_xor, decrypt_overwrite, decrypt_overwrite_mut, decrypt_xor,
    decrypt_xor_mut, encrypt_overwrite, encrypt_overwrite_mut, encrypt_xor, encrypt_xor_mut,
    squeeze_eq_overwrite, squeeze_eq_xor, squeeze_overwrite, squeeze_xor, SpongosTbitWord,
};
use iota_streams_core::ternary::Tryte;

fn state(len: usize) -> Vec<u8> {
    (0..len).map(|i| (i as u8).wrapping_mul(29).wrapping_add(101)).collect()
}

#[test]
fn hello_sponge_encrypt_then_decrypt() {
    let plain = b"HELLO, SPONGE!".to_vec();
    let n = plain.len() * 8;
    let mut s = vec![0u8; 16];
    let mut cipher = vec![0u8; plain.len()];
    encrypt_overwrite(0, &mut s, n, 0, &plain, 0, &mut cipher);
    let mut s2 = vec![0u8; 16];
    let mut back = vec![0u8; plain.len()];
    decrypt_overwrite(0, &mut s2, n, 0, &cipher, 0, &mut back);
    assert_eq!(back, plain);
    assert_eq!(s, s2);
}

#[test]
fn encrypt_decrypt_with_unaligned_state() {
    let plain = b"HELLO, SPONGE!".to_vec();
    let n = plain.len() * 8 - 3;
    for ds in [0usize, 1, 5, 13] {
        for (dx, dy) in [(0usize, 0usize), (3, 0), (2, 7)] {
            let s0 = state(20);
            let mut s = s0.clone();
            let mut cipher = vec![0u8; plain.len() + 1];
            encrypt_overwrite(ds, &mut s, n, dx, &plain, dy, &mut cipher);
            let mut s2 = s0.clone();
            let mut back = plain.clone();
            back.iter_mut().for_each(|b| *b = !*b);
            let mut expected = back.clone();
            iota_streams_core::word::copy(n, dx, &plain, dx, &mut expected);
            decrypt_overwrite(ds, &mut s2, n, dy, &cipher, dx, &mut back);
            assert_eq!(back, expected);
            assert_eq!(s, s2);

            let mut s = s0.clone();
            let mut cipher = vec![0u8; plain.len() + 1];
            encrypt_xor(ds, &mut s, n, dx, &plain, dy, &mut cipher);
            let mut s2 = s0.clone();
            let mut back = expected.clone();
            back.iter_mut().for_each(|b| *b = !*b);
            let mut expected2 = back.clone();
            iota_streams_core::word::copy(n, dx, &plain, dx, &mut expected2);
            decrypt_xor(ds, &mut s2, n, dy, &cipher, dx, &mut back);
            assert_eq!(back, expected2);
            assert_eq!(s, s2);
        }
    }
}

#[test]
fn encrypt_modes_feed_back_plaintext_or_ciphertext() {
    let plain = vec![0b1100_1010u8];
    let s0 = vec![0b0101_0110u8];
    let mut s = s0.clone();
    let mut c = vec![0u8];
    encrypt_overwrite(0, &mut s, 8, 0, &plain, 0, &mut c);
    assert_eq!(c, vec![0b1001_1100]);
    assert_eq!(s, plain);
    let mut s = s0.clone();
    let mut c = vec![0u8];
    encrypt_xor(0, &mut s, 8, 0, &plain, 0, &mut c);
    assert_eq!(c, vec![0b1001_1100]);
    assert_eq!(s, c);
}

#[test]
fn in_place_variants_match_two_buffer_variants() {
    let s0 = state(6);
    let data = state(9)[3..9].to_vec();
    for (ds, dx, n) in [(0usize, 0usize, 48usize), (3, 5, 30), (7, 1, 17)] {
        let mut sa = s0.clone();
        let mut ya = data.clone();
        encrypt_overwrite(ds, &mut sa, n, dx, &data, dx, &mut ya);
        let mut sb = s0.clone();
        let mut xb = data.clone();
        encrypt_overwrite_mut(ds, &mut sb, n, dx, &mut xb);
        assert_eq!((sa, ya), (sb, xb));

        let mut sa = s0.clone();
        let mut ya = data.clone();
        encrypt_xor(ds, &mut sa, n, dx, &data, dx, &mut ya);
        let mut sb = s0.clone();
        let mut xb = data.clone();
        encrypt_xor_mut(ds, &mut sb, n, dx, &mut xb);
        assert_eq!((sa, ya), (sb, xb));

        let mut sa = s0.clone();
        let mut xa = data.clone();
        decrypt_overwrite(ds, &mut sa, n, dx, &data, dx, &mut xa);
        let mut sb = s0.clone();
        let mut yb = data.clone();
        decrypt_overwrite_mut(ds, &mut sb, n, dx, &mut yb);
        assert_eq!((sa, xa), (sb, yb));

        let mut sa = s0.clone();
        let mut xa = data.clone();
        decrypt_xor(ds, &mut sa, n, dx, &data, dx, &mut xa);
        let mut sb = s0.clone();
        let mut yb = data.clone();
        decrypt_xor_mut(ds, &mut sb, n, dx, &mut yb);
        assert_eq!((sa, xa), (sb, yb));
    }
}

#[test]
fn squeeze_overwrite_zeroes_state_span() {
    let mut s = vec![0xffu8; 3];
    let mut y = vec![0u8; 2];
    squeeze_overwrite(4, &mut s, 12, 2, &mut y);
    assert_eq!(s, vec![0x0f, 0x00, 0xff]);
    assert_eq!(y, vec![0b1111_1100, 0b0011_1111]);
}

#[test]
fn squeeze_xor_keeps_state() {
    let s0 = state(3);
    let mut s = s0.clone();
    let mut y = vec![0u8; 3];
    squeeze_xor(5, &mut s, 13, 0, &mut y);
    assert_eq!(s, s0);
    let mut expected = vec![0u8; 3];
    iota_streams_core::word::copy(13, 5, &s0, 0, &mut expected);
    assert_eq!(y, expected);
}

#[test]
fn squeeze_eq_overwrite_zeroes_on_match_and_mismatch() {
    let s0 = state(4);
    let mut good = vec![0u8; 2];
    iota_streams_core::word::copy(14, 6, &s0, 1, &mut good);
    let mut bad = good.clone();
    bad[1] ^= 0b0000_0100;

    let mut s1 = s0.clone();
    assert!(squeeze_eq_overwrite(6, &mut s1, 14, 1, &good));
    let mut s2 = s0.clone();
    assert!(!squeeze_eq_overwrite(6, &mut s2, 14, 1, &bad));
    assert_eq!(s1, s2);
    let mut zeroed = s0.clone();
    iota_streams_core::word::set_zero(14, 6, &mut zeroed);
    assert_eq!(s1, zeroed);
}

#[test]
fn squeeze_eq_xor_keeps_state() {
    let s0 = state(4);
    let mut good = vec![0u8; 2];
    iota_streams_core::word::copy(14, 6, &s0, 1, &mut good);
    let mut s = s0.clone();
    assert!(squeeze_eq_xor(6, &mut s, 14, 1, &good));
    good[0] ^= 0b10;
    assert!(!squeeze_eq_xor(6, &mut s, 14, 1, &good));
    assert_eq!(s, s0);
}

#[test]
fn absorb_xor_twice_restores_state() {
    let s0 = state(5);
    let x = vec![0x5au8, 0xc3, 0x0f];
    for (ds, dx, n) in [(0usize, 0usize, 24usize), (3, 1, 20), (11, 7, 9)] {
        let mut s = s0.clone();
        absorb_xor(ds, &mut s, n, dx, &x);
        absorb_xor(ds, &mut s, n, dx, &x);
        assert_eq!(s, s0);
    }
    let mut s = vec![0b1111_0000u8];
    absorb_xor(0, &mut s, 8, 0, &vec![0b1010_1010u8]);
    assert_eq!(s, vec![0b0101_1010]);
}

#[test]
fn absorb_overwrite_copies_into_state() {
    let mut s = vec![0u8; 2];
    absorb_overwrite(4, &mut s, 8, 0, &vec![0xa5u8]);
    assert_eq!(s, vec![0x50, 0x0a]);
}

#[test]
fn trit_algebra_values() {
    assert_eq!(Tryte::tbit_add(1, 1), -1);
    assert_eq!(Tryte::tbit_add(-1, -1), 1);
    assert_eq!(Tryte::tbit_add(1, -1), 0);
    assert_eq!(Tryte::tbit_add(0, 1), 1);
    assert_eq!(Tryte::tbit_sub(-1, 1), 1);
    assert_eq!(Tryte::tbit_sub(1, -1), -1);
    assert_eq!(Tryte::tbit_sub(0, 1), -1);
    assert!(u8::tbit_add(true, false));
    assert!(!u8::tbit_sub(true, true));
}

#[test]
fn ternary_encrypt_then_decrypt() {
    let plain: Vec<Tryte> = (0..5).map(|i| Tryte(i * 5 - 10)).collect();
    let s0: Vec<Tryte> = (0..6).map(|i| Tryte(13 - i * 4)).collect();
    let n = 14;
    let mut s = s0.clone();
    let mut c = vec![Tryte(0); 5];
    encrypt_overwrite(2, &mut s, n, 1, &plain, 0, &mut c);
    let mut s2 = s0.clone();
    let mut back = plain.clone();
    back[0] = Tryte(0);
    back[4] = Tryte(0);
    let mut expected = back.clone();
    iota_streams_core::word::copy(n, 1, &plain, 1, &mut expected);
    decrypt_overwrite(2, &mut s2, n, 0, &c, 1, &mut back);
    assert_eq!(back, expected);
    assert_eq!(s, s2);
}

#[test]
fn ternary_ciphertext_value() {
    let mut s = vec![Tryte(13)];
    let mut y = vec![Tryte(0)];
    encrypt_xor(0, &mut s, 3, 0, &vec![Tryte(4)], 0, &mut y);
    assert_eq!(y, vec![Tryte(5)]);
    assert_eq!(s, y);
}
