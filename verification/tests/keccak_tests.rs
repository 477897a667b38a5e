use keccak::bit_string::BitString;
use keccak::keccak::keccak_p::KeccakP;
use keccak::keccak::Keccak;
use keccak::KeccakError;

#[test]
fn test_round_constant_base_case() {
    assert_eq!(KeccakP::rc(0), 1);
    assert_eq!(KeccakP::rc(255), 1);
    assert_eq!(KeccakP::rc(510), 1);
}

#[test]
fn test_round_constant_periodicity() {
    for t in [1usize, 7, 100, 254, 300, 999] {
        assert_eq!(KeccakP::rc(t), KeccakP::rc(t % 255));
    }
}

#[test]
fn test_permutation_init_errors() {
    assert!(KeccakP::init(1600, 24).is_ok());
    assert!(KeccakP::init(800, 22).is_ok());
    assert!(KeccakP::init(25, 12).is_ok());
    assert_eq!(KeccakP::init(30, 24).err(), Some(KeccakError::InvalidParameter));
    assert_eq!(KeccakP::init(0, 24).err(), Some(KeccakError::InvalidParameter));
    assert_eq!(KeccakP::init(1600, 25).err(), Some(KeccakError::InvalidParameter));
    assert_eq!(KeccakP::init(800, 23).err(), Some(KeccakError::InvalidParameter));
}

#[test]
fn test_avalanche_from_zero_state() {
    let mut p = KeccakP::init(1600, 24).unwrap();
    assert!(p.state.iter().all(|&lane| lane == 0));
    p.permute();
    assert!(p.state.iter().any(|&lane| lane != 0));
}

#[test]
fn test_permutation_state_rendering() {
    let p = KeccakP::init(25, 12).unwrap();
    let mut expected = String::new();
    for x in 0..5 {
        for y in 0..5 {
            expected.push_str(&format!("  ({},{}) = 0", x, y));
        }
    }
    assert_eq!(p.to_string(), expected);
}

#[test]
fn test_set_state_round_trips() {
    let mut p = KeccakP::init(1600, 24).unwrap();
    let lanes: Vec<u64> = (0..25u64).collect();
    p.set_state(lanes.clone());
    assert_eq!(p.state, lanes);
}

#[test]
fn test_sponge_init_errors() {
    assert!(Keccak::init(512).is_ok());
    assert!(Keccak::init(1).is_ok());
    assert!(Keccak::init(1599).is_ok());
    assert_eq!(Keccak::init(0).err(), Some(KeccakError::InvalidParameter));
    assert_eq!(Keccak::init(1600).err(), Some(KeccakError::InvalidParameter));
    assert_eq!(Keccak::init(5000).err(), Some(KeccakError::InvalidParameter));
}

#[test]
fn test_padding_arithmetic() {
    let k = Keccak::init(512).unwrap();
    for m in [0usize, 1, 8, 100, 1085, 1086, 1087, 1088, 1089, 5000] {
        let p = k.generate_padding(1088, m);
        assert!(p.length >= 2);
        assert!(p.length <= 1089);
        assert_eq!((m + p.length) % 1088, 0);
        assert!(p.get_bit(0));
        assert!(p.get_bit(p.length - 1));
        for i in 1..p.length - 1 {
            assert!(!p.get_bit(i));
        }
    }
    let p = k.generate_padding(1088, 1086);
    assert_eq!(p.length, 2);
}

#[test]
fn test_empty_message_digest() {
    // Keccak[512] of the empty message with pad10*1 alone: the published
    // Keccak-256 empty-input digest.
    let mut k = Keccak::init(512).unwrap();
    let z = k.finalise(256);
    assert_eq!(z.length, 256);
    assert_eq!(
        z.to_string(),
        "C5D2460186F7233C 927E7DB2DCC703C0 E500B653CA82273B 7BFAD8045D85A470"
    );
}

#[test]
fn test_empty_message_sha3_256_digest() {
    // With the SHA-3 domain-separation bits 01 fed as the message, the
    // sponge reproduces the published SHA3-256 empty-input digest.
    let mut k = Keccak::init(512).unwrap();
    let suffix = BitString::from_bitstring(vec![0x2_u64], 2);
    k.update_buffer(&suffix);
    let z = k.finalise(256);
    assert_eq!(
        z.to_string(),
        "A7FFC6F8BF1ED766 51C14756A061D662 F580FF4DE43B49FA 82D80A4B80F8434A"
    );
}

#[test]
fn test_single_byte_digest() {
    // Keccak[512] of the single byte 0x61 ('a'): the published Keccak-256
    // digest of "a".
    let mut k = Keccak::init(512).unwrap();
    let msg = BitString::from_string("a");
    k.update_buffer(&msg);
    let z = k.finalise(256);
    assert_eq!(
        z.to_string(),
        "3AC225168DF54212 A25C1C01FD35BEBF EA408FDAC2E31DDD 6F80A4BBF9A5F1CB"
    );
}

#[test]
fn test_single_byte_sha3_256_digest() {
    // 'a' followed by the SHA-3 domain-separation bits 01: the published
    // SHA3-256 digest of "a".
    let mut k = Keccak::init(512).unwrap();
    let msg = BitString::from_byte_array(vec![0x61]);
    k.update_buffer(&msg);
    let suffix = BitString::from_bitstring(vec![0x2_u64], 2);
    k.update_buffer(&suffix);
    let z = k.finalise(256);
    assert_eq!(
        z.to_string(),
        "80084BF2FBA02475 726FEB2CAB2D8215 EAB14BC6BDD8BFB2 C8151257032ECD8B"
    );
}

#[test]
fn test_incremental_absorption_matches_single_update() {
    let mut one = Keccak::init(512).unwrap();
    one.update_buffer(&BitString::from_string("abc"));
    let d1 = one.finalise(256);

    let mut two = Keccak::init(512).unwrap();
    two.update_buffer(&BitString::from_string("a"));
    two.update_buffer(&BitString::from_string("bc"));
    let d2 = two.finalise(256);

    assert_eq!(d1.array, d2.array);
    assert_eq!(d1.length, d2.length);
}

#[test]
fn test_multi_block_message() {
    // 150 bytes = 1200 bits: more than one 1088-bit block once padded.
    let mut k = Keccak::init(512).unwrap();
    let msg = BitString::from_byte_array(vec![0xAB; 150]);
    k.update_buffer(&msg);
    let z = k.finalise(256);
    assert_eq!(z.length, 256);
    assert!(z.array.iter().any(|&w| w != 0));
}

#[test]
fn test_long_digest_squeezes_repeatedly() {
    let mut k = Keccak::init(512).unwrap();
    let z = k.finalise(3000);
    assert_eq!(z.length, 3000);
    // The first 1088 bits must agree with a shorter digest of the same
    // message: squeezing more bits never changes the earlier ones.
    let mut k2 = Keccak::init(512).unwrap();
    let z2 = k2.finalise(256);
    for i in 0..256 {
        assert_eq!(z.get_bit(i), z2.get_bit(i));
    }
}

#[test]
fn test_zero_length_digest() {
    let mut k = Keccak::init(512).unwrap();
    let z = k.finalise(0);
    assert_eq!(z.length, 0);
    assert!(z.array.is_empty());
}
