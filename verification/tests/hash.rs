use loose_octree::hash::{FromHexError, H160, H256, H32, H512};

#[test]
fn tohex_is_lower_case_two_digits_per_byte() {
    assert_eq!(H32::from([0x00, 0x0f, 0xa5, 0xff]).tohex(), "000fa5ff");
    assert_eq!(H32::default().tohex(), "00000000");
    let mut bytes = [0u8; 20];
    bytes[0] = 0x12;
    bytes[19] = 0xef;
    assert_eq!(
        H160::from(bytes).tohex(),
        "12000000000000000000000000000000000000ef"
    );
    assert_eq!(H256::default().tohex().len(), 64);
    assert_eq!(H512::default().tohex().len(), 128);
}

#[test]
fn from_str_reads_both_cases() {
    assert_eq!(H32::from_str("000fa5ff"), Ok(H32::from([0x00, 0x0f, 0xa5, 0xff])));
    assert_eq!(H32::from_str("000FA5Ff"), Ok(H32::from([0x00, 0x0f, 0xa5, 0xff])));
    let text = "0102030405060708090a0b0c0d0e0f101112131415161718191a1b1c1d1e1f20";
    let h = H256::from_str(text).unwrap();
    assert_eq!(h.clone().take()[0], 1);
    assert_eq!(h.clone().take()[31], 32);
    assert_eq!(h.tohex(), text);
}

#[test]
fn from_str_gives_each_error() {
    assert_eq!(H32::from_str("000fa5f"), Err(FromHexError::OddLength));
    assert_eq!(
        H32::from_str("000fa5fg"),
        Err(FromHexError::InvalidHexCharacter { c: 'g', index: 7 })
    );
    assert_eq!(
        H32::from_str("0 0fa5ff"),
        Err(FromHexError::InvalidHexCharacter { c: ' ', index: 1 })
    );
    // the first bad digit is reported
    assert_eq!(
        H32::from_str("x00fa5fz"),
        Err(FromHexError::InvalidHexCharacter { c: 'x', index: 0 })
    );
    // an odd length is reported before any bad digit
    assert_eq!(H32::from_str("zzz"), Err(FromHexError::OddLength));
    assert_eq!(H32::from_str("000fa5"), Err(FromHexError::InvalidStringLength));
    assert_eq!(H32::from_str("000fa5ff00"), Err(FromHexError::InvalidStringLength));
    assert_eq!(H32::from_str(""), Err(FromHexError::InvalidStringLength));
    assert_eq!(H160::from_str("000fa5ff"), Err(FromHexError::InvalidStringLength));
    assert_eq!(H512::from_str("000fa5ff"), Err(FromHexError::InvalidStringLength));
}

#[test]
fn reversed_turns_the_bytes_round() {
    assert_eq!(H32::from([1, 2, 3, 4]).reversed(), H32::from([4, 3, 2, 1]));
    assert_eq!(H32::from([1, 2, 3, 4]).reversed().reversed(), H32::from([1, 2, 3, 4]));
    let mut bytes = [0u8; 64];
    bytes[0] = 9;
    let r = H512::from(bytes).reversed().take();
    assert_eq!(r[63], 9);
    assert_eq!(r[0], 0);
}

#[test]
fn size_and_is_zero() {
    assert_eq!(H32::size(), 4);
    assert_eq!(H160::size(), 20);
    assert_eq!(H256::size(), 32);
    assert_eq!(H512::size(), 64);
    assert!(H32::default().is_zero());
    assert!(H160::default().is_zero());
    assert!(H256::default().is_zero());
    assert!(H512::default().is_zero());
    assert!(!H32::from([0, 0, 0, 1]).is_zero());
    assert!(!H32::from(7u8).is_zero());
    assert_eq!(H32::from(7u8).take(), [7, 0, 0, 0]);
    assert_eq!(H160::from(7u8).take()[0], 7);
}

#[test]
fn from_slice_takes_the_first_bytes() {
    assert_eq!(H32::from_slice(&[1, 2, 3, 4, 5, 6]), H32::from([1, 2, 3, 4]));
    assert_eq!(H32::from_slice(&[1, 2, 3, 4]).take(), [1, 2, 3, 4]);
}

#[test]
fn reversed_text_of_h256() {
    let text = "0102030405060708090a0b0c0d0e0f101112131415161718191a1b1c1d1e1f20";
    let back = "201f1e1d1c1b1a191817161514131211100f0e0d0c0b0a090807060504030201";
    let h = H256::from_reversed_str(text);
    assert_eq!(h.tohex(), back);
    assert_eq!(h.to_reversed_str(), text);
    assert_eq!(H256::from_str(text).unwrap().to_reversed_str(), back);
}

#[test]
fn hashes_compare_byte_by_byte() {
    assert!(H32::from([0, 0, 0, 1]) < H32::from([0, 0, 1, 0]));
    assert!(H32::from([1, 0, 0, 0]) > H32::from([0, 255, 255, 255]));
    assert_eq!(H32::from([1, 2, 3, 4]), H32::from([1, 2, 3, 4]));
}
