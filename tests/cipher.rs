use lrcp::cipher::{Cipher, CipherError};

#[test]
fn example_ciphers() -> Result<(), CipherError> {
    let cipher = Cipher::new(&[2, 1, 1, 0])?;
    let encoded = cipher.encode(0, b"hello").unwrap();
    assert_eq!(encoded, [0x96, 0x26, 0xb6, 0xb6, 0x76]);
    assert_eq!(b"hello".to_vec(), cipher.decode(0, &encoded)?);

    let cipher = Cipher::new(&[5, 5, 0])?;
    let encoded = cipher.encode(0, b"hello").unwrap();
    assert_eq!(encoded, [0x68, 0x67, 0x70, 0x72, 0x77]);
    assert_eq!(b"hello".to_vec(), cipher.decode(0, &encoded)?);

    Ok(())
}

#[test]
fn roundtrip() -> Result<(), CipherError> {
    let cipher = Cipher::new(&[1, 2, 230, 3, 4, 240, 5, 0])?;
    for off in 0..1000 {
        let encoded = cipher.encode(off, b"hello")?;
        assert_eq!(b"hello".to_vec(), cipher.decode(off, &encoded)?);
    }

    Ok(())
}

#[test]
fn decode() -> Result<(), CipherError> {
    let cipher = Cipher::new(&[0x02, 0x7b, 0x05, 0x01, 0x00])?;
    let encoded = cipher.encode(0, b"4x dog,5x car\n")?;
    assert_eq!(
        encoded,
        [0xf2, 0x20, 0xba, 0x44, 0x18, 0x84, 0xba, 0xaa, 0xd0, 0x26, 0x44, 0xa4, 0xa8, 0x7e]
    );
    assert_eq!(b"4x dog,5x car\n".to_vec(), cipher.decode(0, &encoded)?);

    let encoded = cipher.encode(0, b"5x car\n")?;
    assert_eq!(encoded, [0x72, 0x20, 0xba, 0xd8, 0x78, 0x70, 0xee]);
    assert_eq!(b"5x car\n".to_vec(), cipher.decode(0, &encoded)?);

    let encoded = cipher.encode(14, b"3x rat,2x cat\n")?;
    assert_eq!(
        encoded,
        [0x6a, 0x48, 0xd6, 0x58, 0x34, 0x44, 0xd6, 0x7a, 0x98, 0x4e, 0x0c, 0xcc, 0x94, 0x31]
    );
    assert_eq!(b"3x rat,2x cat\n".to_vec(), cipher.decode(14, &encoded)?);

    let encoded = cipher.encode(7, b"3x rat\n")?;
    assert_eq!(encoded, [0xf2, 0xd0, 0x26, 0xc8, 0xa4, 0xd8, 0x7e]);
    assert_eq!(b"3x rat\n".to_vec(), cipher.decode(7, &encoded)?);

    Ok(())
}

#[test]
fn noop_ciphers() -> Result<(), CipherError> {
    assert!(Cipher::new(&[0]).is_err());

    let cipher = Cipher::new(&[2, 0, 0])?;
    assert!(cipher.encode(0, b"hello").is_err());

    let cipher = Cipher::new(&[2, 0xab, 2, 0xab, 0])?;
    assert!(cipher.encode(0, b"hello").is_err());

    let cipher = Cipher::new(&[1, 1, 0])?;
    assert!(cipher.encode(0, b"hello").is_err());

    let cipher = Cipher::new(&[0x02, 0xa0, 0x02, 0x0b, 0x02, 0xab, 0x00])?;
    assert!(cipher.encode(0, b"hello").is_err());
    Ok(())
}

#[test]
fn cipher_spec_errors() {
    assert_eq!(Cipher::new(&[]).err(), Some(CipherError::TooShort));
    assert_eq!(Cipher::new(&[0]).err(), Some(CipherError::TooShort));
    assert_eq!(Cipher::new(&[1, 1]).err(), Some(CipherError::NoTerminator));
    assert_eq!(Cipher::new(&[6, 0]).err(), Some(CipherError::UnknownOp(6)));
    assert_eq!(Cipher::new(&[1, 0, 0]).err(), Some(CipherError::UnknownOp(0)));
    let cipher = Cipher::new(&[2, 0, 0]).unwrap();
    assert_eq!(cipher.encode(0, b"hello"), Err(CipherError::Unchanged));
    assert_eq!(cipher.decode(0, b"hello"), Err(CipherError::Unchanged));
}

#[test]
fn operand_may_be_the_final_byte() {
    // The operand of the last XOR is the terminating 0 itself.
    let cipher = Cipher::new(&[1, 2, 0]).unwrap();
    assert_eq!(cipher.encode_one(0, 0x01), Ok(0x80));
}

#[test]
fn single_byte_operations() {
    let cipher = Cipher::new(&[1, 0]).unwrap();
    assert_eq!(cipher.encode_one(0, 0b0000_0110), Ok(0b0110_0000));
    let cipher = Cipher::new(&[3, 0]).unwrap();
    assert_eq!(cipher.encode_one(300, 0x00), Ok(44));
    let cipher = Cipher::new(&[4, 200, 0]).unwrap();
    assert_eq!(cipher.encode_one(0, 100), Ok(44));
    assert_eq!(cipher.decode_one(0, 44), Ok(100));
    let cipher = Cipher::new(&[5, 0]).unwrap();
    assert_eq!(cipher.encode_one(1000, 10), Ok(242));
    assert_eq!(cipher.decode_one(1000, 242), Ok(10));
    assert_eq!(cipher.decode_one(usize::MAX, 0), Ok(1));
}
