use hyleus::binary::{
    read_f32, read_matrix4f, read_quaternionf, read_vector3f, write_f32, write_matrix4f, write_quaternionf,
    write_vector3f,
};
use hyleus::binary::{
    peek, peek_many, read_byte, read_fixed_string, read_i16, read_i32, read_matrix3f, read_string, read_u16,
    read_u32, write_byte, write_fixed_string, write_i16, write_i32, write_matrix3f, write_string, write_u16,
    write_u32, BinaryError, ByteReader, ByteWriter,
};

#[test]
fn integers_are_little_endian() {
    let mut w = ByteWriter::new();
    write_byte(&mut w, 0xAB).unwrap();
    write_u16(&mut w, 0x1234).unwrap();
    write_i16(&mut w, -2).unwrap();
    write_u32(&mut w, 0xDEAD_BEEF).unwrap();
    write_i32(&mut w, -123456).unwrap();
    let bytes = w.into_bytes();
    let mut expected = vec![0xAB, 0x34, 0x12];
    expected.extend_from_slice(&(-2i16).to_le_bytes());
    expected.extend_from_slice(&0xDEAD_BEEFu32.to_le_bytes());
    expected.extend_from_slice(&(-123456i32).to_le_bytes());
    assert_eq!(bytes, expected);
}

#[test]
fn reads_give_back_writes() {
    let mut w = ByteWriter::new();
    write_u16(&mut w, 65535).unwrap();
    write_i16(&mut w, i16::MIN).unwrap();
    write_u32(&mut w, 7).unwrap();
    write_i32(&mut w, i32::MIN).unwrap();
    write_string(&mut w, "héllo").unwrap();
    write_fixed_string(&mut w, "abc").unwrap();
    let mut r = ByteReader::new(w.into_bytes());
    assert_eq!(read_u16(&mut r), Ok(65535));
    assert_eq!(read_i16(&mut r), Ok(i16::MIN));
    assert_eq!(read_u32(&mut r), Ok(7));
    assert_eq!(read_i32(&mut r), Ok(i32::MIN));
    assert_eq!(read_string(&mut r), Ok(String::from("héllo")));
    assert_eq!(read_fixed_string(&mut r, 3), Ok(String::from("abc")));
    assert_eq!(r.remaining(), 0);
}

#[test]
fn string_is_length_prefixed() {
    let mut w = ByteWriter::new();
    write_string(&mut w, "hé").unwrap();
    assert_eq!(w.into_bytes(), vec![3, 0, 0, 0, b'h', 0xC3, 0xA9]);
}

#[test]
fn short_reads_fail_and_consume_the_rest() {
    let mut r = ByteReader::new(vec![1, 2, 3]);
    assert_eq!(read_u32(&mut r), Err(BinaryError::UnexpectedEof));
    assert_eq!(r.remaining(), 0);
    let mut r = ByteReader::new(vec![]);
    assert_eq!(read_byte(&mut r), Err(BinaryError::UnexpectedEof));
    let mut r = ByteReader::new(vec![9]);
    assert_eq!(read_u16(&mut r), Err(BinaryError::UnexpectedEof));
    let mut r = ByteReader::new(vec![5, 0, 0, 0, b'a']);
    assert_eq!(read_string(&mut r), Err(BinaryError::UnexpectedEof));
}

#[test]
fn peeking_does_not_consume() {
    let mut r = ByteReader::new(vec![4, 5, 6]);
    assert_eq!(peek(&mut r), Ok(4));
    assert_eq!(peek_many(&mut r, 2), Ok(vec![4, 5]));
    assert_eq!(peek_many(&mut r, 10), Ok(vec![4, 5, 6]));
    assert_eq!(r.remaining(), 3);
    assert_eq!(read_byte(&mut r), Ok(4));
    assert_eq!(r.remaining(), 2);
}

#[test]
fn matrix_round_trip() {
    let m = [[1.0f32.to_bits(), 2.0f32.to_bits(), 3.0f32.to_bits()], [4, 5, 6], [7, 8, u32::MAX]];
    let mut w = ByteWriter::new();
    write_matrix3f(&mut w, m).unwrap();
    let bytes = w.into_bytes();
    assert_eq!(bytes.len(), 36);
    assert_eq!(&bytes[..4], &1.0f32.to_le_bytes());
    let mut r = ByteReader::new(bytes);
    assert_eq!(read_matrix3f(&mut r), Ok(m));
    let mut short = ByteReader::new(vec![0; 35]);
    assert_eq!(read_matrix3f(&mut short), Err(BinaryError::UnexpectedEof));
}

#[test]
fn read_bytes_exact() {
    let mut r = ByteReader::new(vec![1, 2, 3, 4]);
    assert_eq!(r.read_bytes(3), Ok(vec![1, 2, 3]));
    assert_eq!(r.read_bytes(2), Err(BinaryError::UnexpectedEof));
}

#[test]
fn floats_travel_as_little_endian_bits() {
    let mut w = ByteWriter::new();
    write_f32(&mut w, 1.0f32.to_bits()).unwrap();
    write_f32(&mut w, (-2.5f32).to_bits()).unwrap();
    let bytes = w.into_bytes();
    assert_eq!(bytes, vec![0x00, 0x00, 0x80, 0x3F, 0x00, 0x00, 0x20, 0xC0]);
    let mut r = ByteReader::new(bytes);
    assert_eq!(read_f32(&mut r).map(f32::from_bits), Ok(1.0));
    assert_eq!(read_f32(&mut r).map(f32::from_bits), Ok(-2.5));
    assert_eq!(read_f32(&mut r), Err(BinaryError::UnexpectedEof));
}

#[test]
fn vectors_quaternions_and_matrices_read_back() {
    let v = [1.0f32.to_bits(), 2.0f32.to_bits(), 3.0f32.to_bits()];
    let q = [0.0f32.to_bits(), 0.5f32.to_bits(), (-0.5f32).to_bits(), 1.0f32.to_bits()];
    let mut m = [[0u32; 4]; 4];
    for i in 0..4 {
        for j in 0..4 {
            m[i][j] = ((4 * i + j) as f32).to_bits();
        }
    }
    let mut w = ByteWriter::new();
    write_vector3f(&mut w, v).unwrap();
    write_quaternionf(&mut w, q).unwrap();
    write_matrix4f(&mut w, m).unwrap();
    write_byte(&mut w, 9).unwrap();
    let bytes = w.into_bytes();
    assert_eq!(bytes.len(), 12 + 16 + 64 + 1);
    assert_eq!(&bytes[28..32], &0.0f32.to_le_bytes());
    assert_eq!(&bytes[32..36], &1.0f32.to_le_bytes());
    assert_eq!(&bytes[88..92], &15.0f32.to_le_bytes());
    let mut r = ByteReader::new(bytes);
    assert_eq!(read_vector3f(&mut r), Ok(v));
    assert_eq!(read_quaternionf(&mut r), Ok(q));
    assert_eq!(read_matrix4f(&mut r), Ok(m));
    assert_eq!(read_byte(&mut r), Ok(9));
}

#[test]
fn short_vectors_and_matrices_fail() {
    let mut r = ByteReader::new(vec![0; 11]);
    assert_eq!(read_vector3f(&mut r), Err(BinaryError::UnexpectedEof));
    assert_eq!(r.remaining(), 0);
    let mut r = ByteReader::new(vec![0; 15]);
    assert_eq!(read_quaternionf(&mut r), Err(BinaryError::UnexpectedEof));
    assert_eq!(r.remaining(), 0);
    let mut r = ByteReader::new(vec![0; 63]);
    assert_eq!(read_matrix4f(&mut r), Err(BinaryError::UnexpectedEof));
    assert_eq!(r.remaining(), 0);
}
