use mh1tool::bytes::{i16_at, u16_at, u32_at};
use mh1tool::{cast_data, cast_data_n, cast_data_vec, CastError};

#[test]
fn cast_data_vec_takes_a_whole_number_of_records() {
    let data = [0u8; 24];
    assert_eq!(cast_data_vec(&data, 12), Ok(&data[..]));
    assert_eq!(cast_data_vec(&data[..20], 12), Err(CastError::SizeNotMultiple));
    assert_eq!(cast_data_vec(&[], 8), Ok(&[][..]));
}

#[test]
fn cast_data_takes_exactly_one_record() {
    let data = [1u8, 2, 3, 4];
    assert_eq!(cast_data(&data, 4), Ok(&data[..]));
    assert_eq!(cast_data(&data, 8), Err(CastError::SizeMismatch));
}

#[test]
fn cast_data_n_checks_the_record_count() {
    let data = [0u8; 16];
    assert_eq!(cast_data_n(&data, 4, 4), Ok(&data[..]));
    assert_eq!(cast_data_n(&data, 4, 3), Err(CastError::CountMismatch(3)));
}

#[test]
fn little_endian_reads_decode_the_bytes() {
    let data = [0xaa, 0x34, 0x12, 0x78, 0x56, 0xfe, 0xff];
    assert_eq!(u16_at(&data, 1), 0x1234);
    assert_eq!(u32_at(&data, 1), 0x5678_1234);
    assert_eq!(i16_at(&data, 5), -2);
    assert_eq!(i16_at(&data, 1), 0x1234);
}
