use comprez::comprezable::{
    calc_delimeter_size, compress_metalength_v2, compress_num, encode, find_mult_8_bit_size,
    read_length, Comprezable,
};
use comprez::error::{
    CompressError, CompressErrorKind, DecompressError, DecompressErrorKind,
};
use comprez::unsigned::Unsigned;
use comprez::{pack_bits, pad_to_byte, to_binary, to_byte, BinaryChunk, Compressed};
use rand::{thread_rng, Rng};

fn width_of(chunk: &BinaryChunk) -> usize {
    match chunk {
        BinaryChunk::Single(size) => *size,
        _ => panic!("not a field of fixed width"),
    }
}

fn bits_of_u16(value: u16, bound: u128) -> Vec<u8> {
    value.compress_to_binaries(Some(bound)).unwrap().to_binaries()
}

#[test]
fn bound_478_value_122() {
    let packed = 122u16.compress_to_binaries(Some(478)).unwrap();
    assert_eq!(packed.to_binaries(), vec![0, 0, 1, 1, 1, 1, 0, 1, 0]);
    assert_eq!(width_of(&u16::max_binaries(Some(478))), 9);
    let mut bits = vec![0, 0, 1, 1, 1, 1, 0, 1, 0];
    assert_eq!(u16::decompress_from_binaries(&mut bits, Some(9)).unwrap(), 122);
    assert!(bits.is_empty());
    let mut bits = vec![0, 0, 1, 1, 1, 1, 0, 1, 0];
    assert_eq!(u32::decompress_from_binaries(&mut bits, Some(9)).unwrap(), 122);
    let mut bits = vec![0, 0, 1, 1, 1, 1, 0, 1, 0];
    assert_eq!(u64::decompress_from_binaries(&mut bits, Some(9)).unwrap(), 122);
    let mut bits = vec![0, 0, 1, 1, 1, 1, 0, 1, 0];
    assert_eq!(u128::decompress_from_binaries(&mut bits, Some(9)).unwrap(), 122);
}

#[test]
fn signed_bound_100_value_minus_78() {
    let packed = (-78i8).compress_to_binaries(Some(100)).unwrap();
    assert_eq!(packed.to_binaries(), vec![0, 1, 0, 0, 1, 1, 1, 0]);
    assert_eq!(width_of(&i8::max_binaries(Some(100))), 8);
    let mut bits = packed.to_binaries();
    assert_eq!(i8::decompress_from_binaries(&mut bits, Some(8)).unwrap(), -78);
    let positive = 78i8.compress_to_binaries(Some(100)).unwrap();
    assert_eq!(positive.to_binaries(), vec![1, 1, 0, 0, 1, 1, 1, 0]);
    let mut bits = positive.to_binaries();
    assert_eq!(i8::decompress_from_binaries(&mut bits, Some(8)).unwrap(), 78);
}

#[test]
fn empty_blob_prefix() {
    assert_eq!(compress_metalength_v2(0), vec![1, 0, 0, 0, 0, 0, 0, 0]);
    let mut bits = vec![1, 0, 0, 0, 0, 0, 0, 0];
    let blob = <Vec<u8>>::decompress_from_binaries(&mut bits, None).unwrap();
    assert_eq!(blob, Vec::<u8>::new());
    assert!(bits.is_empty());
    let mut bits = vec![1, 0, 0, 0, 0, 0, 0, 0, 1, 1];
    let blob = <Vec<u8>>::decompress_from_binaries(&mut bits, None).unwrap();
    assert_eq!(blob, Vec::<u8>::new());
    assert_eq!(bits, vec![1, 1]);
}

#[test]
fn empty_blob_round_trip() {
    let packed = Vec::<u8>::new().compress_to_binaries(None).unwrap();
    let mut bits = packed.to_binaries();
    assert_eq!(bits.len() % 8, 0);
    let blob = <Vec<u8>>::decompress_from_binaries(&mut bits, None).unwrap();
    assert_eq!(blob, Vec::<u8>::new());
    assert!(bits.is_empty());
}

#[test]
fn unsigned_round_trip_every_width() {
    let bounds: [u128; 12] = [0, 1, 7, 8, 9, 15, 16, 100, 478, 1000, 65535, 70000];
    for bound in bounds {
        let top = if bound > 300 { 300 } else { bound };
        for value in 0..=top {
            let mut bits = (value as u16).compress_to_binaries(Some(bound)).unwrap().to_binaries();
            let width = width_of(&u16::max_binaries(Some(bound)));
            assert_eq!(bits.len(), width);
            bits.extend_from_slice(&[1, 0, 1]);
            let back = u16::decompress_from_binaries(&mut bits, Some(width)).unwrap();
            assert_eq!(back as u128, value);
            assert_eq!(bits, vec![1, 0, 1]);

            let mut bits = (value as u32).compress_to_binaries(Some(bound)).unwrap().to_binaries();
            let width = width_of(&u32::max_binaries(Some(bound)));
            assert_eq!(u32::decompress_from_binaries(&mut bits, Some(width)).unwrap() as u128, value);

            let mut bits = (value as u64).compress_to_binaries(Some(bound)).unwrap().to_binaries();
            let width = width_of(&u64::max_binaries(Some(bound)));
            assert_eq!(u64::decompress_from_binaries(&mut bits, Some(width)).unwrap() as u128, value);

            let mut bits = value.compress_to_binaries(Some(bound)).unwrap().to_binaries();
            let width = width_of(&u128::max_binaries(Some(bound)));
            assert_eq!(u128::decompress_from_binaries(&mut bits, Some(width)).unwrap(), value);
        }
    }
}

#[test]
fn unsigned_round_trip_at_the_limits() {
    let mut bits = u16::MAX.compress_to_binaries(Some(u16::MAX as u128)).unwrap().to_binaries();
    assert_eq!(bits.len(), 16);
    assert_eq!(u16::decompress_from_binaries(&mut bits, Some(16)).unwrap(), u16::MAX);

    let mut bits = u32::MAX.compress_to_binaries(Some(u128::MAX)).unwrap().to_binaries();
    assert_eq!(bits.len(), 128);
    assert_eq!(u32::decompress_from_binaries(&mut bits, Some(128)).unwrap(), u32::MAX);

    let mut bits = u64::MAX.compress_to_binaries(Some(u64::MAX as u128)).unwrap().to_binaries();
    assert_eq!(bits.len(), 64);
    assert_eq!(u64::decompress_from_binaries(&mut bits, Some(64)).unwrap(), u64::MAX);

    let mut bits = u128::MAX.compress_to_binaries(Some(u128::MAX)).unwrap().to_binaries();
    assert_eq!(bits.len(), 128);
    assert_eq!(bits, vec![1u8; 128]);
    assert_eq!(u128::decompress_from_binaries(&mut bits, Some(128)).unwrap(), u128::MAX);
}

#[test]
fn signed_round_trip_every_width() {
    let bounds: [u128; 9] = [0, 1, 7, 8, 100, 127, 128, 500, 40000];
    for bound in bounds {
        let top: i128 = if bound > 130 { 130 } else { bound as i128 };
        for value in -top..=top {
            if value >= -128 && value <= 127 {
                let mut bits = (value as i8).compress_to_binaries(Some(bound)).unwrap().to_binaries();
                let width = width_of(&i8::max_binaries(Some(bound)));
                assert_eq!(bits.len(), width);
                bits.push(1);
                assert_eq!(i8::decompress_from_binaries(&mut bits, Some(width)).unwrap() as i128, value);
                assert_eq!(bits, vec![1]);
            }
            let mut bits = (value as i16).compress_to_binaries(Some(bound)).unwrap().to_binaries();
            let width = width_of(&i16::max_binaries(Some(bound)));
            assert_eq!(i16::decompress_from_binaries(&mut bits, Some(width)).unwrap() as i128, value);

            let mut bits = (value as i32).compress_to_binaries(Some(bound)).unwrap().to_binaries();
            let width = width_of(&i32::max_binaries(Some(bound)));
            assert_eq!(i32::decompress_from_binaries(&mut bits, Some(width)).unwrap() as i128, value);

            let mut bits = (value as i64).compress_to_binaries(Some(bound)).unwrap().to_binaries();
            let width = width_of(&i64::max_binaries(Some(bound)));
            assert_eq!(i64::decompress_from_binaries(&mut bits, Some(width)).unwrap() as i128, value);

            let mut bits = value.compress_to_binaries(Some(bound)).unwrap().to_binaries();
            let width = width_of(&i128::max_binaries(Some(bound)));
            assert_eq!(i128::decompress_from_binaries(&mut bits, Some(width)).unwrap(), value);
        }
    }
}

#[test]
fn signed_round_trip_at_the_limits() {
    let mut bits = i8::MIN.compress_to_binaries(Some(128)).unwrap().to_binaries();
    assert_eq!(bits, vec![0, 1, 0, 0, 0, 0, 0, 0, 0]);
    assert_eq!(i8::decompress_from_binaries(&mut bits, Some(9)).unwrap(), i8::MIN);

    let mut bits = i8::MAX.compress_to_binaries(Some(128)).unwrap().to_binaries();
    assert_eq!(i8::decompress_from_binaries(&mut bits, Some(9)).unwrap(), i8::MAX);

    let mut bits = i64::MIN.compress_to_binaries(Some(1u128 << 63)).unwrap().to_binaries();
    assert_eq!(bits.len(), 65);
    assert_eq!(i64::decompress_from_binaries(&mut bits, Some(65)).unwrap(), i64::MIN);

    let mut bits = i128::MIN.compress_to_binaries(Some(u128::MAX)).unwrap().to_binaries();
    assert_eq!(bits.len(), 129);
    assert_eq!(i128::decompress_from_binaries(&mut bits, Some(129)).unwrap(), i128::MIN);

    let mut bits = i128::MAX.compress_to_binaries(Some(u128::MAX)).unwrap().to_binaries();
    assert_eq!(i128::decompress_from_binaries(&mut bits, Some(129)).unwrap(), i128::MAX);

    let mut bits = 0i32.compress_to_binaries(Some(0)).unwrap().to_binaries();
    assert_eq!(bits, vec![1, 0, 0, 0]);
    assert_eq!(i32::decompress_from_binaries(&mut bits, Some(4)).unwrap(), 0);
    let mut negative_zero = vec![0, 0, 0, 0];
    assert_eq!(i32::decompress_from_binaries(&mut negative_zero, Some(4)).unwrap(), 0);
}

#[test]
fn overflow_is_refused() {
    let bounds: [u128; 6] = [0, 7, 8, 100, 478, 30000];
    for bound in bounds {
        let e = ((bound + 1) as u16).compress_to_binaries(Some(bound)).unwrap_err();
        assert_eq!(e.kind(), CompressErrorKind::Overflow);
        let e = ((bound + 1) as u32).compress_to_binaries(Some(bound)).unwrap_err();
        assert_eq!(e.kind(), CompressErrorKind::Overflow);
        let e = ((bound + 1) as u64).compress_to_binaries(Some(bound)).unwrap_err();
        assert_eq!(e.kind(), CompressErrorKind::Overflow);
        let e = (bound + 1).compress_to_binaries(Some(bound)).unwrap_err();
        assert_eq!(e.kind(), CompressErrorKind::Overflow);
        let e = ((bound + 1) as i16).compress_to_binaries(Some(bound)).unwrap_err();
        assert_eq!(e.kind(), CompressErrorKind::Overflow);
        let e = (-((bound + 1) as i16)).compress_to_binaries(Some(bound)).unwrap_err();
        assert_eq!(e.kind(), CompressErrorKind::Overflow);
        let e = ((bound + 1) as i32).compress_to_binaries(Some(bound)).unwrap_err();
        assert_eq!(e.kind(), CompressErrorKind::Overflow);
        let e = ((bound + 1) as i64).compress_to_binaries(Some(bound)).unwrap_err();
        assert_eq!(e.kind(), CompressErrorKind::Overflow);
        let e = (-((bound + 1) as i128)).compress_to_binaries(Some(bound)).unwrap_err();
        assert_eq!(e.kind(), CompressErrorKind::Overflow);
    }
    let e = 101i8.compress_to_binaries(Some(100)).unwrap_err();
    assert_eq!(e.kind(), CompressErrorKind::Overflow);
    let e = i8::MIN.compress_to_binaries(Some(127)).unwrap_err();
    assert_eq!(e.kind(), CompressErrorKind::Overflow);
    assert!(100i8.compress_to_binaries(Some(100)).is_ok());
    assert!((-100i8).compress_to_binaries(Some(100)).is_ok());
}

#[test]
fn overflow_messages() {
    let e = 300u16.compress_to_binaries(Some(200)).unwrap_err();
    assert_eq!(e.message(), "Compress Error; Number overflow; given: 300, max-num: 200");
    let e = (-78i8).compress_to_binaries(Some(50)).unwrap_err();
    assert_eq!(e.message(), "Compress Error; Number overflow; given: -78, max-num: 50");
    let e = u128::MAX.compress_to_binaries(Some(0)).unwrap_err();
    assert_eq!(
        e.message(),
        "Compress Error; Number overflow; given: 340282366920938463463374607431768211455, max-num: 0"
    );
    let e = i128::MIN.compress_to_binaries(Some(10)).unwrap_err();
    assert_eq!(
        e.message(),
        "Compress Error; Number overflow; given: -170141183460469231731687303715884105728, max-num: 10"
    );
}

#[test]
fn widths_follow_the_bound() {
    assert_eq!(width_of(&u16::max_binaries(Some(0))), 3);
    assert_eq!(width_of(&u16::max_binaries(Some(7))), 3);
    assert_eq!(width_of(&u16::max_binaries(Some(8))), 4);
    assert_eq!(width_of(&u32::max_binaries(Some(1000))), 10);
    assert_eq!(width_of(&u64::max_binaries(Some(10000))), 14);
    assert_eq!(width_of(&u128::max_binaries(Some(u128::MAX))), 128);
    assert_eq!(width_of(&i8::max_binaries(Some(0))), 4);
    assert_eq!(width_of(&i64::max_binaries(Some(500))), 10);
    assert_eq!(width_of(&i128::max_binaries(Some(u128::MAX))), 129);
    assert_eq!(find_mult_8_bit_size(478), 6);
    assert_eq!(find_mult_8_bit_size(7), 0);

    let mut last_unsigned = 0;
    let mut last_signed = 0;
    for bound in 0..5000u128 {
        let unsigned = width_of(&u32::max_binaries(Some(bound)));
        let signed = width_of(&i32::max_binaries(Some(bound)));
        assert!(last_unsigned <= unsigned);
        assert!(last_signed <= signed);
        assert_eq!(signed, unsigned + 1);
        last_unsigned = unsigned;
        last_signed = signed;
    }
}

#[test]
fn numerals() {
    assert_eq!(encode(5, 0), vec![1, 0, 1]);
    assert_eq!(encode(5, 6), vec![0, 0, 0, 1, 0, 1]);
    assert_eq!(encode(0, 0), Vec::<u8>::new());
    assert_eq!(encode(0, 3), vec![0, 0, 0]);
    assert_eq!(encode(255, 2), vec![1, 1, 1, 1, 1, 1, 1, 1]);
    assert_eq!(compress_num(122, 6), vec![0, 0, 1, 1, 1, 1, 0, 1, 0]);
    assert_eq!(compress_num(7, 0), vec![1, 1, 1]);
    assert_eq!(compress_num(1000, 7), vec![1, 1, 1, 1, 1, 0, 1, 0, 0, 0]);
}

#[test]
fn metalength_values() {
    assert_eq!(compress_metalength_v2(5), vec![1, 0, 0, 0, 0, 1, 0, 1]);
    assert_eq!(compress_metalength_v2(127), vec![1, 1, 1, 1, 1, 1, 1, 1]);
    assert_eq!(
        compress_metalength_v2(128),
        vec![0, 0, 0, 0, 0, 0, 0, 1, 1, 0, 0, 0, 0, 0, 0, 0]
    );
    assert_eq!(
        compress_metalength_v2(300),
        vec![0, 0, 0, 0, 0, 0, 1, 0, 1, 0, 1, 0, 1, 1, 0, 0]
    );
    assert_eq!(
        compress_metalength_v2(16384),
        vec![0, 0, 0, 0, 0, 0, 0, 1, 0, 0, 0, 0, 0, 0, 0, 0, 1, 0, 0, 0, 0, 0, 0, 0]
    );
}

#[test]
fn metalength_round_trip() {
    let mut sizes: Vec<usize> = (0..2000).collect();
    sizes.extend_from_slice(&[16383, 16384, 16385, 2097151, 2097152, 1 << 40, usize::MAX]);
    for n in sizes {
        let mut bits = compress_metalength_v2(n);
        assert_eq!(bits.len() % 8, 0);
        let used = bits.len();
        bits.extend_from_slice(&[1, 1, 0]);
        let (value, taken) = read_length(&bits).unwrap();
        assert_eq!(value, n as u128);
        assert_eq!(taken, used);
    }
}

#[test]
fn delimeter_takes_the_prefix_off() {
    let mut bits = compress_metalength_v2(2);
    bits.extend_from_slice(&[1, 0, 1, 0, 1, 0, 1, 0, 0, 0, 0, 0, 1, 1, 1, 1, 1]);
    let size = calc_delimeter_size(&mut bits).unwrap();
    assert_eq!(size, 2);
    assert_eq!(bits, vec![1, 0, 1, 0, 1, 0, 1, 0, 0, 0, 0, 0, 1, 1, 1, 1, 1]);
}

#[test]
fn delimeter_errors() {
    let mut bits = vec![1, 0, 0];
    let e = calc_delimeter_size(&mut bits).unwrap_err();
    assert_eq!(e.kind(), DecompressErrorKind::WrongBytesLength);
    assert_eq!(bits, vec![1, 0, 0]);

    let mut bits = vec![0, 0, 0, 0, 0, 0, 0, 1];
    let e = calc_delimeter_size(&mut bits).unwrap_err();
    assert_eq!(e.kind(), DecompressErrorKind::WrongBytesLength);

    let mut bits = vec![1, 0, 0, 0, 0, 0, 0, 1, 0, 0, 0];
    let e = calc_delimeter_size(&mut bits).unwrap_err();
    assert_eq!(e.kind(), DecompressErrorKind::WrongBytesLength);
    assert_eq!(bits, vec![1, 0, 0, 0, 0, 0, 0, 1, 0, 0, 0]);

    let mut bits = vec![2, 0, 0, 0, 0, 0, 0, 0];
    let e = calc_delimeter_size(&mut bits).unwrap_err();
    assert_eq!(e.kind(), DecompressErrorKind::FromBinariesErr);
    assert_eq!(
        e.message(),
        "Parsin err: the vector given cannot be parsed into a Compressed Binaries"
    );

    let mut bits = vec![1, 0, 0, 3, 0, 0, 0, 0];
    let e = calc_delimeter_size(&mut bits).unwrap_err();
    assert_eq!(e.kind(), DecompressErrorKind::BinariesToIntErr);
    assert_eq!(
        e.message(),
        "Decompress Error; Error parsing the binaries given to integer; Binaries given: 0030000"
    );

    let mut bits = Vec::new();
    for _ in 0..19 {
        bits.extend_from_slice(&[0, 1, 1, 1, 1, 1, 1, 1]);
    }
    bits.extend_from_slice(&[1, 1, 1, 1, 1, 1, 1, 1]);
    let e = calc_delimeter_size(&mut bits).unwrap_err();
    assert_eq!(e.kind(), DecompressErrorKind::BinariesToIntErr);
}

#[test]
fn number_reading_errors() {
    let mut bits = vec![1, 0];
    let e = u16::decompress_from_binaries(&mut bits, Some(3)).unwrap_err();
    assert_eq!(e.kind(), DecompressErrorKind::WrongBytesLength);
    assert_eq!(e.message(), "Decompress Error; Wrong bytes length; Not enough bytes");
    assert_eq!(bits, vec![1, 0]);

    let mut bits = vec![0, 2, 1];
    let e = u16::decompress_from_binaries(&mut bits, Some(3)).unwrap_err();
    assert_eq!(e.kind(), DecompressErrorKind::BinariesToIntErr);
    assert_eq!(bits, vec![0, 2, 1]);

    let mut bits = vec![1, 0, 1, 10, 0, 1];
    let e = u32::decompress_from_binaries(&mut bits, Some(6)).unwrap_err();
    assert_eq!(e.kind(), DecompressErrorKind::BinariesToIntErr);
    assert_eq!(
        e.message(),
        "Decompress Error; Error parsing the binaries given to integer; Binaries given: 1011001"
    );

    let mut bits = vec![1u8; 20];
    let e = u16::decompress_from_binaries(&mut bits, Some(20)).unwrap_err();
    assert_eq!(e.kind(), DecompressErrorKind::BinariesToIntErr);
    assert_eq!(bits.len(), 20);
    let mut bits = vec![1u8; 20];
    assert_eq!(u32::decompress_from_binaries(&mut bits, Some(20)).unwrap(), (1 << 20) - 1);

    let mut bits = vec![0u8; 200];
    bits[199] = 1;
    assert_eq!(u16::decompress_from_binaries(&mut bits, Some(200)).unwrap(), 1);

    let mut bits = vec![2, 0, 0, 0];
    let e = i8::decompress_from_binaries(&mut bits, Some(4)).unwrap_err();
    assert_eq!(e.kind(), DecompressErrorKind::FromBinariesErr);
    assert_eq!(bits, vec![2, 0, 0, 0]);

    let mut bits = vec![1, 1, 0, 0, 0, 0, 0, 0, 0];
    let e = i8::decompress_from_binaries(&mut bits, Some(9)).unwrap_err();
    assert_eq!(e.kind(), DecompressErrorKind::BinariesToIntErr);

    let mut bits = vec![0, 1, 0, 0, 0, 0, 0, 0, 1];
    let e = i8::decompress_from_binaries(&mut bits, Some(9)).unwrap_err();
    assert_eq!(e.kind(), DecompressErrorKind::BinariesToIntErr);

    let mut bits = vec![1, 0, 0];
    let e = i16::decompress_from_binaries(&mut bits, Some(4)).unwrap_err();
    assert_eq!(e.kind(), DecompressErrorKind::WrongBytesLength);
}

#[test]
fn whole_value_reading() {
    assert_eq!(u16::decompress(Compressed::Binaries(vec![1, 1, 1])).unwrap(), 7);
    assert_eq!(u128::decompress(Compressed::from_bytes(vec![1, 2])).unwrap(), 258);
    assert_eq!(i8::decompress(Compressed::Binaries(vec![0, 1, 0, 1])).unwrap(), -5);
    assert_eq!(i16::decompress(Compressed::Binaries(vec![1, 1, 0, 1])).unwrap(), 5);
    assert_eq!(i32::decompress(Compressed::Binaries(vec![0, 1, 0, 0, 1])).unwrap(), -9);
    assert_eq!(i128::decompress(Compressed::Binaries(vec![1, 1, 0, 0, 1])).unwrap(), 9);

    let e = u32::decompress(Compressed::Binaries(vec![1, 0])).unwrap_err();
    assert_eq!(e.kind(), DecompressErrorKind::WrongBytesLength);
    let e = i64::decompress(Compressed::Binaries(vec![1, 0, 1])).unwrap_err();
    assert_eq!(e.kind(), DecompressErrorKind::WrongBytesLength);
    let e = u64::decompress(Compressed::Binaries(vec![1, 0, 5])).unwrap_err();
    assert_eq!(e.kind(), DecompressErrorKind::BinariesToIntErr);
    let e = i64::decompress(Compressed::Binaries(vec![7, 0, 0, 1])).unwrap_err();
    assert_eq!(e.kind(), DecompressErrorKind::FromBinariesErr);
}

#[test]
fn integers_are_not_packed_whole() {
    assert_eq!(5u16.compress().unwrap_err().kind(), CompressErrorKind::DataNoSupported);
    assert_eq!(5u32.compress().unwrap_err().kind(), CompressErrorKind::DataNoSupported);
    assert_eq!(5u64.compress().unwrap_err().kind(), CompressErrorKind::DataNoSupported);
    assert_eq!(5u128.compress().unwrap_err().kind(), CompressErrorKind::DataNoSupported);
    assert_eq!(5i8.compress().unwrap_err().kind(), CompressErrorKind::DataNoSupported);
    assert_eq!(5i16.compress().unwrap_err().kind(), CompressErrorKind::DataNoSupported);
    assert_eq!(5i32.compress().unwrap_err().kind(), CompressErrorKind::DataNoSupported);
    assert_eq!(5i64.compress().unwrap_err().kind(), CompressErrorKind::DataNoSupported);
    let e = 5i128.compress().unwrap_err();
    assert_eq!(e.kind(), CompressErrorKind::DataNoSupported);
    assert_eq!(e.message(), "Primitive data type is not supported for using this function");
    assert_eq!(
        vec![1u8, 2].compress().unwrap_err().kind(),
        CompressErrorKind::DataNoSupported
    );
    assert_eq!(
        vec![1u16, 2].compress().unwrap_err().kind(),
        CompressErrorKind::DataNoSupported
    );
    let e = <Vec<u8>>::decompress(Compressed::new()).unwrap_err();
    assert_eq!(e.kind(), DecompressErrorKind::PrimitiveDataErr);
    let e = <Vec<u32>>::decompress(Compressed::new()).unwrap_err();
    assert_eq!(e.kind(), DecompressErrorKind::PrimitiveDataErr);
}

#[test]
fn blob_round_trip() {
    let mut rng = thread_rng();
    let mut blobs: Vec<Vec<u8>> = vec![
        vec![],
        vec![0],
        vec![255],
        vec![1, 2, 3, 4, 5, 6, 7, 8, 9, 10],
        vec![7u8; 10000],
        (0..=255u8).collect(),
    ];
    blobs.push((0..5000).map(|_| rng.gen_range(0..=255u8)).collect());
    for blob in blobs {
        let packed = blob.clone().compress_to_binaries(None).unwrap();
        let mut bits = packed.to_binaries();
        assert_eq!(bits.len() % 8, 0);
        bits.extend_from_slice(&[1, 0, 0, 1]);
        let back = <Vec<u8>>::decompress_from_binaries(&mut bits, None).unwrap();
        assert_eq!(back, blob);
        assert_eq!(bits, vec![1, 0, 0, 1]);
    }
}

#[test]
fn blob_is_compressed() {
    let blob = vec![7u8; 10000];
    let packed = blob.clone().compress_to_binaries(None).unwrap();
    let bits = packed.to_binaries();
    assert!(bits.len() < 8000);
    assert!(bits.iter().all(|bit| *bit <= 1));
    let plain = Compressed::from_bytes(blob).to_binaries();
    assert_ne!(bits[bits.len() - 64..], plain[plain.len() - 64..]);
}

#[test]
fn blob_frame() {
    let blob = vec![1u8, 2, 3];
    let bits = blob.compress_to_binaries(None).unwrap().to_binaries();
    let (announced, used) = read_length(&bits).unwrap();
    assert_eq!(used, 8);
    assert_eq!(bits.len(), used + 8 * announced as usize);
    let bytes = Compressed::from_binaries(&bits[used..]).to_bytes();
    assert_eq!(bytes[..4], [3, 0, 0, 0]);
}

#[test]
fn blob_errors() {
    let mut bits = compress_metalength_v2(1);
    bits.extend_from_slice(&[0, 0, 0, 0, 0, 0, 0, 0]);
    let before = bits.clone();
    let e = <Vec<u8>>::decompress_from_binaries(&mut bits, None).unwrap_err();
    assert_eq!(e.kind(), DecompressErrorKind::FromBytesErr);
    assert_eq!(bits, before);

    let mut bits = compress_metalength_v2(6);
    bits.extend_from_slice(&to_binary(&[9, 0, 0, 0, 0x20, 1]));
    let e = <Vec<u8>>::decompress_from_binaries(&mut bits, None).unwrap_err();
    assert_eq!(e.kind(), DecompressErrorKind::FromBytesErr);

    let mut bits = compress_metalength_v2(3);
    bits.extend_from_slice(&[0, 0, 0, 0, 0, 0, 0, 0]);
    let e = <Vec<u8>>::decompress_from_binaries(&mut bits, None).unwrap_err();
    assert_eq!(e.kind(), DecompressErrorKind::WrongBytesLength);

    let mut bits = vec![1, 0, 1];
    let e = <Vec<u8>>::decompress_from_binaries(&mut bits, None).unwrap_err();
    assert_eq!(e.kind(), DecompressErrorKind::WrongBytesLength);
}

#[test]
fn collection_round_trip() {
    let lists: Vec<Vec<u16>> = vec![vec![], vec![7], vec![0], vec![200, 0, 13, 1, 199], (0..=200).collect()];
    for list in lists {
        let packed = list.clone().compress_to_binaries(Some(200)).unwrap();
        let bit_size = <Vec<u16>>::max_binaries(Some(200));
        assert_eq!(width_of(&bit_size), 8);
        let mut bits = packed.to_binaries();
        assert_eq!(bits.len() % 8, 0);
        bits.extend_from_slice(&[1, 1]);
        let back = bit_size.decompress::<Vec<u16>>(&mut bits).unwrap();
        assert_eq!(back, list);
        assert_eq!(bits, vec![1, 1]);
    }
}

#[test]
fn collection_of_signed_round_trip() {
    let lists: Vec<Vec<i32>> = vec![vec![], vec![-1000], vec![5, -5, 0, 1000, -999, 17, 3]];
    for list in lists {
        let packed = list.clone().compress_to_binaries(Some(1000)).unwrap();
        let mut bits = packed.to_binaries();
        let back = <Vec<i32>>::decompress_from_binaries(&mut bits, Some(11)).unwrap();
        assert_eq!(back, list);
        assert!(bits.is_empty());
    }
}

#[test]
fn empty_collection_frame() {
    let packed = Vec::<u64>::new().compress_to_binaries(Some(9)).unwrap();
    assert_eq!(packed.to_binaries(), vec![1, 0, 0, 0, 0, 0, 0, 0]);
    let packed = Vec::<Vec<u8>>::new().compress_to_binaries(None).unwrap();
    assert_eq!(packed.to_binaries(), vec![1, 0, 0, 0, 0, 0, 0, 0]);
}

#[test]
fn collection_frame() {
    let packed = vec![3u16, 5].compress_to_binaries(Some(20)).unwrap();
    assert_eq!(
        packed.to_binaries(),
        vec![1, 0, 0, 0, 0, 0, 1, 0, 0, 0, 0, 1, 1, 0, 0, 1, 0, 1, 0, 0, 0, 0, 0, 0]
    );
}

#[test]
fn collection_of_blobs_round_trip() {
    let lists: Vec<Vec<Vec<u8>>> = vec![
        vec![],
        vec![vec![]],
        vec![vec![1, 2, 3]],
        vec![vec![], vec![9; 300], vec![], vec![1], (0..200).collect()],
    ];
    for list in lists {
        let packed = list.clone().compress_to_binaries(None).unwrap();
        let mut bits = packed.to_binaries();
        bits.extend_from_slice(&[0, 1]);
        let back = <Vec<Vec<u8>>>::decompress_from_binaries(&mut bits, None).unwrap();
        assert_eq!(back, list);
        assert_eq!(bits, vec![0, 1]);
    }
}

#[test]
fn nested_collection_round_trip() {
    let list: Vec<Vec<u16>> = vec![vec![1, 2, 3], vec![], vec![200], vec![0, 0]];
    let packed = list.clone().compress_to_binaries(Some(200)).unwrap();
    let mut bits = packed.to_binaries();
    let back = <Vec<Vec<u16>>>::max_binaries(Some(200))
        .decompress::<Vec<Vec<u16>>>(&mut bits)
        .unwrap();
    assert_eq!(back, list);
    assert!(bits.is_empty());

    let deep: Vec<Vec<Vec<i8>>> = vec![vec![vec![-1, 1], vec![]], vec![], vec![vec![100, -100, 0]]];
    let packed = deep.clone().compress_to_binaries(Some(100)).unwrap();
    let mut bits = packed.to_binaries();
    let back = <Vec<Vec<Vec<i8>>>>::decompress_from_binaries(&mut bits, Some(8)).unwrap();
    assert_eq!(back, deep);
}

#[test]
fn narrow_items_and_padding() {
    let packed = vec![3u16].compress_to_binaries(Some(5)).unwrap();
    assert_eq!(
        packed.to_binaries(),
        vec![1, 0, 0, 0, 0, 0, 0, 1, 0, 1, 1, 0, 0, 0, 0, 0]
    );
    let mut bits = packed.to_binaries();
    let back = <Vec<u16>>::decompress_from_binaries(&mut bits, Some(3)).unwrap();
    assert_eq!(back, vec![3, 0]);

    let list: Vec<u16> = vec![3, 5, 0, 7, 1, 2, 0, 0];
    let packed = list.clone().compress_to_binaries(Some(5)).unwrap_err();
    assert_eq!(packed.kind(), CompressErrorKind::Overflow);
    let list: Vec<u16> = vec![3, 5, 0, 4, 1, 2, 0, 0];
    let mut bits = list.clone().compress_to_binaries(Some(5)).unwrap().to_binaries();
    assert_eq!(bits.len(), 8 + 24);
    let back = <Vec<u16>>::decompress_from_binaries(&mut bits, Some(3)).unwrap();
    assert_eq!(back, list);
}

#[test]
fn collection_errors() {
    let e = vec![1u16, 2, 300, 4].compress_to_binaries(Some(200)).unwrap_err();
    assert_eq!(e.kind(), CompressErrorKind::Overflow);
    assert_eq!(e.message(), "Compress Error; Number overflow; given: 300, max-num: 200");

    let mut bits = vec![1, 0, 0, 0, 0, 0, 0, 1, 0, 0, 0, 0, 0, 1, 0, 1];
    let before = bits.clone();
    let e = <Vec<u16>>::decompress_from_binaries(&mut bits, Some(5)).unwrap_err();
    assert_eq!(e.kind(), DecompressErrorKind::WrongBytesLength);
    assert_eq!(bits, before);

    let mut bits = vec![1, 0, 0, 0, 0, 0, 0, 1, 0, 0, 4, 0, 0, 0, 0, 0];
    let e = <Vec<u16>>::decompress_from_binaries(&mut bits, Some(5)).unwrap_err();
    assert_eq!(e.kind(), DecompressErrorKind::BinariesToIntErr);

    let mut bits = vec![1, 0, 0, 0, 0, 0, 1, 0, 0, 0, 0];
    let e = <Vec<u16>>::decompress_from_binaries(&mut bits, Some(5)).unwrap_err();
    assert_eq!(e.kind(), DecompressErrorKind::WrongBytesLength);

    let mut bits = vec![1, 0, 0, 0, 0, 0, 0, 1, 0, 0, 0, 0, 0, 0, 0, 0];
    let e = <Vec<Vec<u8>>>::decompress_from_binaries(&mut bits, None).unwrap_err();
    assert_eq!(e.kind(), DecompressErrorKind::WrongBytesLength);

    let mut bits = vec![1, 0, 0, 0, 0, 0, 0, 1, 3, 0, 0, 0, 0, 0, 0, 0];
    let e = <Vec<Vec<u8>>>::decompress_from_binaries(&mut bits, None).unwrap_err();
    assert_eq!(e.kind(), DecompressErrorKind::FromBinariesErr);
}

#[test]
fn element_widths() {
    assert_eq!(u16::element_width(Some(9)), Some(9));
    assert_eq!(u128::element_width(Some(128)), Some(128));
    assert_eq!(i8::element_width(Some(8)), Some(8));
    assert_eq!(i64::element_width(None), None);
    assert_eq!(<Vec<u8>>::element_width(Some(8)), None);
    assert_eq!(<Vec<u16>>::element_width(Some(8)), None);
}

#[test]
fn plans() {
    assert!(matches!(<Vec<u8>>::max_binaries(None), BinaryChunk::Delimeter));
    assert!(matches!(<Vec<u8>>::max_binaries(Some(5)), BinaryChunk::Delimeter));
    assert!(matches!(<Vec<Vec<u8>>>::max_binaries(None), BinaryChunk::Delimeter));
    assert!(matches!(<Vec<u16>>::max_binaries(Some(478)), BinaryChunk::Single(9)));
    assert!(matches!(<Vec<Vec<i8>>>::max_binaries(Some(100)), BinaryChunk::Single(8)));

    assert_eq!(BinaryChunk::Single(9).flatten(), vec![9]);
    assert_eq!(BinaryChunk::Delimeter.flatten(), vec![0]);
    assert_eq!(BinaryChunk::Nested(vec![]).flatten(), Vec::<usize>::new());
    let plan = BinaryChunk::Nested(vec![
        BinaryChunk::Single(3),
        BinaryChunk::Delimeter,
        BinaryChunk::Nested(vec![BinaryChunk::Single(5), BinaryChunk::Nested(vec![])]),
        BinaryChunk::Single(128),
    ]);
    assert_eq!(plan.flatten(), vec![3, 0, 5, 128]);
    assert_eq!(plan.clone().flatten(), vec![3, 0, 5, 128]);
}

#[test]
fn plan_reads_a_field() {
    let mut bits = vec![0, 0, 1, 1, 1, 1, 0, 1, 0, 1, 1];
    let value = BinaryChunk::Single(9).decompress::<u16>(&mut bits).unwrap();
    assert_eq!(value, 122);
    assert_eq!(bits, vec![1, 1]);

    let mut bits = vec![1u8, 2, 3].compress_to_binaries(None).unwrap().to_binaries();
    let blob = BinaryChunk::Delimeter.decompress::<Vec<u8>>(&mut bits).unwrap();
    assert_eq!(blob, vec![1, 2, 3]);
    let mut bits = vec![1u8, 2, 3].compress_to_binaries(None).unwrap().to_binaries();
    let blob = BinaryChunk::Nested(vec![]).decompress::<Vec<u8>>(&mut bits).unwrap();
    assert_eq!(blob, vec![1, 2, 3]);

    let mut bits = vec![0, 1];
    let e = BinaryChunk::Single(9).decompress::<u16>(&mut bits).unwrap_err();
    assert_eq!(e.kind(), DecompressErrorKind::WrongBytesLength);
    assert_eq!(bits, vec![0, 1]);
}

#[test]
fn bits_and_bytes() {
    assert_eq!(Compressed::new().to_binaries(), Vec::<u8>::new());
    assert_eq!(Compressed::new().to_bytes(), Vec::<u8>::new());
    assert_eq!(Compressed::Binaries(vec![1, 0, 1]).to_bytes(), vec![160]);
    assert_eq!(Compressed::Binaries(vec![1; 9]).to_bytes(), vec![255, 128]);
    assert_eq!(Compressed::Binaries(vec![0, 0, 0, 0, 0, 0, 0, 1]).to_bytes(), vec![1]);
    assert_eq!(Compressed::Binaries(vec![1, 0, 1]).to_binaries(), vec![1, 0, 1]);
    assert_eq!(Compressed::Bytes(vec![160, 1]).to_bytes(), vec![160, 1]);
    assert_eq!(
        Compressed::from_bytes(vec![160, 1]).to_binaries(),
        vec![1, 0, 1, 0, 0, 0, 0, 0, 0, 0, 0, 0, 0, 0, 0, 1]
    );
    assert_eq!(Compressed::from_binaries(&[1, 1, 0]).to_binaries(), vec![1, 1, 0]);
    assert_eq!(Compressed::from_bytes(vec![7]), Compressed::Bytes(vec![7]));
    assert_eq!(Compressed::from_binaries(&[1, 1, 0]), Compressed::Binaries(vec![1, 1, 0]));
    assert_eq!(to_byte(&[1, 0, 0, 0, 0, 0, 0, 1]), 129);
    assert_eq!(to_byte(&[1, 1]), 3);
    assert_eq!(to_byte(&[]), 0);
    assert_eq!(to_binary(&[129, 0]), vec![1, 0, 0, 0, 0, 0, 0, 1, 0, 0, 0, 0, 0, 0, 0, 0]);
}

#[test]
fn bits_to_bytes_and_back() {
    let mut rng = thread_rng();
    for len in 0..40 {
        let bits: Vec<u8> = (0..len).map(|_| rng.gen_range(0..=1u8)).collect();
        let bytes = Compressed::from_binaries(&bits).to_bytes();
        assert_eq!(bytes.len(), (len + 7) / 8);
        let back = Compressed::from_bytes(bytes).to_binaries();
        assert_eq!(back.len() % 8, 0);
        assert_eq!(back[..len], bits[..]);
        assert!(back[len..].iter().all(|bit| *bit == 0));
    }
    for _ in 0..20 {
        let bytes: Vec<u8> = (0..10).map(|_| rng.gen_range(0..=255u8)).collect();
        let bits = Compressed::from_bytes(bytes.clone()).to_binaries();
        assert_eq!(bits.len(), 80);
        assert_eq!(Compressed::from_binaries(&bits).to_bytes(), bytes);
    }
}

#[test]
fn combining() {
    let left = Compressed::Binaries(vec![1, 0, 1]);
    let right = Compressed::Bytes(vec![3]);
    let both = left.combine(right);
    assert_eq!(both, Compressed::Binaries(vec![1, 0, 1, 0, 0, 0, 0, 0, 0, 1, 1]));
    let nothing = Compressed::new().combine(Compressed::new());
    assert_eq!(nothing, Compressed::Binaries(vec![]));

    let mut res = vec![1, 1];
    Compressed::Bytes(vec![128]).extend_to_res(&mut res);
    assert_eq!(res, vec![1, 1, 1, 0, 0, 0, 0, 0, 0, 0]);
    Compressed::Binaries(vec![0, 1]).extend_to_res(&mut res);
    assert_eq!(res, vec![1, 1, 1, 0, 0, 0, 0, 0, 0, 0, 0, 1]);
}

#[test]
fn fixed_size_values() {
    assert_eq!(Unsigned::compress_478_even(122).unwrap(), [65]);
    assert_eq!(Unsigned::decompress_478_even(vec![65]).unwrap(), 122);
    assert_eq!(Unsigned::compress_478_even(0).unwrap(), [0]);
    assert_eq!(Unsigned::compress_478_even(478).unwrap(), [254]);
    assert_eq!(Unsigned::compress_61_439(1234).unwrap(), [5, 36]);
    assert_eq!(Unsigned::decompress_61_439(vec![5, 36]).unwrap(), 1234);
    assert_eq!(Unsigned::compress_61_439(1249).unwrap(), [5, 52]);
    assert_eq!(Unsigned::decompress_61_439(vec![5, 52]).unwrap(), 1249);
    assert_eq!(Unsigned::compress_122_878_even(122_878).unwrap(), [255, 254]);
    assert_eq!(Unsigned::decompress_122_878_even(vec![255, 254]).unwrap(), 122_878);
    assert_eq!(Unsigned::compress_31_457_278_even(31_457_278).unwrap(), [255, 255, 254]);
    assert_eq!(Unsigned::compress_15_728_639(15_728_639).unwrap(), [255, 255, 254]);
    assert_eq!(Unsigned::compress_8_053_063_678_even(8_053_063_678).unwrap(), [255, 255, 255, 254]);
    assert_eq!(Unsigned::compress_4_026_531_839(4_026_531_839).unwrap(), [255, 255, 255, 254]);
    assert_eq!(Unsigned::compress_4_026_531_839(30).unwrap(), [0, 0, 0, 32]);
    assert_eq!(Unsigned::decompress_478_even(vec![255]).unwrap(), 480);
}

#[test]
fn fixed_size_round_trip() {
    let mut rng = thread_rng();
    for num in (0..=478u32).step_by(2) {
        let packed = Unsigned::compress_478_even(num).unwrap();
        assert_eq!(Unsigned::decompress_478_even(packed.to_vec()).unwrap(), num);
    }
    for _ in 0..2000 {
        let num = rng.gen_range(0..=61_439u32);
        let packed = Unsigned::compress_61_439(num).unwrap();
        assert_eq!(Unsigned::decompress_61_439(packed.to_vec()).unwrap(), num);

        let num = rng.gen_range(0..=61_439u32) * 2;
        let packed = Unsigned::compress_122_878_even(num).unwrap();
        assert_eq!(Unsigned::decompress_122_878_even(packed.to_vec()).unwrap(), num);

        let num = rng.gen_range(0..=15_728_639u64);
        let packed = Unsigned::compress_15_728_639(num).unwrap();
        assert_eq!(Unsigned::decompress_15_728_639(packed.to_vec()).unwrap(), num);

        let num = rng.gen_range(0..=15_728_639u64) * 2;
        let packed = Unsigned::compress_31_457_278_even(num).unwrap();
        assert_eq!(Unsigned::decompress_31_457_278_even(packed.to_vec()).unwrap(), num);

        let num = rng.gen_range(0..=4_026_531_839u64);
        let packed = Unsigned::compress_4_026_531_839(num).unwrap();
        assert_eq!(Unsigned::decompress_4_026_531_839(packed.to_vec()).unwrap(), num);

        let num = rng.gen_range(0..=4_026_531_839u64) * 2;
        let packed = Unsigned::compress_8_053_063_678_even(num).unwrap();
        assert_eq!(Unsigned::decompress_8_053_063_678_even(packed.to_vec()).unwrap(), num);
    }
}

#[test]
fn fixed_size_errors() {
    let e = Unsigned::compress_478_even(3).unwrap_err();
    assert_eq!(e.kind(), CompressErrorKind::NotEven);
    assert_eq!(e.message(), "Compress Error; Number is not even; given:3");
    let e = Unsigned::compress_478_even(481).unwrap_err();
    assert_eq!(e.kind(), CompressErrorKind::NotEven);
    let e = Unsigned::compress_478_even(480).unwrap_err();
    assert_eq!(e.kind(), CompressErrorKind::Overflow);
    assert_eq!(e.message(), "Compress Error; Number overflow; given: 480, max-num: 478");
    assert_eq!(
        Unsigned::compress_122_878_even(122_880).unwrap_err().kind(),
        CompressErrorKind::Overflow
    );
    assert_eq!(Unsigned::compress_122_878_even(1).unwrap_err().kind(), CompressErrorKind::NotEven);
    assert_eq!(Unsigned::compress_61_439(61_440).unwrap_err().kind(), CompressErrorKind::Overflow);
    assert_eq!(
        Unsigned::compress_31_457_278_even(31_457_280).unwrap_err().kind(),
        CompressErrorKind::Overflow
    );
    assert_eq!(Unsigned::compress_31_457_278_even(5).unwrap_err().kind(), CompressErrorKind::NotEven);
    assert_eq!(
        Unsigned::compress_15_728_639(15_728_640).unwrap_err().kind(),
        CompressErrorKind::Overflow
    );
    assert_eq!(
        Unsigned::compress_8_053_063_678_even(8_053_063_680).unwrap_err().kind(),
        CompressErrorKind::Overflow
    );
    assert_eq!(
        Unsigned::compress_8_053_063_678_even(7).unwrap_err().kind(),
        CompressErrorKind::NotEven
    );
    let e = Unsigned::compress_4_026_531_839(4_026_531_840).unwrap_err();
    assert_eq!(e.kind(), CompressErrorKind::Overflow);
    assert_eq!(
        e.message(),
        "Compress Error; Number overflow; given: 4026531840, max-num: 4_026_531_839"
    );

    let e = Unsigned::decompress_478_even(vec![1, 2]).unwrap_err();
    assert_eq!(e.kind(), DecompressErrorKind::WrongBytesLength);
    assert_eq!(
        e.message(),
        "Decompress Error; Wrong bytes length; given: 2-length, shouldbe: 1-length"
    );
    assert_eq!(
        Unsigned::decompress_122_878_even(vec![1]).unwrap_err().kind(),
        DecompressErrorKind::WrongBytesLength
    );
    assert_eq!(
        Unsigned::decompress_61_439(vec![]).unwrap_err().kind(),
        DecompressErrorKind::WrongBytesLength
    );
    assert_eq!(
        Unsigned::decompress_31_457_278_even(vec![1, 2]).unwrap_err().kind(),
        DecompressErrorKind::WrongBytesLength
    );
    assert_eq!(
        Unsigned::decompress_15_728_639(vec![1, 2, 3, 4]).unwrap_err().kind(),
        DecompressErrorKind::WrongBytesLength
    );
    assert_eq!(
        Unsigned::decompress_8_053_063_678_even(vec![1, 2, 3]).unwrap_err().kind(),
        DecompressErrorKind::WrongBytesLength
    );
    assert_eq!(
        Unsigned::decompress_4_026_531_839(vec![1, 2, 3, 4, 5]).unwrap_err().kind(),
        DecompressErrorKind::WrongBytesLength
    );
}

#[test]
fn completed_errors() {
    let e = CompressError::Overflow(String::from("x")).create();
    assert_eq!(e.kind(), CompressErrorKind::Overflow);
    assert_eq!(e.message(), "Compress Error; Number overflow; x");
    let e = CompressError::NotEven(String::from("7")).create();
    assert_eq!(e.kind(), CompressErrorKind::NotEven);
    assert_eq!(e.message(), "Compress Error; Number is not even; given:7");
    let e = CompressError::EncodeErr(String::from("cannot")).create();
    assert_eq!(e.kind(), CompressErrorKind::EncodeErr);
    assert_eq!(e.message(), "cannot");
    let e = CompressError::Unknown(String::from("what")).create();
    assert_eq!(e.kind(), CompressErrorKind::Unknown);
    assert_eq!(e.message(), "what");
    let e = CompressError::DataNoSupported(String::from("ignored")).create();
    assert_eq!(e.kind(), CompressErrorKind::DataNoSupported);
    assert_eq!(e.message(), "Primitive data type is not supported for using this function");

    let e = DecompressError::WrongBytesLength(String::from("x")).create();
    assert_eq!(e.kind(), DecompressErrorKind::WrongBytesLength);
    assert_eq!(e.message(), "Decompress Error; Wrong bytes length; x");
    let e = DecompressError::BinariesToIntErr(String::from("x")).create();
    assert_eq!(e.kind(), DecompressErrorKind::BinariesToIntErr);
    assert_eq!(
        e.message(),
        "Decompress Error; Error parsing the binaries given to integer; x"
    );
    let e = DecompressError::FromBytesErr(String::from("x")).create();
    assert_eq!(e.kind(), DecompressErrorKind::FromBytesErr);
    assert_eq!(
        e.message(),
        "Parsing err: the vector given cannot be parse into a Compressed Bytes"
    );
    let e = DecompressError::FromBinariesErr(String::from("x")).create();
    assert_eq!(e.kind(), DecompressErrorKind::FromBinariesErr);
    assert_eq!(
        e.message(),
        "Parsin err: the vector given cannot be parsed into a Compressed Binaries"
    );
    let e = DecompressError::Unknown(String::from("x")).create();
    assert_eq!(e.kind(), DecompressErrorKind::Unknown);
    assert_eq!(e.message(), "x");
    let e = DecompressError::PrimitiveDataErr(String::from("x")).create();
    assert_eq!(e.kind(), DecompressErrorKind::PrimitiveDataErr);
    assert_eq!(e.message(), "Primitive data type is not supported for using this function");
}

#[test]
fn packed_values_share_a_stream() {
    let first = 900u32.compress_to_binaries(Some(1000)).unwrap();
    let second = (-75i64).compress_to_binaries(Some(500)).unwrap();
    let third = vec![1u8, 2, 3].compress_to_binaries(None).unwrap();
    let fourth = vec![10u16, 20, 30].compress_to_binaries(Some(200)).unwrap();
    let all = first.combine(second).combine(third).combine(fourth);
    let bytes = all.to_bytes();

    let mut bits = Compressed::from_bytes(bytes).to_binaries();
    assert_eq!(u32::max_binaries(Some(1000)).decompress::<u32>(&mut bits).unwrap(), 900);
    assert_eq!(i64::max_binaries(Some(500)).decompress::<i64>(&mut bits).unwrap(), -75);
    assert_eq!(
        <Vec<u8>>::max_binaries(None).decompress::<Vec<u8>>(&mut bits).unwrap(),
        vec![1, 2, 3]
    );
    assert_eq!(
        <Vec<u16>>::max_binaries(Some(200)).decompress::<Vec<u16>>(&mut bits).unwrap(),
        vec![10, 20, 30]
    );
    assert!(bits.len() < 8);
    assert!(bits.iter().all(|bit| *bit == 0));
    assert_eq!(bits_of_u16(5, 7), vec![1, 0, 1]);
}

#[test]
fn reading_leaves_the_bits() {
    let bits = vec![0, 0, 1, 1, 1, 1, 0, 1, 0, 1, 1];
    let (value, used) = u16::decompress_from_slice(&bits, Some(9)).unwrap();
    assert_eq!(value, 122);
    assert_eq!(used, 9);
    let (value, used) = i16::decompress_from_slice(&bits[1..], Some(8)).unwrap();
    assert_eq!(value, -122);
    assert_eq!(used, 8);

    let mut bits = vec![9u8, 8, 7].compress_to_binaries(None).unwrap().to_binaries();
    let length = bits.len();
    bits.extend_from_slice(&[1, 1, 1]);
    let (blob, used) = <Vec<u8>>::decompress_from_slice(&bits, None).unwrap();
    assert_eq!(blob, vec![9, 8, 7]);
    assert_eq!(used, length);

    let mut bits = vec![4i64, -4, 0].compress_to_binaries(Some(4)).unwrap().to_binaries();
    let length = bits.len();
    bits.extend_from_slice(&[1, 0]);
    let (list, used) = <Vec<i64>>::decompress_from_slice(&bits, Some(4)).unwrap();
    assert_eq!(list, vec![4, -4, 0, 0]);
    assert_eq!(used, length);

    let e = u64::decompress_from_slice(&[1, 0], Some(3)).unwrap_err();
    assert_eq!(e.kind(), DecompressErrorKind::WrongBytesLength);
    let e = <Vec<u8>>::decompress_from_slice(&[], None).unwrap_err();
    assert_eq!(e.kind(), DecompressErrorKind::WrongBytesLength);
}

#[test]
fn large_collection_round_trip() {
    let mut rng = thread_rng();
    let list: Vec<u32> = (0..100_000).map(|_| rng.gen_range(0..=1_000_000u32)).collect();
    let packed = list.clone().compress_to_binaries(Some(1_000_000)).unwrap();
    let bytes = packed.to_bytes();
    assert_eq!(bytes.len(), 3 + 100_000 * 20 / 8);
    let mut bits = Compressed::from_bytes(bytes).to_binaries();
    let back = <Vec<u32>>::max_binaries(Some(1_000_000))
        .decompress::<Vec<u32>>(&mut bits)
        .unwrap();
    assert_eq!(back, list);
    assert!(bits.is_empty());
}

#[test]
fn packing_bits_into_bytes() {
    assert_eq!(pack_bits(&[]), Vec::<u8>::new());
    assert_eq!(pack_bits(&[1]), vec![128]);
    assert_eq!(pack_bits(&[0, 0, 0, 0, 1, 1, 1, 1, 1]), vec![15, 128]);
    let mut bits = vec![1, 1, 1];
    pad_to_byte(&mut bits);
    assert_eq!(bits, vec![1, 1, 1, 0, 0, 0, 0, 0]);
    pad_to_byte(&mut bits);
    assert_eq!(bits, vec![1, 1, 1, 0, 0, 0, 0, 0]);
    let mut bits = vec![];
    pad_to_byte(&mut bits);
    assert_eq!(bits, Vec::<u8>::new());
}

#[test]
fn any_bits_are_answered() {
    let mut rng = thread_rng();
    for round in 0..3000 {
        let len = rng.gen_range(0..120usize);
        let top = if round % 3 == 0 { 2u8 } else { 1u8 };
        let bits: Vec<u8> = (0..len).map(|_| rng.gen_range(0..=top)).collect();
        let width = rng.gen_range(4..140usize);

        let mut left = bits.clone();
        match u16::decompress_from_binaries(&mut left, Some(width)) {
            Ok(_) => assert_eq!(left[..], bits[width..]),
            Err(_) => assert_eq!(left, bits),
        }
        let mut left = bits.clone();
        match u128::decompress_from_binaries(&mut left, Some(width)) {
            Ok(_) => assert_eq!(left[..], bits[width..]),
            Err(_) => assert_eq!(left, bits),
        }
        let mut left = bits.clone();
        match i8::decompress_from_binaries(&mut left, Some(width)) {
            Ok(_) => assert_eq!(left[..], bits[width..]),
            Err(_) => assert_eq!(left, bits),
        }
        let mut left = bits.clone();
        match i128::decompress_from_binaries(&mut left, Some(width)) {
            Ok(_) => assert_eq!(left[..], bits[width..]),
            Err(_) => assert_eq!(left, bits),
        }
        let short: Vec<u8> = bits.iter().copied().take(39).collect();
        let mut left = short.clone();
        match <Vec<u8>>::decompress_from_binaries(&mut left, None) {
            Ok(_) => assert!(left.len() < short.len()),
            Err(_) => assert_eq!(left, short),
        }
        let mut left = bits.clone();
        match <Vec<u32>>::decompress_from_binaries(&mut left, Some(width % 12 + 3)) {
            Ok(_) => assert!(left.len() < bits.len()),
            Err(_) => assert_eq!(left, bits),
        }
        let mut left = bits.clone();
        match <Vec<Vec<i16>>>::decompress_from_binaries(&mut left, Some(width % 12 + 4)) {
            Ok(_) => assert!(left.len() < bits.len()),
            Err(_) => assert_eq!(left, bits),
        }
        let mut left = bits.clone();
        match calc_delimeter_size(&mut left) {
            Ok(size) => assert!(left.len() as u128 >= size * 8),
            Err(_) => assert_eq!(left, bits),
        }
        let whole = Compressed::from_binaries(&bits);
        let _ = u64::decompress(whole.clone());
        let _ = i32::decompress(whole.clone());
        let _ = whole.to_bytes();
    }
}

#[test]
fn missing_payload_message() {
    let mut bits = vec![1, 0, 0, 0, 0, 0, 1, 1, 0, 0, 0, 0, 0, 0, 0, 0, 1];
    let e = calc_delimeter_size(&mut bits).unwrap_err();
    assert_eq!(e.kind(), DecompressErrorKind::WrongBytesLength);
    assert_eq!(
        e.message(),
        "length of compressed bytes is shorter than meta-length of compressed vector, AKA meta-length out of bound. meta-length: 3, compressed bytes length: 9"
    );
    let e = calc_delimeter_size(&mut vec![1, 0]).unwrap_err();
    assert_eq!(
        e.message(),
        "Not enough bytes to calculate the metalength of compressed vector"
    );
}
