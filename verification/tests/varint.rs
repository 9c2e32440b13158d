use mc_ping::groups::VarIntError;
use mc_ping::varint::{
    read_var_int, read_var_long, write_var_int, write_var_long, GroupReader, Progress, VarInt,
    VarLong,
};

fn int_bytes(v: i32) -> Vec<u8> {
    let mut out = Vec::new();
    write_var_int(&mut out, &VarInt::from(v));
    out
}

fn long_bytes(v: i64) -> Vec<u8> {
    let mut out = Vec::new();
    write_var_long(&mut out, &VarLong::from(v));
    out
}

#[test]
fn var_int_zero_is_one_zero_byte() {
    assert_eq!(int_bytes(0), vec![0x00]);
    assert_eq!(VarInt::from(0).size(), 1);
}

#[test]
fn var_long_zero_is_one_zero_byte() {
    assert_eq!(long_bytes(0), vec![0x00]);
    assert_eq!(VarLong::from(0).size(), 1);
}

#[test]
fn var_int_known_encodings() {
    assert_eq!(int_bytes(1), vec![0x01]);
    assert_eq!(int_bytes(2), vec![0x02]);
    assert_eq!(int_bytes(127), vec![0x7f]);
    assert_eq!(int_bytes(128), vec![0x80, 0x01]);
    assert_eq!(int_bytes(255), vec![0xff, 0x01]);
    assert_eq!(int_bytes(300), vec![0xac, 0x02]);
    assert_eq!(int_bytes(768), vec![0x80, 0x06]);
    assert_eq!(int_bytes(25565), vec![0xdd, 0xc7, 0x01]);
    assert_eq!(int_bytes(2097151), vec![0xff, 0xff, 0x7f]);
    assert_eq!(int_bytes(2147483647), vec![0xff, 0xff, 0xff, 0xff, 0x07]);
    assert_eq!(int_bytes(-1), vec![0xff, 0xff, 0xff, 0xff, 0x0f]);
    assert_eq!(int_bytes(-2147483648), vec![0x80, 0x80, 0x80, 0x80, 0x08]);
}

#[test]
fn var_long_known_encodings() {
    assert_eq!(long_bytes(1), vec![0x01]);
    assert_eq!(long_bytes(127), vec![0x7f]);
    assert_eq!(long_bytes(128), vec![0x80, 0x01]);
    assert_eq!(long_bytes(2147483647), vec![0xff, 0xff, 0xff, 0xff, 0x07]);
    assert_eq!(
        long_bytes(9223372036854775807),
        vec![0xff, 0xff, 0xff, 0xff, 0xff, 0xff, 0xff, 0xff, 0x7f]
    );
    assert_eq!(
        long_bytes(-1),
        vec![0xff, 0xff, 0xff, 0xff, 0xff, 0xff, 0xff, 0xff, 0xff, 0x01]
    );
    assert_eq!(
        long_bytes(-2147483648),
        vec![0x80, 0x80, 0x80, 0x80, 0xf8, 0xff, 0xff, 0xff, 0xff, 0x01]
    );
    assert_eq!(
        long_bytes(-9223372036854775808),
        vec![0x80, 0x80, 0x80, 0x80, 0x80, 0x80, 0x80, 0x80, 0x80, 0x01]
    );
}

fn int_samples() -> Vec<i32> {
    let mut samples = vec![
        0,
        1,
        -1,
        63,
        64,
        127,
        128,
        255,
        256,
        768,
        16383,
        16384,
        25565,
        2097151,
        2097152,
        268435455,
        268435456,
        i32::MAX,
        i32::MAX - 1,
        i32::MIN,
        i32::MIN + 1,
        -128,
        -129,
        -25565,
    ];
    let mut x: i32 = 1;
    for _ in 0..200 {
        x = x.wrapping_mul(1103515245).wrapping_add(12345);
        samples.push(x);
    }
    samples
}

fn long_samples() -> Vec<i64> {
    let mut samples = vec![
        0,
        1,
        -1,
        127,
        128,
        16383,
        16384,
        i32::MAX as i64,
        i32::MIN as i64,
        1 << 35,
        (1 << 35) - 1,
        1 << 56,
        (1 << 62) + 17,
        i64::MAX,
        i64::MAX - 1,
        i64::MIN,
        i64::MIN + 1,
    ];
    let mut x: i64 = 1;
    for _ in 0..200 {
        x = x.wrapping_mul(6364136223846793005).wrapping_add(1442695040888963407);
        samples.push(x);
    }
    samples
}

#[test]
fn var_int_round_trip() {
    for v in int_samples() {
        let bytes = int_bytes(v);
        let (back, used) = read_var_int(&bytes).unwrap();
        assert_eq!(i32::from(back), v);
        assert_eq!(used, bytes.len());
    }
}

#[test]
fn var_long_round_trip() {
    for v in long_samples() {
        let bytes = long_bytes(v);
        let (back, used) = read_var_long(&bytes).unwrap();
        assert_eq!(i64::from(back), v);
        assert_eq!(used, bytes.len());
    }
}

#[test]
fn var_int_length_is_size_and_at_most_five() {
    for v in int_samples() {
        let n = VarInt::from(v);
        let bytes = int_bytes(v);
        assert_eq!(bytes.len(), n.size());
        assert!(bytes.len() >= 1 && bytes.len() <= 5);
        assert_eq!(bytes[bytes.len() - 1] & 0x80, 0);
        for b in &bytes[..bytes.len() - 1] {
            assert_eq!(b & 0x80, 0x80);
        }
    }
    assert_eq!(VarInt::from(127).size(), 1);
    assert_eq!(VarInt::from(128).size(), 2);
    assert_eq!(VarInt::from(16383).size(), 2);
    assert_eq!(VarInt::from(16384).size(), 3);
    assert_eq!(VarInt::from(2097152).size(), 4);
    assert_eq!(VarInt::from(268435456).size(), 5);
    assert_eq!(VarInt::from(-1).size(), 5);
}

#[test]
fn var_long_length_is_size_and_at_most_ten() {
    for v in long_samples() {
        let n = VarLong::from(v);
        let bytes = long_bytes(v);
        assert_eq!(bytes.len(), n.size());
        assert!(bytes.len() >= 1 && bytes.len() <= 10);
    }
    assert_eq!(VarLong::from(i64::MAX).size(), 9);
    assert_eq!(VarLong::from(-1).size(), 10);
    assert_eq!(VarLong::from(i64::MIN).size(), 10);
}

#[test]
fn var_int_unterminated_is_too_long() {
    assert_eq!(
        read_var_int(&[0x80, 0x80, 0x80, 0x80, 0x80]).err(),
        Some(VarIntError::TooLong)
    );
    assert_eq!(
        read_var_int(&[0xff, 0xff, 0xff, 0xff, 0xff]).err(),
        Some(VarIntError::TooLong)
    );
    assert_eq!(
        read_var_int(&[0xff, 0xff, 0xff, 0xff, 0xff, 0x01]).err(),
        Some(VarIntError::TooLong)
    );
    assert_eq!(
        read_var_int(&[0x80, 0x81, 0x82, 0x83, 0x84, 0x85, 0x86, 0x00]).err(),
        Some(VarIntError::TooLong)
    );
}

#[test]
fn var_long_unterminated_is_too_long() {
    assert_eq!(
        read_var_long(&[0x80; 10]).err(),
        Some(VarIntError::TooLong)
    );
    assert_eq!(
        read_var_long(&[0xff, 0xff, 0xff, 0xff, 0xff, 0xff, 0xff, 0xff, 0xff, 0xff, 0x01]).err(),
        Some(VarIntError::TooLong)
    );
    // Five such bytes are too long for a VarInt and no more than a start for a VarLong.
    assert_eq!(
        read_var_long(&[0x80; 5]).err(),
        Some(VarIntError::UnexpectedEnd)
    );
}

#[test]
fn var_int_out_of_bytes() {
    assert_eq!(read_var_int(&[]).err(), Some(VarIntError::UnexpectedEnd));
    assert_eq!(read_var_int(&[0x80]).err(), Some(VarIntError::UnexpectedEnd));
    assert_eq!(
        read_var_int(&[0xff, 0xff, 0xff, 0xff]).err(),
        Some(VarIntError::UnexpectedEnd)
    );
    assert_eq!(read_var_long(&[]).err(), Some(VarIntError::UnexpectedEnd));
    assert_eq!(
        read_var_long(&[0x80; 9]).err(),
        Some(VarIntError::UnexpectedEnd)
    );
}

#[test]
fn var_int_leaves_what_follows() {
    let (v, used) = read_var_int(&[0xac, 0x02, 0xff, 0xff, 0xff, 0xff, 0xff]).unwrap();
    assert_eq!(v.value(), 300);
    assert_eq!(used, 2);
    let (v, used) = read_var_int(&[0x00, 0x80]).unwrap();
    assert_eq!(v.value(), 0);
    assert_eq!(used, 1);
    let (v, used) = read_var_long(&[0x7f, 0x01]).unwrap();
    assert_eq!(v.value(), 127);
    assert_eq!(used, 1);
}

#[test]
fn var_int_padded_encoding_decodes_to_the_shortest() {
    let (v, used) = read_var_int(&[0x80, 0x00]).unwrap();
    assert_eq!(v.value(), 0);
    assert_eq!(used, 2);
    assert_eq!(v.size(), 1);
    assert_eq!(v, VarInt::from(0));
    let (v, used) = read_var_int(&[0x81, 0x80, 0x80, 0x80, 0x00]).unwrap();
    assert_eq!(v.value(), 1);
    assert_eq!(used, 5);
    assert_eq!(v.size(), 1);
}

#[test]
fn var_int_drops_bits_above_the_width() {
    let (v, used) = read_var_int(&[0xff, 0xff, 0xff, 0xff, 0x7f]).unwrap();
    assert_eq!(v.value(), -1);
    assert_eq!(used, 5);
    let (v, _) = read_var_int(&[0x80, 0x80, 0x80, 0x80, 0x10]).unwrap();
    assert_eq!(v.value(), 0);
    let (v, used) = read_var_long(&[0xff, 0xff, 0xff, 0xff, 0xff, 0xff, 0xff, 0xff, 0xff, 0x7f])
        .unwrap();
    assert_eq!(v.value(), -1);
    assert_eq!(used, 10);
}

#[test]
fn var_int_conversions() {
    assert_eq!(i32::from(VarInt::from(-12345)), -12345);
    assert_eq!(VarInt::new(77).value(), 77);
    assert_eq!(VarInt::default().value(), 0);
    assert_eq!(VarInt::default(), VarInt::from(0));
    let v = VarInt::from(25565);
    assert_eq!(v.clone(), v);
    assert_ne!(VarInt::from(1), VarInt::from(2));
    assert_eq!(i64::from(VarLong::from(-12345678901234)), -12345678901234);
    assert_eq!(VarLong::new(77).value(), 77);
    assert_eq!(VarLong::default().value(), 0);
    let w = VarLong::from(1 << 40);
    assert_eq!(w.clone(), w);
    assert_ne!(VarLong::from(1), VarLong::from(2));
}

#[test]
fn write_appends() {
    let mut out = vec![0xaa];
    write_var_int(&mut out, &VarInt::from(300));
    write_var_long(&mut out, &VarLong::from(1));
    write_var_int(&mut out, &VarInt::from(0));
    assert_eq!(out, vec![0xaa, 0xac, 0x02, 0x01, 0x00]);
}

#[test]
fn reader_takes_one_byte_at_a_time() {
    let mut reader = GroupReader::for_var_int();
    assert_eq!(reader.progress(), Progress::More);
    assert_eq!(reader.consumed(), 0);
    assert!(reader.var_int().is_none());
    assert_eq!(reader.push(0xdd), Progress::More);
    assert_eq!(reader.push(0xc7), Progress::More);
    assert!(reader.var_int().is_none());
    assert_eq!(reader.push(0x01), Progress::Done);
    assert_eq!(reader.consumed(), 3);
    assert_eq!(reader.var_int().unwrap().value(), 25565);
    assert!(reader.var_long().is_none());
    // A reader that is done takes nothing more.
    assert_eq!(reader.push(0x7f), Progress::Done);
    assert_eq!(reader.consumed(), 3);
    assert_eq!(reader.var_int().unwrap().value(), 25565);
}

#[test]
fn reader_fails_on_the_fifth_open_byte() {
    let mut reader = GroupReader::for_var_int();
    for _ in 0..4 {
        assert_eq!(reader.push(0x80), Progress::More);
    }
    assert_eq!(reader.push(0x80), Progress::TooLong);
    assert_eq!(reader.consumed(), 5);
    assert!(reader.var_int().is_none());
    assert_eq!(reader.push(0x00), Progress::TooLong);
    assert_eq!(reader.consumed(), 5);

    let mut reader = GroupReader::for_var_long();
    for _ in 0..9 {
        assert_eq!(reader.push(0xff), Progress::More);
    }
    assert_eq!(reader.push(0x01), Progress::Done);
    assert_eq!(reader.var_long().unwrap().value(), -1);
    assert!(reader.var_int().is_none());
}

#[test]
fn reader_takes_from_a_slice_what_it_needs() {
    let mut reader = GroupReader::for_var_int();
    assert_eq!(reader.push_slice(&[0x80, 0x80]), 2);
    assert_eq!(reader.progress(), Progress::More);
    assert_eq!(reader.push_slice(&[0x01, 0x55, 0x66]), 1);
    assert_eq!(reader.progress(), Progress::Done);
    assert_eq!(reader.var_int().unwrap().value(), 16384);
    assert_eq!(reader.push_slice(&[0x01]), 0);
}

#[test]
fn reader_agrees_with_slice_decoding() {
    for v in int_samples() {
        let bytes = int_bytes(v);
        let mut reader = GroupReader::for_var_int();
        let mut last = Progress::More;
        for b in &bytes {
            assert_eq!(last, Progress::More);
            last = reader.push(*b);
        }
        assert_eq!(last, Progress::Done);
        assert_eq!(reader.var_int().unwrap().value(), v);
    }
}
