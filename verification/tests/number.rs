use dm::bytes::{push_u16, push_u32, read_u16_at, read_u32_at};
use dm::number::{compare_bits, from_int, nan};
use dm::opcode::Opcode;

#[test]
fn from_int_is_the_nearest_float() {
    let mut values: Vec<i32> = vec![
        0,
        1,
        -1,
        2,
        3,
        255,
        256,
        8388607,
        8388608,
        16777215,
        16777216,
        16777217,
        16777218,
        16777219,
        33554430,
        33554431,
        33554433,
        33554434,
        33554435,
        2147483520,
        2147483583,
        2147483584,
        2147483647,
        -2147483647,
        i32::MIN,
    ];
    // A spread over the whole range, odd and even.
    let mut n: i64 = i32::MIN as i64;
    while n <= i32::MAX as i64 {
        values.push(n as i32);
        n += 7_777_777;
    }
    for shift in 0..31 {
        for delta in -3i64..=3 {
            let v = (1i64 << shift) + delta;
            values.push(v as i32);
            values.push((-v) as i32);
            let half = (3i64 << shift) / 2 + delta;
            if half <= i32::MAX as i64 {
                values.push(half as i32);
            }
        }
    }
    for n in values {
        assert_eq!(from_int(n), (n as f32).to_bits(), "{}", n);
    }
}

#[test]
fn from_int_exact_values() {
    assert_eq!(from_int(0), 0);
    assert_eq!(from_int(1), 0x3F80_0000);
    assert_eq!(from_int(-2), 0xC000_0000);
    // 16777217 lies in the middle of two floats and goes to the even one.
    assert_eq!(from_int(16777217), 0x4B80_0000);
    assert_eq!(from_int(16777219), 0x4B80_0002);
    // The fraction carries into the exponent.
    assert_eq!(from_int(i32::MAX), 0x4F00_0000);
    assert_eq!(from_int(i32::MIN), 0xCF00_0000);
}

#[test]
fn comparison_agrees_with_the_floats() {
    let mut patterns: Vec<u32> = vec![
        0,
        0x8000_0000,
        1,
        0x8000_0001,
        0x007F_FFFF,
        0x0080_0000,
        0x3F80_0000,
        0xBF80_0000,
        0x7F7F_FFFF,
        0xFF7F_FFFF,
        0x7F80_0000,
        0xFF80_0000,
        0x7F80_0001,
        0xFF80_0001,
        0x7FC0_0000,
        0xFFC0_0000,
        0x7FFF_FFFF,
        0xFFFF_FFFF,
    ];
    let mut x: u32 = 12345;
    for _ in 0..60 {
        x = x.wrapping_mul(1664525).wrapping_add(1013904223);
        patterns.push(x);
    }
    for &a in &patterns {
        assert_eq!(nan(a), f32::from_bits(a).is_nan());
        for &b in &patterns {
            let (fa, fb) = (f32::from_bits(a), f32::from_bits(b));
            assert_eq!(compare_bits(Opcode::LESS_THAN, a, b), fa < fb);
            assert_eq!(compare_bits(Opcode::LESS_OR_EQUAL, a, b), fa <= fb);
            assert_eq!(compare_bits(Opcode::EQUAL, a, b), fa == fb);
            assert_eq!(compare_bits(Opcode::GREATER_OR_EQUAL, a, b), fa >= fb);
            assert_eq!(compare_bits(Opcode::GREATER_THAN, a, b), fa > fb);
            assert!(!compare_bits(Opcode::JUMP, a, b));
        }
    }
}

#[test]
fn operands_are_little_endian() {
    let code = vec![0xFF, 0x78, 0x56, 0x34, 0x12, 0xEE];
    assert_eq!(read_u32_at(&code, 1), 0x12345678);
    assert_eq!(read_u32_at(&code, 2), 0xEE123456);
    assert_eq!(read_u16_at(&code, 1), 0x5678);
    assert_eq!(read_u16_at(&code, 4), 0xEE12);
    let mut written = vec![9];
    push_u32(&mut written, 0x12345678);
    push_u16(&mut written, 0xABCD);
    assert_eq!(written, vec![9, 0x78, 0x56, 0x34, 0x12, 0xCD, 0xAB]);
    for x in [0u32, 1, 255, 256, 65535, 65536, 0x00FF_FFFF, 0x0100_0000, u32::MAX] {
        let mut bytes = vec![];
        push_u32(&mut bytes, x);
        assert_eq!(bytes, x.to_le_bytes().to_vec());
        assert_eq!(read_u32_at(&bytes, 0), x);
    }
}
