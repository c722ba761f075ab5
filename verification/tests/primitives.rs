use cowfile::Primitive;

#[test]
fn test_u8_roundtrip() {
    let mut buf = [0u8; 1];
    42u8.write_le_bytes(&mut buf);
    assert_eq!(<u8 as Primitive>::from_le_bytes(&buf), 42);
    42u8.write_be_bytes(&mut buf);
    assert_eq!(<u8 as Primitive>::from_be_bytes(&buf), 42);
}

#[test]
fn test_i8_roundtrip() {
    let mut buf = [0u8; 1];
    (-7i8).write_le_bytes(&mut buf);
    assert_eq!(<i8 as Primitive>::from_le_bytes(&buf), -7);
}

#[test]
fn test_u16_roundtrip() {
    let mut buf = [0u8; 2];
    0xCAFEu16.write_le_bytes(&mut buf);
    assert_eq!(<u16 as Primitive>::from_le_bytes(&buf), 0xCAFE);
    0xCAFEu16.write_be_bytes(&mut buf);
    assert_eq!(<u16 as Primitive>::from_be_bytes(&buf), 0xCAFE);
}

#[test]
fn test_u32_roundtrip() {
    let mut buf = [0u8; 4];
    0xDEADBEEFu32.write_le_bytes(&mut buf);
    assert_eq!(<u32 as Primitive>::from_le_bytes(&buf), 0xDEADBEEF);
    0xDEADBEEFu32.write_be_bytes(&mut buf);
    assert_eq!(<u32 as Primitive>::from_be_bytes(&buf), 0xDEADBEEF);
}

#[test]
fn test_u64_roundtrip() {
    let mut buf = [0u8; 8];
    0x0123456789ABCDEFu64.write_le_bytes(&mut buf);
    assert_eq!(<u64 as Primitive>::from_le_bytes(&buf), 0x0123456789ABCDEF);
}

#[test]
fn test_i32_roundtrip() {
    let mut buf = [0u8; 4];
    (-123456i32).write_le_bytes(&mut buf);
    assert_eq!(<i32 as Primitive>::from_le_bytes(&buf), -123456);
}

#[test]
fn test_f32_roundtrip() {
    let mut buf = [0u8; 4];
    std::f32::consts::PI.to_bits().write_le_bytes(&mut buf);
    assert_eq!(
        f32::from_bits(<u32 as Primitive>::from_le_bytes(&buf)),
        std::f32::consts::PI
    );
}

#[test]
fn test_f64_roundtrip() {
    let mut buf = [0u8; 8];
    std::f64::consts::E.to_bits().write_le_bytes(&mut buf);
    assert_eq!(
        f64::from_bits(<u64 as Primitive>::from_le_bytes(&buf)),
        std::f64::consts::E
    );
}

#[test]
fn test_endianness_u32() {
    let mut le_buf = [0u8; 4];
    let mut be_buf = [0u8; 4];

    0x01020304u32.write_le_bytes(&mut le_buf);
    0x01020304u32.write_be_bytes(&mut be_buf);

    // LE: least significant byte first.
    assert_eq!(le_buf, [0x04, 0x03, 0x02, 0x01]);
    // BE: most significant byte first.
    assert_eq!(be_buf, [0x01, 0x02, 0x03, 0x04]);
}

#[test]
fn test_endianness_u16() {
    let mut le_buf = [0u8; 2];
    let mut be_buf = [0u8; 2];

    0xAABBu16.write_le_bytes(&mut le_buf);
    0xAABBu16.write_be_bytes(&mut be_buf);

    assert_eq!(le_buf, [0xBB, 0xAA]);
    assert_eq!(be_buf, [0xAA, 0xBB]);
}
