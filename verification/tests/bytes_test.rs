use rustchm::bytebuf::{encint, encint_len, Buf};

#[test]
fn buf_writes_little_endian() {
    let mut b = Buf::new();
    assert!(b.is_empty());
    b.u8(0x01);
    b.u16(0x0302);
    b.u32(0x0706_0504);
    b.i32(-1);
    b.u64(0x0F0E_0D0C_0B0A_0908);
    assert_eq!(b.len(), 1 + 2 + 4 + 4 + 8);
    assert_eq!(
        b.v,
        vec![1, 2, 3, 4, 5, 6, 7, 0xFF, 0xFF, 0xFF, 0xFF, 8, 9, 0x0A, 0x0B, 0x0C, 0x0D, 0x0E, 0x0F]
    );
}

#[test]
fn buf_strings_and_padding() {
    let mut b = Buf::new();
    b.str("ab");
    b.strz("c");
    b.zeros(3);
    b.raw(&[9, 8]);
    assert_eq!(b.v, vec![b'a', b'b', b'c', 0, 0, 0, 0, 9, 8]);
    assert!(!b.is_empty());
}

#[test]
fn buf_guid_layout() {
    let mut b = Buf::new();
    b.guid(0x7FC2_8940, 0x9D31, 0x11D0, &[0x9B, 0x27, 0x00, 0xA0, 0xC9, 0x1E, 0x9C, 0x7C]);
    assert_eq!(
        b.v,
        vec![0x40, 0x89, 0xC2, 0x7F, 0x31, 0x9D, 0xD0, 0x11, 0x9B, 0x27, 0x00, 0xA0, 0xC9, 0x1E, 0x9C, 0x7C]
    );
}

#[test]
fn encint_small_and_large() {
    let mut out = Vec::new();
    encint(&mut out, 0);
    assert_eq!(out, vec![0]);
    let mut out = Vec::new();
    encint(&mut out, 0x7F);
    assert_eq!(out, vec![0x7F]);
    let mut out = Vec::new();
    encint(&mut out, 0x80);
    assert_eq!(out, vec![0x81, 0x00]);
    let mut out = vec![0xAA];
    encint(&mut out, 0x3FFF);
    assert_eq!(out, vec![0xAA, 0xFF, 0x7F]);
    let mut out = Vec::new();
    encint(&mut out, 0x4000);
    assert_eq!(out, vec![0x81, 0x80, 0x00]);
}

#[test]
fn encint_len_matches_encoding() {
    for x in [0u64, 1, 0x7F, 0x80, 0x3FFF, 0x4000, 0x1F_FFFF, 0x20_0000, u64::MAX] {
        let mut out = Vec::new();
        encint(&mut out, x);
        assert_eq!(encint_len(x), out.len());
    }
    assert_eq!(encint_len(u64::MAX), 10);
}
