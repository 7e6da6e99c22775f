use bstool::dol::raw_to_dol;

fn word(buf: &[u8], off: usize) -> u32 {
    u32::from_be_bytes([buf[off], buf[off + 1], buf[off + 2], buf[off + 3]])
}

#[test]
fn dol_header_and_body() {
    let out = raw_to_dol(
        &vec![1, 2, 3, 4],
        &vec![0x8130_0000, 0x8130_1000],
        &vec![0x100, 0x200],
        &vec![0x8130_2000],
        &vec![0x300],
        &vec![0x8140_0000, 0x8150_0000],
        &vec![0x10, 0x20],
        0x8130_0100,
        0x8130_0000,
    );
    assert_eq!(out.len(), 0x104);
    // offsets
    assert_eq!(word(&out, 0x00), 0x100);
    assert_eq!(word(&out, 0x04), 0x1100);
    assert_eq!(word(&out, 0x08), 0);
    assert_eq!(word(&out, 0x1C), 0x2100);
    assert_eq!(word(&out, 0x20), 0);
    // addresses
    assert_eq!(word(&out, 0x48), 0x8130_0000);
    assert_eq!(word(&out, 0x4C), 0x8130_1000);
    assert_eq!(word(&out, 0x50), 0);
    assert_eq!(word(&out, 0x64), 0x8130_2000);
    // sizes
    assert_eq!(word(&out, 0x90), 0x100);
    assert_eq!(word(&out, 0x94), 0x200);
    assert_eq!(word(&out, 0xAC), 0x300);
    // uninitialised data, entry point
    assert_eq!(word(&out, 0xD8), 0x8140_0000);
    assert_eq!(word(&out, 0xDC), 0x0010_0020);
    assert_eq!(word(&out, 0xE0), 0x8130_0100);
    assert!(out[0xE4..0x100].iter().all(|b| *b == 0));
    assert_eq!(&out[0x100..], &[1, 2, 3, 4]);
}

#[test]
fn dol_with_single_bss_region() {
    let out = raw_to_dol(
        &vec![],
        &vec![],
        &vec![],
        &vec![],
        &vec![],
        &vec![0x8140_0000],
        &vec![0x80],
        0,
        0x8130_0000,
    );
    assert_eq!(out.len(), 0x100);
    assert_eq!(word(&out, 0x00), 0);
    assert_eq!(word(&out, 0xD8), 0x8140_0000);
    assert_eq!(word(&out, 0xDC), 0x80);
}
