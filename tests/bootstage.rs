use bstool::bootstage::{
    decode, decode_sections, encode, normalize_bss, verify_unk_data, BSImageBSS,
    BootStageError, STUB_DEFAULT_ADDR, STUB_DEFAULT_SIZE,
};
use bstool::bytes::{
    find_u32_from_buf, find_u32_from_buf_range, read_u32_from_buf, write_u32_from_buf,
};

fn put(buf: &mut Vec<u8>, off: usize, v: u32) {
    buf[off..off + 4].copy_from_slice(&v.to_be_bytes());
}

fn word(buf: &[u8], off: usize) -> u32 {
    u32::from_be_bytes([buf[off], buf[off + 1], buf[off + 2], buf[off + 3]])
}

/// A payload with 8 leading zero bytes, the descriptor table, the given
/// uninitialised-data table and 16 trailing zero bytes.
fn payload(bss: [(u32, u32); 3]) -> Vec<u8> {
    let mut p = vec![0u8; 8 + 120 + 24 + 16];
    for i in 0..10usize {
        let addr = if i == 0 { 0x8133_0000 } else { 0x8100_0000 + (i as u32) * 0x1000 };
        put(&mut p, 8 + 12 * i, addr);
        put(&mut p, 8 + 12 * i + 8, 0x100 + i as u32);
    }
    for (k, (a, s)) in bss.iter().enumerate() {
        put(&mut p, 128 + 8 * k, *a);
        put(&mut p, 128 + 8 * k + 4, *s);
    }
    p
}

const LEAD_WORD: u32 = 0x8135_0000;

/// A container: header, 0x3FC bytes of stage one, the stage-two entry
/// point at 0x4FC, an optional lead-in, then the payload.
fn container(lead: bool, p: &[u8]) -> Vec<u8> {
    let mut f = vec![0u8; 0x100];
    let pad = if lead { 0x20 } else { 0 };
    put(&mut f, 0x00, 0x100);
    put(&mut f, 0x1C, 0x500);
    put(&mut f, 0x48, 0x8120_0000);
    put(&mut f, 0x64, 0x8133_0000 - pad);
    put(&mut f, 0x90, 0x400);
    put(&mut f, 0xAC, p.len() as u32 + 4 + pad);
    put(&mut f, 0xD8, 0x8134_0000);
    put(&mut f, 0xDC, 0x0001_0000);
    put(&mut f, 0xE0, 0x8120_0100);
    f.extend(std::iter::repeat(0xABu8).take(0x3FC));
    f.extend_from_slice(&0x8133_0100u32.to_be_bytes());
    if lead {
        let mut l = vec![0x11u8; 0x20];
        put(&mut l, 0, LEAD_WORD);
        put(&mut l, 8, 0);
        f.extend_from_slice(&l);
    }
    f.extend_from_slice(p);
    f
}

const UNSORTED: [(u32, u32); 3] = [(0x8130_0000, 0x40), (0x8110_0000, 0x10), (0x8120_0000, 0x80)];
const NORMALISED: [(u32, u32); 3] =
    [(0x8110_0000, 0x0023_0000), (0x8120_0000, 0x80), (0x8130_0000, 0x40)];

#[test]
fn decode_reads_header_and_tables() {
    let f = container(false, &payload(UNSORTED));
    let img = decode(&f).unwrap();
    assert_eq!(img.bs1_addr, 0x8120_0000);
    assert_eq!(img.bs1_len, 0x3FC);
    assert_eq!(img.bs1_data, vec![0xABu8; 0x3FC]);
    assert_eq!(img.bs2_addr, 0x8133_0000);
    assert_eq!(img.bs2_len, 168 + 4);
    assert_eq!(img.bs2_data.len(), 168);
    assert_eq!(img.stub_addr, 0x8134_0000);
    assert_eq!(img.stub_len, 0x0001_0000);
    assert_eq!(img.bs1_entry, 0x8120_0100);
    assert_eq!(img.bs2_entry, 0x8133_0100);
    assert!(img.unk_stuff.is_none());
    assert_eq!(img.text_addr, vec![0x8133_0000, 0x8100_3000]);
    assert_eq!(img.text_len, vec![0x100, 0x103]);
    assert_eq!(
        img.data_addr,
        vec![
            0x8100_1000, 0x8100_2000, 0x8100_4000, 0x8100_5000, 0x8100_6000, 0x8100_7000,
            0x8100_8000, 0x8100_9000
        ]
    );
    assert_eq!(img.data_len, vec![0x101, 0x102, 0x104, 0x105, 0x106, 0x107, 0x108, 0x109]);
}

#[test]
fn decode_sorts_and_corrects_bss_and_rewrites_payload() {
    let f = container(false, &payload(UNSORTED));
    let img = decode(&f).unwrap();
    assert_eq!(img.bss_addr, vec![0x8110_0000, 0x8120_0000, 0x8130_0000]);
    assert_eq!(img.bss_len, vec![0x0023_0000, 0x80, 0x40]);
    assert_eq!(img.bs2_data, payload(NORMALISED));
}

#[test]
fn bss_order_is_ascending_for_every_permutation() {
    let e = [(0x8130_0000u32, 0x40u32), (0x8110_0000, 0x10), (0x8120_0000, 0x80)];
    let perms = [[0, 1, 2], [0, 2, 1], [1, 0, 2], [1, 2, 0], [2, 0, 1], [2, 1, 0]];
    for perm in perms.iter() {
        let bss = [e[perm[0]], e[perm[1]], e[perm[2]]];
        let img = decode(&container(false, &payload(bss))).unwrap();
        assert_eq!(img.bss_addr, vec![0x8110_0000, 0x8120_0000, 0x8130_0000]);
        assert_eq!(img.bss_len, vec![0x0023_0000, 0x80, 0x40]);
    }
}

#[test]
fn lead_in_is_detected_and_excluded() {
    let f = container(true, &payload(NORMALISED));
    let img = decode(&f).unwrap();
    let lead = img.unk_stuff.clone().unwrap();
    assert_eq!(lead.len(), 0x20);
    assert_eq!(word(&lead, 0), LEAD_WORD);
    assert_eq!(img.bs2_addr, 0x8133_0000);
    assert_eq!(img.bs2_len, 168 + 4);
    assert_eq!(img.bs2_data, payload(NORMALISED));
}

#[test]
fn no_lead_in_leaves_stage_two_as_in_header() {
    let f = container(false, &payload(NORMALISED));
    let img = decode(&f).unwrap();
    assert!(img.unk_stuff.is_none());
    assert_eq!(img.bs2_addr, word(&f, 0x64));
    assert_eq!(img.bs2_len, word(&f, 0xAC));
}

#[test]
fn probe_in_range_but_second_word_nonzero_is_no_lead_in() {
    let p = payload(NORMALISED);
    // first probe word in range, the one 8 bytes later not zero
    let mut q = vec![0u8; 12];
    q.extend_from_slice(&p[8..]);
    put(&mut q, 0, 0x8140_0000);
    put(&mut q, 8, 1);
    let f = container(false, &q);
    let img = decode(&f).unwrap();
    assert!(img.unk_stuff.is_none());
    assert_eq!(img.bs2_addr, 0x8133_0000);
}

#[test]
fn round_trip_reproduces_image() {
    let f = container(true, &payload(NORMALISED));
    let img = decode(&f).unwrap();
    let bytes = encode(&img);
    assert_eq!(bytes, f);
    let again = decode(&bytes).unwrap();
    assert_eq!(again.text_addr, img.text_addr);
    assert_eq!(again.text_len, img.text_len);
    assert_eq!(again.data_addr, img.data_addr);
    assert_eq!(again.data_len, img.data_len);
    assert_eq!(again.bss_addr, img.bss_addr);
    assert_eq!(again.bss_len, img.bss_len);
    assert_eq!(again.bs1_entry, img.bs1_entry);
    assert_eq!(again.bs2_entry, img.bs2_entry);
    assert_eq!(again.bs1_addr, img.bs1_addr);
    assert_eq!(again.bs2_addr, img.bs2_addr);
    assert_eq!(again.unk_stuff, img.unk_stuff);
}

#[test]
fn encode_without_lead_in_writes_header_as_is() {
    let mut img = decode(&container(false, &payload(NORMALISED))).unwrap();
    img.bs2_addr = 0x8133_0000;
    img.bs2_len = 0x1000;
    let bytes = encode(&img);
    assert_eq!(word(&bytes, 0x00), 0x100);
    assert_eq!(word(&bytes, 0x1C), 0x500);
    assert_eq!(word(&bytes, 0x64), 0x8133_0000);
    assert_eq!(word(&bytes, 0x90), 0x400);
    assert_eq!(word(&bytes, 0xAC), 0x1000);
    assert_eq!(word(&bytes, 0x4FC), 0x8133_0100);
    assert_eq!(bytes.len(), 0x500 + img.bs2_data.len());
    assert!(bytes[0x04..0x1C].iter().all(|b| *b == 0));
    assert!(bytes[0xE4..0x100].iter().all(|b| *b == 0));
}

#[test]
fn encode_widens_stage_two_for_a_valid_lead_in() {
    let img = decode(&container(true, &payload(NORMALISED))).unwrap();
    let bytes = encode(&img);
    assert_eq!(word(&bytes, 0x64), 0x8133_0000 - 0x20);
    assert_eq!(word(&bytes, 0xAC), 168 + 4 + 0x20);
    assert_eq!(word(&bytes, 0x500), LEAD_WORD);
}

#[test]
fn encode_drops_an_invalid_lead_in() {
    let mut img = decode(&container(true, &payload(NORMALISED))).unwrap();
    let mut lead = img.unk_stuff.clone().unwrap();
    lead[1] = 0;
    img.unk_stuff = Some(lead);
    assert!(!verify_unk_data(&img));
    let bytes = encode(&img);
    assert_eq!(word(&bytes, 0x64), 0x8133_0000);
    assert_eq!(bytes.len(), 0x500 + img.bs2_data.len());
}

#[test]
fn verify_unk_data_cases() {
    let mut img = bstool::bootstage::default();
    assert!(!verify_unk_data(&img));
    img.unk_stuff = Some(vec![1u8; 0x1F]);
    assert!(!verify_unk_data(&img));
    img.unk_stuff = Some(vec![1u8; 0x20]);
    assert!(verify_unk_data(&img));
    let mut l = vec![1u8; 0x20];
    l[0] = 0;
    img.unk_stuff = Some(l);
    assert!(!verify_unk_data(&img));
}

#[test]
fn missing_marker_for_any_length() {
    for len in 0..64usize {
        let mut p: Vec<u8> = (0..len).map(|i| (i % 251) as u8).collect();
        let r = decode_sections(&mut p);
        assert_eq!(r.err(), Some(BootStageError::MissingMarker));
    }
    let mut p = vec![0x81u8, 0x32, 0xFF, 0xFF, 0x81, 0x6A, 0x00, 0x01, 0, 0];
    assert_eq!(decode_sections(&mut p).err(), Some(BootStageError::MissingMarker));
}

#[test]
fn missing_bss_table_is_missing_marker() {
    let mut p = payload(NORMALISED);
    for b in p[128..].iter_mut() {
        *b = 0;
    }
    let before = p.clone();
    assert_eq!(decode_sections(&mut p).err(), Some(BootStageError::MissingMarker));
    assert_eq!(p, before);
}

#[test]
fn short_descriptor_table_is_truncated() {
    let p = payload(NORMALISED);
    let mut short = p[..8 + 100].to_vec();
    assert_eq!(decode_sections(&mut short).err(), Some(BootStageError::Truncated));
}

#[test]
fn short_file_is_truncated() {
    let f = container(false, &payload(NORMALISED));
    assert_eq!(decode(&f[..0x4FF].to_vec()).err(), Some(BootStageError::Truncated));
    assert_eq!(decode(&f[..f.len() - 1].to_vec()).err(), Some(BootStageError::Truncated));
    let mut g = f.clone();
    put(&mut g, 0x90, 3);
    assert_eq!(decode(&g).err(), Some(BootStageError::Truncated));
}

#[test]
fn decode_without_marker_is_missing_marker() {
    let f = container(false, &vec![0u8; 64]);
    assert_eq!(decode(&f).err(), Some(BootStageError::MissingMarker));
}

#[test]
fn bss_size_correction() {
    let mut bss = vec![
        BSImageBSS { addr: 0x8110_0000, size: 0x10 },
        BSImageBSS { addr: 0x8120_0000, size: 0x80 },
        BSImageBSS { addr: 0x8130_0000, size: 0x40 },
    ];
    normalize_bss(&mut bss, 0x8110_0100);
    assert_eq!(bss[0], BSImageBSS { addr: 0x8110_0000, size: 0x100 });
    assert_eq!(bss[1], BSImageBSS { addr: 0x8120_0000, size: 0x80 });
    assert_eq!(bss[2], BSImageBSS { addr: 0x8130_0000, size: 0x40 });
}

#[test]
fn bss_size_kept_when_larger_than_first_code_address() {
    let mut bss = vec![
        BSImageBSS { addr: 0x20, size: 0x10 },
        BSImageBSS { addr: 0x10, size: 0x500 },
        BSImageBSS { addr: 0x30, size: 0x1 },
    ];
    normalize_bss(&mut bss, 0x100);
    assert_eq!(bss[0], BSImageBSS { addr: 0x10, size: 0x500 });
    assert_eq!(bss[1], BSImageBSS { addr: 0x20, size: 0x10 });
    assert_eq!(bss[2], BSImageBSS { addr: 0x30, size: 0x1 });
}

#[test]
fn sort_keeps_order_of_equal_addresses() {
    let mut bss = vec![
        BSImageBSS { addr: 0x20, size: 0x2000 },
        BSImageBSS { addr: 0x10, size: 0x1000 },
        BSImageBSS { addr: 0x20, size: 0x3000 },
    ];
    normalize_bss(&mut bss, 0);
    assert_eq!(bss[0], BSImageBSS { addr: 0x10, size: 0x1000 });
    assert_eq!(bss[1], BSImageBSS { addr: 0x20, size: 0x2000 });
    assert_eq!(bss[2], BSImageBSS { addr: 0x20, size: 0x3000 });
}

#[test]
fn default_image() {
    let img = bstool::bootstage::default();
    assert_eq!(img.stub_addr, STUB_DEFAULT_ADDR);
    assert_eq!(img.stub_len, STUB_DEFAULT_SIZE);
    assert_eq!(img.stub_addr, 0x8134_0000);
    assert_eq!(img.stub_len, 0x0001_0000);
    assert_eq!(img.text_addr.len(), 2);
    assert_eq!(img.data_addr.len(), 8);
    assert_eq!(img.bss_addr.len(), 3);
    assert!(img.unk_stuff.is_none());
}

#[test]
fn scanner_finds_first_aligned_match() {
    let buf = vec![0, 0, 0, 5, 0, 0, 0, 7, 0, 0, 0, 5, 0, 0];
    assert_eq!(find_u32_from_buf(&buf, 5, 0), Some(0));
    assert_eq!(find_u32_from_buf(&buf, 5, 4), Some(8));
    assert_eq!(find_u32_from_buf(&buf, 5, 12), None);
    assert_eq!(find_u32_from_buf(&buf, 7, 1), None);
    assert_eq!(find_u32_from_buf_range(&buf, 6, 9, 0), Some(4));
    assert_eq!(find_u32_from_buf_range(&buf, 8, 9, 0), None);
    assert_eq!(find_u32_from_buf(&buf, 5, 100), None);
}

#[test]
fn word_read_and_write() {
    let mut buf = vec![0u8; 8];
    write_u32_from_buf(&mut buf, 2, 0x1234_5678);
    assert_eq!(buf, vec![0, 0, 0x12, 0x34, 0x56, 0x78, 0, 0]);
    assert_eq!(read_u32_from_buf(&buf, 2), 0x1234_5678);
}

#[test]
fn round_trip_with_short_stage_one() {
    let mut img = decode(&container(true, &payload(NORMALISED))).unwrap();
    img.bs1_data = vec![0x5Au8; 0x10];
    img.bs1_len = 0x10;
    img.bs2_data.resize(0x400, 0);
    img.bs2_len = 0x404;
    let bytes = encode(&img);
    assert_eq!(word(&bytes, 0x1C), 0x114);
    let again = decode(&bytes).unwrap();
    assert_eq!(again.bs1_len, 0x10);
    assert_eq!(again.bs1_data, img.bs1_data);
    assert_eq!(again.bs1_addr, img.bs1_addr);
    assert_eq!(again.bs2_addr, img.bs2_addr);
    assert_eq!(again.bs2_len, img.bs2_len);
    assert_eq!(again.bs2_data, img.bs2_data);
    assert_eq!(again.unk_stuff, img.unk_stuff);
    assert_eq!(again.text_addr, img.text_addr);
    assert_eq!(again.data_len, img.data_len);
    assert_eq!(again.bss_addr, img.bss_addr);
    assert_eq!(again.bss_len, img.bss_len);
    assert_eq!(again.bs1_entry, img.bs1_entry);
    assert_eq!(again.bs2_entry, word(&bytes, 0x4FC));
}
