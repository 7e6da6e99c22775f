use bstool::bootstage::{decode, encode};
use bstool::convert::{bs_to_dtk, elf_to_bs};
use bstool::elf::ElfError;

fn put(buf: &mut Vec<u8>, off: usize, v: u32) {
    buf[off..off + 4].copy_from_slice(&v.to_be_bytes());
}

fn word(buf: &[u8], off: usize) -> u32 {
    u32::from_be_bytes([buf[off], buf[off + 1], buf[off + 2], buf[off + 3]])
}

fn template() -> Vec<u8> {
    let mut p = vec![0u8; 168];
    for i in 0..10usize {
        let addr = if i == 0 { 0x8133_0000 } else { 0x8133_0000 + (i as u32) * 0x1000 };
        put(&mut p, 8 + 12 * i, addr);
        put(&mut p, 8 + 12 * i + 8, 0x100 + i as u32);
    }
    put(&mut p, 128, 0x8136_0000);
    put(&mut p, 132, 0x40);
    put(&mut p, 136, 0x8137_0000);
    put(&mut p, 140, 0x80);
    put(&mut p, 144, 0x8138_0000);
    put(&mut p, 148, 0x20);
    let mut f = vec![0u8; 0x100];
    put(&mut f, 0x00, 0x100);
    put(&mut f, 0x1C, 0x500);
    put(&mut f, 0x48, 0x8120_0000);
    put(&mut f, 0x64, 0x8133_0000);
    put(&mut f, 0x90, 0x400);
    put(&mut f, 0xAC, p.len() as u32 + 4);
    put(&mut f, 0xD8, 0x8134_0000);
    put(&mut f, 0xDC, 0x0001_0000);
    put(&mut f, 0xE0, 0x8120_0100);
    f.extend(std::iter::repeat(0xABu8).take(0x3FC));
    f.extend_from_slice(&0x8133_0100u32.to_be_bytes());
    f.extend_from_slice(&p);
    f
}

fn small_elf(vaddr: u32) -> Vec<u8> {
    let mut f = vec![0u8; 0x88];
    f[0..7].copy_from_slice(&[0x7F, b'E', b'L', b'F', 1, 2, 1]);
    f[16..18].copy_from_slice(&2u16.to_be_bytes());
    f[18..20].copy_from_slice(&20u16.to_be_bytes());
    put(&mut f, 20, 1);
    put(&mut f, 24, 0x8133_0040);
    put(&mut f, 28, 52);
    f[44..46].copy_from_slice(&1u16.to_be_bytes());
    put(&mut f, 52, 1);
    put(&mut f, 56, 0x80);
    put(&mut f, 60, vaddr);
    put(&mut f, 68, 8);
    put(&mut f, 72, 8);
    f[0x80..0x88].copy_from_slice(&[1, 2, 3, 4, 5, 6, 7, 8]);
    f
}

#[test]
fn dtk_conversion_uses_stage_two() {
    let img = decode(&template()).unwrap();
    let out = bs_to_dtk(&img);
    assert_eq!(out.len(), 0x100 + 168);
    assert_eq!(word(&out, 0x00), 0x100);
    assert_eq!(word(&out, 0x04), 0x3100);
    assert_eq!(word(&out, 0x48), 0x8133_0000);
    assert_eq!(word(&out, 0x4C), 0x8133_3000);
    assert_eq!(word(&out, 0x64), 0x8133_1000);
    assert_eq!(word(&out, 0x90), 0x100);
    assert_eq!(word(&out, 0xD8), 0x8136_0000);
    assert_eq!(word(&out, 0xDC), 0x8138_0020 - 0x8136_0000);
    assert_eq!(word(&out, 0xE0), 0x8133_0100);
    assert_eq!(&out[0x100..], &img.bs2_data[..]);
}

#[test]
fn convert_defaults_to_template_layout() {
    let base = decode(&template()).unwrap();
    let out = elf_to_bs(base.clone(), &small_elf(0x8133_0010), None, None).unwrap();
    assert_eq!(out.bs2_addr, 0x8133_0000);
    assert_eq!(out.bs2_len, 172);
    assert_eq!(out.bs2_entry, 0x8133_0040);
    assert_eq!(out.bs2_data.len(), 172);
    assert_eq!(&out.bs2_data[0x10..0x18], &[1, 2, 3, 4, 5, 6, 7, 8]);
    assert_eq!(out.bs1_data, base.bs1_data);
    assert_eq!(out.bs1_entry, base.bs1_entry);
    let bytes = encode(&out);
    assert_eq!(word(&bytes, 0xAC), 172);
    assert_eq!(word(&bytes, 0x4FC), 0x8133_0040);
}

#[test]
fn convert_overrides_size_and_address() {
    let base = decode(&template()).unwrap();
    let out = elf_to_bs(base, &small_elf(0x8140_0000), Some(0x40), Some(0x8140_0000)).unwrap();
    assert_eq!(out.bs2_addr, 0x8140_0000);
    assert_eq!(out.bs2_len, 0x40);
    assert_eq!(out.bs2_data.len(), 0x40);
    assert_eq!(&out.bs2_data[0..8], &[1, 2, 3, 4, 5, 6, 7, 8]);
}

#[test]
fn convert_reports_elf_errors() {
    let base = decode(&template()).unwrap();
    let mut elf = small_elf(0x8133_0010);
    elf[19] = 3;
    assert_eq!(
        elf_to_bs(base, &elf, None, None).err(),
        Some(ElfError::UnsupportedMachine)
    );
}
