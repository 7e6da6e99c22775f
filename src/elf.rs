//! Big-endian 32-bit ELF executables: header checks and flattening of the
//! loadable segments into one contiguous memory image.
use vstd::prelude::*;
use crate::bytes::{half_at, read_u16_from_buf, read_u32_from_buf, read_u8s_from_buf, splice, word_at, zeros};

verus! {

/// Size of the ELF file header.
pub const ELF_HEADER_SIZE: usize = 52;
/// Size of one program header.
pub const PHDR_SIZE: usize = 32;
/// `e_type` of an executable.
pub const ET_EXEC: u16 = 2;
/// `e_machine` of PowerPC.
pub const EM_PPC: u16 = 20;

/// Why an ELF file could not be flattened.
#[derive(Clone, Copy, Debug, PartialEq, Eq, Structural)]
pub enum ElfError {
    /// The file ends before its header or program header table does.
    Truncated,
    /// Wrong identification bytes, version or file type.
    InvalidHeader,
    /// The machine tag is not PowerPC.
    UnsupportedMachine,
    /// No program headers, or a segment that does not fit the image.
    MalformedSegmentTable,
}

#[derive(Clone, Debug)]
pub struct Elf32Hdr {
    pub e_ident: Vec<u8>,
    pub e_type: u16,
    pub e_machine: u16,
    pub e_version: u32,
    pub e_entry: u32,
    pub e_phoff: u32,
    pub e_shoff: u32,
    pub e_flags: u32,
    pub e_ehsize: u16,
    pub e_phentsize: u16,
    pub e_phnum: u16,
    pub e_shentsize: u16,
    pub e_shnum: u16,
    pub e_shstrndx: u16,
}

#[derive(Clone, Copy, Debug, PartialEq, Eq, Structural)]
pub struct Elf32Phdr {
    pub p_type: u32,
    pub p_offset: u32,
    pub p_vaddr: u32,
    pub p_paddr: u32,
    pub p_filesz: u32,
    pub p_memsz: u32,
    pub p_flags: u32,
    pub p_align: u32,
}

/// A flattened memory image.
#[derive(Clone, Debug)]
pub struct RawELF {
    pub data: Vec<u8>,
    pub base_addr: u32,
    pub entry_point: u32,
}

/// The identification bytes of a big-endian 32-bit ELF file of version 1.
pub open spec fn ident_ok(id: Seq<u8>) -> bool {
    &&& id.len() >= 16
    &&& id[0] == 0x7F && id[1] == 0x45 && id[2] == 0x4C && id[3] == 0x46
    &&& id[4] == 1
    &&& id[5] == 2
    &&& id[6] == 1
}

/// The outcome of checking the header fields, in the order they are checked.
pub open spec fn check_header_spec(
    ident: Seq<u8>,
    e_type: u16,
    e_machine: u16,
    e_version: u32,
    e_phoff: u32,
    e_phnum: u16,
) -> Result<(), ElfError> {
    if !ident_ok(ident) || e_version != 1 || e_type != ET_EXEC {
        Err(ElfError::InvalidHeader)
    } else if e_machine != EM_PPC {
        Err(ElfError::UnsupportedMachine)
    } else if e_phnum == 0 || e_phoff == 0 {
        Err(ElfError::MalformedSegmentTable)
    } else {
        Ok(())
    }
}

/// The program header stored at `off`.
pub open spec fn phdr_at(f: Seq<u8>, off: int) -> Elf32Phdr {
    Elf32Phdr {
        p_type: word_at(f, off),
        p_offset: word_at(f, off + 4),
        p_vaddr: word_at(f, off + 8),
        p_paddr: word_at(f, off + 12),
        p_filesz: word_at(f, off + 16),
        p_memsz: word_at(f, off + 20),
        p_flags: word_at(f, off + 24),
        p_align: word_at(f, off + 28),
    }
}

/// The `n` program headers of the table at `off`.
pub open spec fn phdrs_at(f: Seq<u8>, off: int, n: nat) -> Seq<Elf32Phdr> {
    Seq::new(n, |i: int| phdr_at(f, off + PHDR_SIZE * i))
}

/// A segment that is copied into the image.
pub open spec fn loadable(h: Elf32Phdr) -> bool {
    h.p_memsz != 0 && h.p_vaddr != 0 && h.p_filesz != 0 && h.p_filesz <= h.p_memsz
}

/// `n` bytes of `f` from `off` on; bytes past the end of `f` read as zero.
pub open spec fn file_bytes(f: Seq<u8>, off: int, n: nat) -> Seq<u8> {
    Seq::new(n, |i: int| if off + i < f.len() { f[off + i] } else { 0u8 })
}

/// Image `d` after segment `h` is copied into it, for an image based at `base`.
pub open spec fn copy_segment_spec(f: Seq<u8>, h: Elf32Phdr, d: Seq<u8>, base: u32) -> Result<
    Seq<u8>,
    ElfError,
> {
    if !loadable(h) {
        Ok(d)
    } else if h.p_vaddr < base || h.p_vaddr - base + h.p_memsz > d.len() {
        Err(ElfError::MalformedSegmentTable)
    } else {
        Ok(splice(d, h.p_vaddr - base, file_bytes(f, h.p_offset as int, h.p_memsz as nat)))
    }
}

/// A zeroed image of `size` bytes with the segments `ph` copied in, in order.
pub open spec fn load_segments(f: Seq<u8>, ph: Seq<Elf32Phdr>, size: nat, base: u32) -> Result<
    Seq<u8>,
    ElfError,
>
    decreases ph.len(),
{
    if ph.len() == 0 {
        Ok(zeros(size))
    } else {
        match load_segments(f, ph.drop_last(), size, base) {
            Err(e) => Err(e),
            Ok(d) => copy_segment_spec(f, ph.last(), d, base),
        }
    }
}

/// What flattening ELF file `f` into an image of `size` bytes at `base` yields:
/// the image, the base address and the entry point.
pub open spec fn elf_to_raw_spec(f: Seq<u8>, size: nat, base: u32) -> Result<
    (Seq<u8>, u32, u32),
    ElfError,
> {
    if f.len() < ELF_HEADER_SIZE {
        Err(ElfError::Truncated)
    } else {
        let phoff = word_at(f, 28);
        let phnum = half_at(f, 44);
        match check_header_spec(
            f.subrange(0, 16),
            half_at(f, 16),
            half_at(f, 18),
            word_at(f, 20),
            phoff,
            phnum,
        ) {
            Err(e) => Err(e),
            Ok(_) => if phoff + PHDR_SIZE * phnum > f.len() {
                Err(ElfError::Truncated)
            } else {
                match load_segments(f, phdrs_at(f, phoff as int, phnum as nat), size, base) {
                    Err(e) => Err(e),
                    Ok(d) => Ok((d, base, word_at(f, 24))),
                }
            },
        }
    }
}

/// Reads the ELF file header.
fn read_elf32_hdr(file: &Vec<u8>) -> (h: Elf32Hdr)
    requires
        file.len() >= ELF_HEADER_SIZE,
    ensures
        h.e_ident@ == file@.subrange(0, 16),
        h.e_type == half_at(file@, 16),
        h.e_machine == half_at(file@, 18),
        h.e_version == word_at(file@, 20),
        h.e_entry == word_at(file@, 24),
        h.e_phoff == word_at(file@, 28),
        h.e_shoff == word_at(file@, 32),
        h.e_flags == word_at(file@, 36),
        h.e_ehsize == half_at(file@, 40),
        h.e_phentsize == half_at(file@, 42),
        h.e_phnum == half_at(file@, 44),
        h.e_shentsize == half_at(file@, 46),
        h.e_shnum == half_at(file@, 48),
        h.e_shstrndx == half_at(file@, 50),
{
    Elf32Hdr {
        e_ident: read_u8s_from_buf(file, 16, 0),
        e_type: read_u16_from_buf(file, 16),
        e_machine: read_u16_from_buf(file, 18),
        e_version: read_u32_from_buf(file, 20),
        e_entry: read_u32_from_buf(file, 24),
        e_phoff: read_u32_from_buf(file, 28),
        e_shoff: read_u32_from_buf(file, 32),
        e_flags: read_u32_from_buf(file, 36),
        e_ehsize: read_u16_from_buf(file, 40),
        e_phentsize: read_u16_from_buf(file, 42),
        e_phnum: read_u16_from_buf(file, 44),
        e_shentsize: read_u16_from_buf(file, 46),
        e_shnum: read_u16_from_buf(file, 48),
        e_shstrndx: read_u16_from_buf(file, 50),
    }
}

/// Reads the program header at `offset`.
fn read_elf32_prg_hdr(file: &Vec<u8>, offset: usize) -> (h: Elf32Phdr)
    requires
        offset + PHDR_SIZE <= file.len(),
    ensures
        h == phdr_at(file@, offset as int),
{
    Elf32Phdr {
        p_type: read_u32_from_buf(file, offset),
        p_offset: read_u32_from_buf(file, offset + 4),
        p_vaddr: read_u32_from_buf(file, offset + 8),
        p_paddr: read_u32_from_buf(file, offset + 12),
        p_filesz: read_u32_from_buf(file, offset + 16),
        p_memsz: read_u32_from_buf(file, offset + 20),
        p_flags: read_u32_from_buf(file, offset + 24),
        p_align: read_u32_from_buf(file, offset + 28),
    }
}

/// Checks that the header describes a big-endian PowerPC executable with a
/// program header table.
pub fn verify_elf32_hdr(header: &Elf32Hdr) -> (r: Result<(), ElfError>)
    ensures
        r == check_header_spec(
            header.e_ident@,
            header.e_type,
            header.e_machine,
            header.e_version,
            header.e_phoff,
            header.e_phnum,
        ),
{
    let id = &header.e_ident;
    if id.len() < 16 || id[0] != 0x7F || id[1] != 0x45 || id[2] != 0x4C || id[3] != 0x46
        || id[4] != 1 || id[5] != 2 || id[6] != 1 || header.e_version != 1 || header.e_type
        != ET_EXEC {
        return Err(ElfError::InvalidHeader);
    }
    if header.e_machine != EM_PPC {
        return Err(ElfError::UnsupportedMachine);
    }
    if header.e_phnum == 0 || header.e_phoff == 0 {
        return Err(ElfError::MalformedSegmentTable);
    }
    Ok(())
}

/// Copies segment `h` of `file` into `data`, for an image based at `base_addr`.
fn copy_segment(file: &Vec<u8>, h: Elf32Phdr, data: &mut Vec<u8>, base_addr: u32) -> (r: Result<
    (),
    ElfError,
>)
    ensures
        r matches Ok(_) ==> copy_segment_spec(file@, h, old(data)@, base_addr) == Ok::<
            Seq<u8>,
            ElfError,
        >(final(data)@),
        r matches Err(e) ==> copy_segment_spec(file@, h, old(data)@, base_addr) == Err::<
            Seq<u8>,
            ElfError,
        >(e),
{
    if !(h.p_memsz != 0 && h.p_vaddr != 0 && h.p_filesz != 0 && h.p_filesz <= h.p_memsz) {
        return Ok(());
    }
    if h.p_vaddr < base_addr || ((h.p_vaddr - base_addr) as u64 + h.p_memsz as u64)
        > data.len() as u64 {
        return Err(ElfError::MalformedSegmentTable);
    }
    let dst = (h.p_vaddr - base_addr) as usize;
    let size = h.p_memsz as usize;
    let ghost d0 = data@;
    let mut i: usize = 0;
    while i < size
        invariant
            i <= size,
            size == h.p_memsz,
            dst + size <= d0.len(),
            data.len() == d0.len(),
            data@ == splice(d0, dst as int, file_bytes(file@, h.p_offset as int, i as nat)),
        decreases size - i,
    {
        let src = h.p_offset as u64 + i as u64;
        let b: u8 = if src < file.len() as u64 {
            file[src as usize]
        } else {
            0
        };
        data.set(dst + i, b);
        i += 1;
        assert(data@ =~= splice(d0, dst as int, file_bytes(file@, h.p_offset as int, i as nat)));
    }
    Ok(())
}

/// Flattens the loadable segments of ELF file `file` into a zeroed image of
/// `image_size` bytes based at `base_addr`.
pub fn elf_to_raw(file: &Vec<u8>, image_size: usize, base_addr: u32) -> (r: Result<
    RawELF,
    ElfError,
>)
    ensures
        r matches Ok(raw) ==> elf_to_raw_spec(file@, image_size as nat, base_addr) == Ok::<
            (Seq<u8>, u32, u32),
            ElfError,
        >((raw.data@, raw.base_addr, raw.entry_point)),
        r matches Err(e) ==> elf_to_raw_spec(file@, image_size as nat, base_addr) == Err::<
            (Seq<u8>, u32, u32),
            ElfError,
        >(e),
{
    if file.len() < ELF_HEADER_SIZE {
        return Err(ElfError::Truncated);
    }
    let elf_header = read_elf32_hdr(file);
    match verify_elf32_hdr(&elf_header) {
        Ok(()) => {},
        Err(e) => return Err(e),
    }
    let phoff = elf_header.e_phoff as usize;
    let phnum = elf_header.e_phnum as usize;
    if phoff > file.len() || (file.len() - phoff) / PHDR_SIZE < phnum {
        return Err(ElfError::Truncated);
    }
    let ghost ph = phdrs_at(file@, phoff as int, phnum as nat);
    let mut elf_prg_hdr: Vec<Elf32Phdr> = Vec::new();
    let mut i: usize = 0;
    while i < phnum
        invariant
            i <= phnum,
            phoff + PHDR_SIZE * phnum <= file.len(),
            ph == phdrs_at(file@, phoff as int, phnum as nat),
            elf_prg_hdr@ == ph.subrange(0, i as int),
        decreases phnum - i,
    {
        elf_prg_hdr.push(read_elf32_prg_hdr(file, phoff + PHDR_SIZE * i));
        i += 1;
        assert(elf_prg_hdr@ =~= ph.subrange(0, i as int));
    }
    let mut raw_image = raw_elf_default(image_size);
    let mut j: usize = 0;
    assert(ph.subrange(0, 0) =~= Seq::<Elf32Phdr>::empty());
    while j < phnum
        invariant
            j <= phnum,
            ph == phdrs_at(file@, phoff as int, phnum as nat),
            file.len() >= ELF_HEADER_SIZE,
            phoff + PHDR_SIZE * phnum <= file.len(),
            phoff == word_at(file@, 28),
            phnum == half_at(file@, 44),
            check_header_spec(
                file@.subrange(0, 16),
                half_at(file@, 16),
                half_at(file@, 18),
                word_at(file@, 20),
                phoff as u32,
                phnum as u16,
            ) == Ok::<(), ElfError>(()),
            elf_prg_hdr@ == ph.subrange(0, phnum as int),
            load_segments(file@, ph.subrange(0, j as int), image_size as nat, base_addr) == Ok::<
                Seq<u8>,
                ElfError,
            >(raw_image.data@),
        decreases phnum - j,
    {
        let h = elf_prg_hdr[j];
        proof {
            let next = ph.subrange(0, j + 1);
            assert(next.drop_last() =~= ph.subrange(0, j as int));
            assert(next.last() == h);
        }
        match copy_segment(file, h, &mut raw_image.data, base_addr) {
            Ok(()) => {},
            Err(e) => {
                proof {
                    let next = ph.subrange(0, j + 1);
                    assert(next.drop_last() =~= ph.subrange(0, j as int));
                    assert(load_segments(file@, next, image_size as nat, base_addr) == Err::<
                        Seq<u8>,
                        ElfError,
                    >(e));
                    lemma_load_error_sticks(file@, ph, (j + 1) as nat, image_size as nat, base_addr);
                    assert(load_segments(file@, ph, image_size as nat, base_addr) == Err::<
                        Seq<u8>,
                        ElfError,
                    >(e));
                }
                return Err(e);
            },
        }
        j += 1;
    }
    assert(ph.subrange(0, phnum as int) =~= ph);
    raw_image.base_addr = base_addr;
    raw_image.entry_point = elf_header.e_entry;
    Ok(raw_image)
}

/// Once copying a segment fails, copying more segments fails the same way.
proof fn lemma_load_error_sticks(f: Seq<u8>, ph: Seq<Elf32Phdr>, n: nat, size: nat, base: u32)
    requires
        n <= ph.len(),
        load_segments(f, ph.subrange(0, n as int), size, base) is Err,
    ensures
        load_segments(f, ph, size, base) == load_segments(f, ph.subrange(0, n as int), size, base),
    decreases ph.len() - n,
{
    if n < ph.len() {
        let next = ph.subrange(0, n + 1 as int);
        assert(next.drop_last() =~= ph.subrange(0, n as int));
        lemma_load_error_sticks(f, ph, n + 1, size, base);
    } else {
        assert(ph.subrange(0, n as int) =~= ph);
    }
}

/// A zeroed image of `size` bytes.
pub fn raw_elf_default(size: usize) -> (r: RawELF)
    ensures
        r.data@ == zeros(size as nat),
        r.base_addr == 0,
        r.entry_point == 0,
{
    let r = RawELF { base_addr: 0, entry_point: 0, data: vec![0u8; size] };
    assert(r.data@ =~= zeros(size as nat));
    r
}

/// A program header with every field zero.
pub fn elf_prg_hdr_default() -> (r: Elf32Phdr)
    ensures
        r == (Elf32Phdr {
            p_type: 0,
            p_offset: 0,
            p_vaddr: 0,
            p_paddr: 0,
            p_filesz: 0,
            p_memsz: 0,
            p_flags: 0,
            p_align: 0,
        }),
{
    Elf32Phdr {
        p_type: 0,
        p_offset: 0,
        p_vaddr: 0,
        p_paddr: 0,
        p_filesz: 0,
        p_memsz: 0,
        p_flags: 0,
        p_align: 0,
    }
}

/// A file whose machine tag is not PowerPC is refused with
/// `UnsupportedMachine`, however valid the rest of its header.
pub proof fn lemma_foreign_machine_refused(f: Seq<u8>, size: nat, base: u32)
    requires
        f.len() >= ELF_HEADER_SIZE,
        half_at(f, 18) != EM_PPC,
        ident_ok(f.subrange(0, 16)),
        word_at(f, 20) == 1,
        half_at(f, 16) == ET_EXEC,
    ensures
        elf_to_raw_spec(f, size, base) == Err::<(Seq<u8>, u32, u32), ElfError>(
            ElfError::UnsupportedMachine,
        ),
{
}

} // verus!
