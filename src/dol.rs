//! DOL executables: a fixed table of code and data regions, one aggregate
//! uninitialised-data region and an entry point, then the raw image.
use vstd::prelude::*;
use crate::bytes::{be_bytes, push_bytes, push_u32, words_bytes, zeros};

verus! {

pub const TEXT_COUNT: usize = 7;
pub const DATA_COUNT: usize = 11;

pub const HEADER_LENGTH: usize = 0x100;

/// Bytes of the header before its zero padding: three tables of 18 words,
/// then the uninitialised-data address and size and the entry point.
pub const HEADER_FIELDS_LENGTH: usize = 0xE4;

struct DOLImage {
    text_off: Vec<u32>,
    data_off: Vec<u32>,
    text_addr: Vec<u32>,
    data_addr: Vec<u32>,
    text_size: Vec<u32>,
    data_size: Vec<u32>,
    bss_addr: u32,
    bss_size: u32,
    entry_point: u32,
}

/// `s` extended with zeros, or cut, to `n` entries.
pub open spec fn padded(s: Seq<u32>, n: nat) -> Seq<u32> {
    Seq::new(n, |i: int| if i < s.len() { s[i] } else { 0u32 })
}

/// File offset of the region at `addr` in an image based at `base`
/// (modulo 2^32).
pub open spec fn region_offset(addr: u32, base: u32) -> u32 {
    addr.wrapping_sub(base).wrapping_add(HEADER_LENGTH as u32)
}

pub open spec fn region_offsets(addrs: Seq<u32>, base: u32) -> Seq<u32> {
    addrs.map_values(|a: u32| region_offset(a, base))
}

/// The DOL file for the given raw image and region tables.
pub open spec fn dol_spec(
    raw: Seq<u8>,
    text_addr: Seq<u32>,
    text_size: Seq<u32>,
    data_addr: Seq<u32>,
    data_size: Seq<u32>,
    bss_addr: Seq<u32>,
    bss_size: Seq<u32>,
    entry_point: u32,
    base_addr: u32,
) -> Seq<u8> {
    let first = bss_addr[0];
    let span = bss_addr.last().wrapping_add(bss_size.last()).wrapping_sub(first);
    words_bytes(padded(region_offsets(text_addr, base_addr), TEXT_COUNT as nat)) + words_bytes(
        padded(region_offsets(data_addr, base_addr), DATA_COUNT as nat),
    ) + words_bytes(padded(text_addr, TEXT_COUNT as nat)) + words_bytes(
        padded(data_addr, DATA_COUNT as nat),
    ) + words_bytes(padded(text_size.subrange(0, text_addr.len() as int), TEXT_COUNT as nat))
        + words_bytes(padded(data_size.subrange(0, data_addr.len() as int), DATA_COUNT as nat))
        + be_bytes(first) + be_bytes(span) + be_bytes(entry_point) + zeros(
        (HEADER_LENGTH - HEADER_FIELDS_LENGTH) as nat,
    ) + raw
}

fn default() -> (r: DOLImage)
    ensures
        r.text_off@ == padded(Seq::empty(), TEXT_COUNT as nat),
        r.data_off@ == padded(Seq::empty(), DATA_COUNT as nat),
        r.text_addr@ == padded(Seq::empty(), TEXT_COUNT as nat),
        r.data_addr@ == padded(Seq::empty(), DATA_COUNT as nat),
        r.text_size@ == padded(Seq::empty(), TEXT_COUNT as nat),
        r.data_size@ == padded(Seq::empty(), DATA_COUNT as nat),
        r.bss_addr == 0,
        r.bss_size == 0,
        r.entry_point == 0,
{
    let r = DOLImage {
        text_off: vec![0u32; TEXT_COUNT],
        data_off: vec![0u32; DATA_COUNT],
        text_addr: vec![0u32; TEXT_COUNT],
        data_addr: vec![0u32; DATA_COUNT],
        text_size: vec![0u32; TEXT_COUNT],
        data_size: vec![0u32; DATA_COUNT],
        bss_addr: 0,
        bss_size: 0,
        entry_point: 0,
    };
    assert(r.text_off@ =~= padded(Seq::empty(), TEXT_COUNT as nat));
    assert(r.data_off@ =~= padded(Seq::empty(), DATA_COUNT as nat));
    assert(r.text_addr@ =~= padded(Seq::empty(), TEXT_COUNT as nat));
    assert(r.data_addr@ =~= padded(Seq::empty(), DATA_COUNT as nat));
    assert(r.text_size@ =~= padded(Seq::empty(), TEXT_COUNT as nat));
    assert(r.data_size@ =~= padded(Seq::empty(), DATA_COUNT as nat));
    r
}

/// Appends the first `n` words of `words`, big-endian.
fn push_words(out: &mut Vec<u8>, words: &Vec<u32>, n: usize)
    requires
        n <= words.len(),
    ensures
        final(out)@ == old(out)@ + words_bytes(words@.subrange(0, n as int)),
{
    let mut i: usize = 0;
    assert(old(out)@ + words_bytes(words@.subrange(0, 0)) =~= old(out)@);
    while i < n
        invariant
            i <= n,
            n <= words.len(),
            out@ == old(out)@ + words_bytes(words@.subrange(0, i as int)),
        decreases n - i,
    {
        push_u32(out, words[i]);
        proof {
            let next = words@.subrange(0, i + 1);
            assert(next.drop_last() =~= words@.subrange(0, i as int));
        }
        i += 1;
        assert(out@ =~= old(out)@ + words_bytes(words@.subrange(0, i as int)));
    }
}

/// Appends one table: the first `TEXT_COUNT` code words, then the first
/// `DATA_COUNT` data words.
fn write_section_info(out: &mut Vec<u8>, for_text: &Vec<u32>, for_data: &Vec<u32>)
    requires
        for_text.len() >= TEXT_COUNT,
        for_data.len() >= DATA_COUNT,
    ensures
        final(out)@ == old(out)@ + words_bytes(for_text@.subrange(0, TEXT_COUNT as int))
            + words_bytes(for_data@.subrange(0, DATA_COUNT as int)),
{
    push_words(out, for_text, TEXT_COUNT);
    push_words(out, for_data, DATA_COUNT);
}

/// Appends zeros until `out` is `stopper` bytes long.
fn write_padding(out: &mut Vec<u8>, stopper: usize)
    requires
        old(out).len() <= stopper,
    ensures
        final(out)@ == old(out)@ + zeros((stopper - old(out).len()) as nat),
{
    let ghost start = out@;
    while out.len() < stopper
        invariant
            start.len() <= out.len() <= stopper,
            out@ == start + zeros((out.len() - start.len()) as nat),
        decreases stopper - out.len(),
    {
        out.push(0u8);
        assert(out@ =~= start + zeros((out.len() - start.len()) as nat));
    }
}

/// Fills the first `n` entries of `table` from `vals`, leaving the
/// remaining entries zero.
fn fill_regions(table: &mut Vec<u32>, vals: &Vec<u32>, n: usize)
    requires
        n <= vals.len(),
        n <= old(table).len(),
        old(table)@ == padded(Seq::empty(), old(table).len() as nat),
    ensures
        final(table)@ == padded(vals@.subrange(0, n as int), old(table).len() as nat),
{
    let ghost len = table.len();
    let mut i: usize = 0;
    while i < n
        invariant
            i <= n,
            n <= vals.len(),
            table.len() == len,
            n <= len,
            table@ == padded(vals@.subrange(0, i as int), len as nat),
        decreases n - i,
    {
        table.set(i, vals[i]);
        i += 1;
        assert(table@ =~= padded(vals@.subrange(0, i as int), len as nat));
    }
}

/// Fills `table` with the file offsets of the regions at `addrs`, leaving
/// the remaining entries zero.
fn fill_offsets(table: &mut Vec<u32>, addrs: &Vec<u32>, base_addr: u32)
    requires
        addrs.len() <= old(table).len(),
        old(table)@ == padded(Seq::empty(), old(table).len() as nat),
    ensures
        final(table)@ == padded(region_offsets(addrs@, base_addr), old(table).len() as nat),
{
    let ghost len = table.len();
    let mut i: usize = 0;
    while i < addrs.len()
        invariant
            i <= addrs.len(),
            table.len() == len,
            addrs.len() <= len,
            table@ == padded(region_offsets(addrs@.subrange(0, i as int), base_addr), len as nat),
        decreases addrs.len() - i,
    {
        table.set(i, addrs[i].wrapping_sub(base_addr).wrapping_add(HEADER_LENGTH as u32));
        i += 1;
        assert(table@ =~= padded(
            region_offsets(addrs@.subrange(0, i as int), base_addr),
            len as nat,
        ));
    }
    assert(addrs@.subrange(0, addrs@.len() as int) =~= addrs@);
}

/// Builds a DOL file from a raw image based at `base_addr` and its region
/// tables. The uninitialised-data region of the header spans from the first
/// listed region to the end of the last one.
pub fn raw_to_dol(
    raw_data: &Vec<u8>,
    text_addr: &Vec<u32>,
    text_size: &Vec<u32>,
    data_addr: &Vec<u32>,
    data_size: &Vec<u32>,
    bss_addr: &Vec<u32>,
    bss_size: &Vec<u32>,
    entry_point: u32,
    base_addr: u32,
) -> (r: Vec<u8>)
    requires
        text_addr.len() <= TEXT_COUNT,
        text_addr.len() <= text_size.len(),
        data_addr.len() <= DATA_COUNT,
        data_addr.len() <= data_size.len(),
        bss_addr.len() > 0,
        bss_size.len() > 0,
    ensures
        r@ == dol_spec(
            raw_data@,
            text_addr@,
            text_size@,
            data_addr@,
            data_size@,
            bss_addr@,
            bss_size@,
            entry_point,
            base_addr,
        ),
{
    let mut dol = default();
    fill_offsets(&mut dol.text_off, text_addr, base_addr);
    fill_regions(&mut dol.text_addr, text_addr, text_addr.len());
    fill_regions(&mut dol.text_size, text_size, text_addr.len());
    fill_offsets(&mut dol.data_off, data_addr, base_addr);
    fill_regions(&mut dol.data_addr, data_addr, data_addr.len());
    fill_regions(&mut dol.data_size, data_size, data_addr.len());
    assert(text_addr@.subrange(0, text_addr@.len() as int) =~= text_addr@);
    assert(data_addr@.subrange(0, data_addr@.len() as int) =~= data_addr@);

    let first = bss_addr[0];
    let last = bss_addr[bss_addr.len() - 1];
    let last_size = bss_size[bss_size.len() - 1];
    dol.bss_addr = first;
    dol.bss_size = last.wrapping_add(last_size).wrapping_sub(first);
    dol.entry_point = entry_point;

    assert(dol.text_off@.subrange(0, TEXT_COUNT as int) =~= dol.text_off@);
    assert(dol.data_off@.subrange(0, DATA_COUNT as int) =~= dol.data_off@);
    assert(dol.text_addr@.subrange(0, TEXT_COUNT as int) =~= dol.text_addr@);
    assert(dol.data_addr@.subrange(0, DATA_COUNT as int) =~= dol.data_addr@);
    assert(dol.text_size@.subrange(0, TEXT_COUNT as int) =~= dol.text_size@);
    assert(dol.data_size@.subrange(0, DATA_COUNT as int) =~= dol.data_size@);
    let mut out: Vec<u8> = Vec::new();
    write_section_info(&mut out, &dol.text_off, &dol.data_off);
    write_section_info(&mut out, &dol.text_addr, &dol.data_addr);
    write_section_info(&mut out, &dol.text_size, &dol.data_size);
    push_u32(&mut out, dol.bss_addr);
    push_u32(&mut out, dol.bss_size);
    push_u32(&mut out, dol.entry_point);
    proof {
        lemma_words_bytes_len(dol.text_off@);
        lemma_words_bytes_len(dol.data_off@);
        lemma_words_bytes_len(dol.text_addr@);
        lemma_words_bytes_len(dol.data_addr@);
        lemma_words_bytes_len(dol.text_size@);
        lemma_words_bytes_len(dol.data_size@);
    }
    write_padding(&mut out, HEADER_LENGTH);
    push_bytes(&mut out, raw_data);
    assert(Seq::<u8>::empty() + words_bytes(dol.text_off@) =~= words_bytes(dol.text_off@));
    out
}

proof fn lemma_words_bytes_len(s: Seq<u32>)
    ensures
        words_bytes(s).len() == 4 * s.len(),
    decreases s.len(),
{
    if s.len() > 0 {
        lemma_words_bytes_len(s.drop_last());
    }
}

} // verus!
