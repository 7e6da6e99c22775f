//! The BootStage container: header fields, lead-in detection, the section
//! tables scanned out of the stage-two payload, and re-encoding.
use vstd::prelude::*;
use crate::bytes::{
    be_bytes, find_u32_from_buf, find_u32_from_buf_range, lemma_scan_found, lemma_scan_none,
    lemma_be_of_word, lemma_word_of_be, lemma_word_of_bytes, lemma_word_prefix,
    lemma_word_shift, push_bytes, push_u32,
    read_u32_from_buf, read_u8s_from_buf, scan, splice, word_at, write_blank,
    write_u32_from_buf, zeros,
};

verus! {

pub const TEXT_COUNT: usize = 2;
pub const DATA_COUNT: usize = 8;
pub const BSS_COUNT: usize = 3;

pub const HEADER_LENGTH: usize = 0x100;

pub const STUB_DEFAULT_ADDR: u32 = 0x81340000;
pub const STUB_DEFAULT_SIZE: u32 = 0x00010000;

/// First word of the code/data descriptor table.
pub const INIT_MEM_BOUND_START: u32 = 0x81330000;
/// Lowest address that starts the uninitialised-data table.
pub const UNINIT_MEM_BOUND_START: u32 = 0x81080000;
/// Highest address any known stage-two image reaches.
pub const MEM_BOUND_END: u32 = 0x816A0000;

/// Size of the opaque lead-in that may precede the stage-two payload.
pub const BS2_PAD: u32 = 0x20;

/// Bytes per code/data descriptor: address, a reserved word, length.
pub const DESCRIPTOR_STRIDE: usize = 0x0C;
/// Bytes per uninitialised-data descriptor: address, size.
pub const BSS_STRIDE: usize = 0x08;

/// The file must reach past the last header field, the stage-two entry word.
pub const HEADER_READ_END: usize = 0x500;

/// What a code/data descriptor slot describes.
#[derive(Clone, Copy, Debug, PartialEq, Eq, Structural)]
pub enum SlotKind {
    Code,
    Data,
}

/// Kind of each of the ten interleaved descriptors, in table order.
pub const LINK_ORDER: [SlotKind; 10] = [
    SlotKind::Code,
    SlotKind::Data,
    SlotKind::Data,
    SlotKind::Code,
    SlotKind::Data,
    SlotKind::Data,
    SlotKind::Data,
    SlotKind::Data,
    SlotKind::Data,
    SlotKind::Data,
];

/// Why a BootStage container could not be decoded.
#[derive(Clone, Copy, Debug, PartialEq, Eq, Structural)]
pub enum BootStageError {
    /// The header points outside the file, or a length field is smaller
    /// than the part it must include.
    Truncated,
    /// A scan reached the end of the payload without finding its marker.
    MissingMarker,
}

/// One uninitialised-data region.
#[derive(Clone, Copy, Debug, PartialEq, Eq, Structural)]
pub struct BSImageBSS {
    pub addr: u32,
    pub size: u32,
}

/// A decoded BootStage container.
#[derive(Clone, Debug)]
pub struct BSImage {
    pub bs1_addr: u32,
    pub bs1_len: u32,
    pub bs1_data: Vec<u8>,
    pub bs2_addr: u32,
    pub bs2_len: u32,
    pub bs2_data: Vec<u8>,
    pub stub_addr: u32,
    pub stub_len: u32,
    /// The opaque lead-in found before the stage-two payload, if any.
    pub unk_stuff: Option<Vec<u8>>,
    pub bs1_entry: u32,
    pub bs2_entry: u32,
    pub text_addr: Vec<u32>,
    pub text_len: Vec<u32>,
    pub data_addr: Vec<u32>,
    pub data_len: Vec<u32>,
    pub bss_addr: Vec<u32>,
    pub bss_len: Vec<u32>,
}

/// The mathematical content of a `BSImage`.
pub struct ImageModel {
    pub bs1_addr: u32,
    pub bs1_len: u32,
    pub bs1_data: Seq<u8>,
    pub bs2_addr: u32,
    pub bs2_len: u32,
    pub bs2_data: Seq<u8>,
    pub stub_addr: u32,
    pub stub_len: u32,
    pub unk_stuff: Option<Seq<u8>>,
    pub bs1_entry: u32,
    pub bs2_entry: u32,
    pub text_addr: Seq<u32>,
    pub text_len: Seq<u32>,
    pub data_addr: Seq<u32>,
    pub data_len: Seq<u32>,
    pub bss_addr: Seq<u32>,
    pub bss_len: Seq<u32>,
}

pub open spec fn opt_bytes_view(o: Option<Vec<u8>>) -> Option<Seq<u8>> {
    match o {
        Some(v) => Some(v@),
        None => None,
    }
}

impl View for BSImage {
    type V = ImageModel;

    open spec fn view(&self) -> ImageModel {
        ImageModel {
            bs1_addr: self.bs1_addr,
            bs1_len: self.bs1_len,
            bs1_data: self.bs1_data@,
            bs2_addr: self.bs2_addr,
            bs2_len: self.bs2_len,
            bs2_data: self.bs2_data@,
            stub_addr: self.stub_addr,
            stub_len: self.stub_len,
            unk_stuff: opt_bytes_view(self.unk_stuff),
            bs1_entry: self.bs1_entry,
            bs2_entry: self.bs2_entry,
            text_addr: self.text_addr@,
            text_len: self.text_len@,
            data_addr: self.data_addr@,
            data_len: self.data_len@,
            bss_addr: self.bss_addr@,
            bss_len: self.bss_len@,
        }
    }
}

impl ImageModel {
    /// The fixed shape of the section tables.
    pub open spec fn wf(&self) -> bool {
        &&& self.text_addr.len() == TEXT_COUNT
        &&& self.text_len.len() == TEXT_COUNT
        &&& self.data_addr.len() == DATA_COUNT
        &&& self.data_len.len() == DATA_COUNT
        &&& self.bss_addr.len() == BSS_COUNT
        &&& self.bss_len.len() == BSS_COUNT
    }
}

// ---------------------------------------------------------------------------
// Section tables

/// The words at `field` within each of the first `n` descriptors from
/// `start` whose slot is of kind `kind`, in table order.
pub open spec fn slot_words(p: Seq<u8>, start: int, n: nat, kind: SlotKind, field: int) -> Seq<
    u32,
>
    decreases n,
{
    if n == 0 {
        Seq::empty()
    } else {
        let prev = slot_words(p, start, (n - 1) as nat, kind, field);
        if LINK_ORDER@[n - 1] == kind {
            prev.push(word_at(p, start + DESCRIPTOR_STRIDE * (n - 1) + field))
        } else {
            prev
        }
    }
}

/// The three uninitialised-data descriptors stored from `off`.
pub open spec fn bss_entries(p: Seq<u8>, off: int) -> Seq<BSImageBSS> {
    Seq::new(
        BSS_COUNT as nat,
        |k: int| BSImageBSS { addr: word_at(p, off + BSS_STRIDE * k), size: word_at(p, off + BSS_STRIDE * k + 4) },
    )
}

/// The section tables of a payload, as scanned out of it.
pub struct TablesModel {
    pub text_addr: Seq<u32>,
    pub text_len: Seq<u32>,
    pub data_addr: Seq<u32>,
    pub data_len: Seq<u32>,
    pub bss: Seq<BSImageBSS>,
    pub bss_offset: int,
}

/// The section tables that a scan of payload `p` finds, before the
/// uninitialised-data table is normalised.
pub open spec fn read_tables_spec(p: Seq<u8>) -> Result<TablesModel, BootStageError> {
    match scan(p, 0, INIT_MEM_BOUND_START, INIT_MEM_BOUND_START) {
        None => Err(BootStageError::MissingMarker),
        Some(rom) => {
            let end = rom + DESCRIPTOR_STRIDE * (TEXT_COUNT + DATA_COUNT);
            if end > p.len() {
                Err(BootStageError::Truncated)
            } else {
                match scan(p, end, UNINIT_MEM_BOUND_START, MEM_BOUND_END) {
                    None => Err(BootStageError::MissingMarker),
                    Some(b) => if b + BSS_STRIDE * BSS_COUNT > p.len() {
                        Err(BootStageError::Truncated)
                    } else {
                        Ok(
                            TablesModel {
                                text_addr: slot_words(p, rom, 10, SlotKind::Code, 0),
                                text_len: slot_words(p, rom, 10, SlotKind::Code, 8),
                                data_addr: slot_words(p, rom, 10, SlotKind::Data, 0),
                                data_len: slot_words(p, rom, 10, SlotKind::Data, 8),
                                bss: bss_entries(p, b),
                                bss_offset: b,
                            },
                        )
                    },
                }
            }
        },
    }
}


/// `e` placed after the leading entries of `s` whose address is not above
/// its own.
pub open spec fn insert_by_addr(s: Seq<BSImageBSS>, e: BSImageBSS) -> Seq<BSImageBSS>
    decreases s.len(),
{
    if s.len() == 0 {
        seq![e]
    } else if e.addr < s[0].addr {
        seq![e] + s
    } else {
        seq![s[0]] + insert_by_addr(s.drop_first(), e)
    }
}

/// `s` sorted by ascending address; entries with equal addresses keep their
/// order.
pub open spec fn sort_by_addr(s: Seq<BSImageBSS>) -> Seq<BSImageBSS>
    decreases s.len(),
{
    if s.len() == 0 {
        s
    } else {
        insert_by_addr(sort_by_addr(s.drop_last()), s.last())
    }
}

/// The size correction of the first entry: where the first code address is
/// at least that entry's size, the size becomes the distance from the
/// entry's address to the first code address (modulo 2^32).
pub open spec fn fix_first_size(s: Seq<BSImageBSS>, text0: u32) -> Seq<BSImageBSS> {
    if text0 >= s[0].size {
        s.update(0, BSImageBSS { addr: s[0].addr, size: text0.wrapping_sub(s[0].addr) })
    } else {
        s
    }
}

/// The uninitialised-data table as decoding leaves it.
pub open spec fn normalize_spec(s: Seq<BSImageBSS>, text0: u32) -> Seq<BSImageBSS> {
    fix_first_size(sort_by_addr(s), text0)
}

/// The bytes of an uninitialised-data table: address then size, big-endian.
pub open spec fn bss_bytes(s: Seq<BSImageBSS>) -> Seq<u8>
    decreases s.len(),
{
    if s.len() == 0 {
        Seq::empty()
    } else {
        bss_bytes(s.drop_last()) + be_bytes(s.last().addr) + be_bytes(s.last().size)
    }
}

/// Addresses in ascending order.
pub open spec fn sorted_by_addr(s: Seq<BSImageBSS>) -> bool {
    forall|i: int, j: int| 0 <= i < j < s.len() ==> s[i].addr <= s[j].addr
}

proof fn lemma_insert_at(s: Seq<BSImageBSS>, e: BSImageBSS, j: int)
    requires
        0 <= j <= s.len(),
        forall|k: int| 0 <= k < j ==> s[k].addr <= e.addr,
        j == s.len() || e.addr < s[j].addr,
    ensures
        insert_by_addr(s, e) == s.insert(j, e),
    decreases s.len(),
{
    if s.len() == 0 {
        assert(s.insert(j, e) =~= seq![e]);
    } else if e.addr < s[0].addr {
        assert(s.insert(j, e) =~= seq![e] + s);
    } else {
        let t = s.drop_first();
        assert forall|k: int| 0 <= k < j - 1 implies t[k].addr <= e.addr by {
            assert(t[k] == s[k + 1]);
        }
        lemma_insert_at(t, e, j - 1);
        assert(s.insert(j, e) =~= seq![s[0]] + t.insert(j - 1, e));
    }
}

proof fn lemma_insert_props(s: Seq<BSImageBSS>, e: BSImageBSS)
    ensures
        insert_by_addr(s, e).len() == s.len() + 1,
        insert_by_addr(s, e).to_multiset() == s.to_multiset().insert(e),
        sorted_by_addr(s) ==> sorted_by_addr(insert_by_addr(s, e)),
    decreases s.len(),
{
    broadcast use vstd::seq_lib::group_to_multiset_ensures;
    if s.len() == 0 {
        assert(seq![e] =~= s.push(e));
    } else if e.addr < s[0].addr {
        assert(seq![e] + s =~= s.insert(0, e));
        vstd::seq_lib::to_multiset_insert(s, 0, e);
    } else {
        let t = s.drop_first();
        lemma_insert_props(t, e);
        let r = insert_by_addr(t, e);
        assert(seq![s[0]] + r =~= r.insert(0, s[0]));
        assert(t.insert(0, s[0]) =~= s);
        vstd::seq_lib::to_multiset_insert(r, 0, s[0]);
        vstd::seq_lib::to_multiset_insert(t, 0, s[0]);
        if sorted_by_addr(s) {
            let out = seq![s[0]] + r;
            assert(sorted_by_addr(t));
            assert forall|i: int, j: int| 0 <= i < j < out.len() implies out[i].addr
                <= out[j].addr by {
                if i == 0 {
                    assert(r.to_multiset().contains(out[j]));
                    assert(r.contains(out[j]));
                    let k = choose|k: int| 0 <= k < r.len() && r[k] == out[j];
                    if r[k] == e {
                    } else {
                        assert(t.to_multiset().contains(r[k]));
                        assert(t.contains(r[k]));
                    }
                }
            }
        }
    }
}

/// Sorting keeps the entries and puts them in ascending address order.
pub proof fn lemma_sort_props(s: Seq<BSImageBSS>)
    ensures
        sort_by_addr(s).len() == s.len(),
        sort_by_addr(s).to_multiset() == s.to_multiset(),
        sorted_by_addr(sort_by_addr(s)),
    decreases s.len(),
{
    broadcast use vstd::seq_lib::group_to_multiset_ensures;
    if s.len() > 0 {
        lemma_sort_props(s.drop_last());
        lemma_insert_props(sort_by_addr(s.drop_last()), s.last());
        assert(s.drop_last().push(s.last()) =~= s);
    }
}

proof fn lemma_bss_bytes_len(s: Seq<BSImageBSS>)
    ensures
        bss_bytes(s).len() == BSS_STRIDE * s.len(),
    decreases s.len(),
{
    if s.len() > 0 {
        lemma_bss_bytes_len(s.drop_last());
    }
}

proof fn lemma_splice_concat(s: Seq<u8>, off: int, a: Seq<u8>, b: Seq<u8>)
    requires
        0 <= off,
        off + a.len() + b.len() <= s.len(),
    ensures
        splice(splice(s, off, a), off + a.len(), b) == splice(s, off, a + b),
{
    assert(splice(splice(s, off, a), off + a.len(), b) =~= splice(s, off, a + b));
}

/// Sorts the entries by ascending address, keeping the order of equal ones.
fn sort_bss(bss: &Vec<BSImageBSS>) -> (r: Vec<BSImageBSS>)
    ensures
        r@ == sort_by_addr(bss@),
{
    let mut out: Vec<BSImageBSS> = Vec::new();
    let mut i: usize = 0;
    while i < bss.len()
        invariant
            i <= bss.len(),
            out@ == sort_by_addr(bss@.subrange(0, i as int)),
        decreases bss.len() - i,
    {
        let e = bss[i];
        proof {
            lemma_sort_props(bss@.subrange(0, i as int));
        }
        let mut j: usize = 0;
        while j < out.len() && out[j].addr <= e.addr
            invariant
                j <= out.len(),
                forall|k: int| 0 <= k < j ==> out@[k].addr <= e.addr,
            decreases out.len() - j,
        {
            j += 1;
        }
        proof {
            lemma_insert_at(out@, e, j as int);
            let next = bss@.subrange(0, i + 1);
            assert(next.drop_last() =~= bss@.subrange(0, i as int));
            assert(next.last() == e);
        }
        out.insert(j, e);
        i += 1;
    }
    assert(bss@.subrange(0, bss@.len() as int) =~= bss@);
    out
}

/// Sorts the uninitialised-data entries by address and applies the
/// first-entry size correction against the first code address `text0`.
pub fn normalize_bss(bss: &mut Vec<BSImageBSS>, text0: u32)
    requires
        old(bss).len() > 0,
    ensures
        final(bss)@ == normalize_spec(old(bss)@, text0),
{
    proof {
        lemma_sort_props(bss@);
    }
    let mut sorted = sort_bss(bss);
    if text0 >= sorted[0].size {
        let first = BSImageBSS { addr: sorted[0].addr, size: text0.wrapping_sub(sorted[0].addr) };
        sorted.set(0, first);
    }
    *bss = sorted;
}

/// Writes the entries back as a table at `offset`.
pub fn write_bss_table(payload: &mut Vec<u8>, offset: usize, bss: &Vec<BSImageBSS>)
    requires
        offset + BSS_STRIDE * bss.len() <= old(payload).len(),
    ensures
        final(payload)@ == splice(old(payload)@, offset as int, bss_bytes(bss@)),
{
    let mut i: usize = 0;
    let mut off: usize = offset;
    assert(bss_bytes(bss@.subrange(0, 0)) =~= Seq::<u8>::empty());
    assert(splice(old(payload)@, offset as int, Seq::<u8>::empty()) =~= old(payload)@);
    while i < bss.len()
        invariant
            i <= bss.len(),
            off == offset + BSS_STRIDE * i,
            offset + BSS_STRIDE * bss.len() <= old(payload).len(),
            payload@ == splice(old(payload)@, offset as int, bss_bytes(bss@.subrange(0, i as int))),
        decreases bss.len() - i,
    {
        let e = bss[i];
        let ghost done = bss_bytes(bss@.subrange(0, i as int));
        proof {
            lemma_bss_bytes_len(bss@.subrange(0, i as int));
        }
        write_u32_from_buf(payload, off, e.addr);
        proof {
            lemma_splice_concat(old(payload)@, offset as int, done, be_bytes(e.addr));
        }
        write_u32_from_buf(payload, off + 4, e.size);
        proof {
            lemma_splice_concat(old(payload)@, offset as int, done + be_bytes(e.addr), be_bytes(e.size));
            let next = bss@.subrange(0, i + 1);
            assert(next.drop_last() =~= bss@.subrange(0, i as int));
            assert(next.last() == e);
        }
        off += BSS_STRIDE;
        i += 1;
    }
    assert(bss@.subrange(0, bss@.len() as int) =~= bss@);
}


/// The section tables found in a stage-two payload.
#[derive(Clone, Debug)]
pub struct SectionTables {
    pub text_addr: Vec<u32>,
    pub text_len: Vec<u32>,
    pub data_addr: Vec<u32>,
    pub data_len: Vec<u32>,
    pub bss: Vec<BSImageBSS>,
    /// Where the uninitialised-data table starts in the payload.
    pub bss_offset: usize,
}

impl View for SectionTables {
    type V = TablesModel;

    open spec fn view(&self) -> TablesModel {
        TablesModel {
            text_addr: self.text_addr@,
            text_len: self.text_len@,
            data_addr: self.data_addr@,
            data_len: self.data_len@,
            bss: self.bss@,
            bss_offset: self.bss_offset as int,
        }
    }
}

/// What decoding makes of payload `p`: its tables, with the uninitialised
/// ones normalised, and the payload with the normalised table written back.
pub open spec fn sections_spec(p: Seq<u8>) -> Result<(TablesModel, Seq<u8>), BootStageError> {
    match read_tables_spec(p) {
        Err(e) => Err(e),
        Ok(raw) => {
            let bss = normalize_spec(raw.bss, raw.text_addr[0]);
            Ok(
                (
                    TablesModel {
                        text_addr: raw.text_addr,
                        text_len: raw.text_len,
                        data_addr: raw.data_addr,
                        data_len: raw.data_len,
                        bss,
                        bss_offset: raw.bss_offset,
                    },
                    splice(p, raw.bss_offset, bss_bytes(bss)),
                ),
            )
        },
    }
}

proof fn lemma_slot_counts(p: Seq<u8>, start: int, field: int)
    ensures
        slot_words(p, start, 10, SlotKind::Code, field).len() == TEXT_COUNT,
        slot_words(p, start, 10, SlotKind::Data, field).len() == DATA_COUNT,
{
    reveal_with_fuel(slot_words, 11);
}

/// Reads the code/data descriptors and the unsorted uninitialised-data
/// table out of a payload.
pub fn read_section_tables(payload: &Vec<u8>) -> (r: Result<SectionTables, BootStageError>)
    ensures
        r matches Ok(t) ==> read_tables_spec(payload@) == Ok::<TablesModel, BootStageError>(t@),
        r matches Err(e) ==> read_tables_spec(payload@) == Err::<TablesModel, BootStageError>(e),
{
    let rom_offset = match find_u32_from_buf(payload, INIT_MEM_BOUND_START, 0) {
        Some(o) => o,
        None => return Err(BootStageError::MissingMarker),
    };
    proof {
        lemma_scan_found(payload@, 0, INIT_MEM_BOUND_START, INIT_MEM_BOUND_START);
    }
    if payload.len() - rom_offset < DESCRIPTOR_STRIDE * (TEXT_COUNT + DATA_COUNT) {
        return Err(BootStageError::Truncated);
    }
    let mut text_addr: Vec<u32> = Vec::new();
    let mut text_len: Vec<u32> = Vec::new();
    let mut data_addr: Vec<u32> = Vec::new();
    let mut data_len: Vec<u32> = Vec::new();
    let mut read_off = rom_offset;
    let mut i: usize = 0;
    while i < TEXT_COUNT + DATA_COUNT
        invariant
            i <= TEXT_COUNT + DATA_COUNT,
            rom_offset + DESCRIPTOR_STRIDE * (TEXT_COUNT + DATA_COUNT) <= payload.len(),
            read_off == rom_offset + DESCRIPTOR_STRIDE * i,
            text_addr@ == slot_words(payload@, rom_offset as int, i as nat, SlotKind::Code, 0),
            text_len@ == slot_words(payload@, rom_offset as int, i as nat, SlotKind::Code, 8),
            data_addr@ == slot_words(payload@, rom_offset as int, i as nat, SlotKind::Data, 0),
            data_len@ == slot_words(payload@, rom_offset as int, i as nat, SlotKind::Data, 8),
        decreases TEXT_COUNT + DATA_COUNT - i,
    {
        let a = read_u32_from_buf(payload, read_off);
        let l = read_u32_from_buf(payload, read_off + 8);
        match LINK_ORDER[i] {
            SlotKind::Code => {
                text_addr.push(a);
                text_len.push(l);
            },
            SlotKind::Data => {
                data_addr.push(a);
                data_len.push(l);
            },
        }
        read_off += DESCRIPTOR_STRIDE;
        i += 1;
    }
    let bss_offset = match find_u32_from_buf_range(
        payload,
        UNINIT_MEM_BOUND_START,
        MEM_BOUND_END,
        read_off,
    ) {
        Some(o) => o,
        None => return Err(BootStageError::MissingMarker),
    };
    proof {
        lemma_scan_found(payload@, read_off as int, UNINIT_MEM_BOUND_START, MEM_BOUND_END);
    }
    if payload.len() - bss_offset < BSS_STRIDE * BSS_COUNT {
        return Err(BootStageError::Truncated);
    }
    let mut bss: Vec<BSImageBSS> = Vec::new();
    let mut k: usize = 0;
    while k < BSS_COUNT
        invariant
            k <= BSS_COUNT,
            bss_offset + BSS_STRIDE * BSS_COUNT <= payload.len(),
            bss@ == bss_entries(payload@, bss_offset as int).subrange(0, k as int),
        decreases BSS_COUNT - k,
    {
        let off = bss_offset + BSS_STRIDE * k;
        let e = BSImageBSS {
            addr: read_u32_from_buf(payload, off),
            size: read_u32_from_buf(payload, off + 4),
        };
        bss.push(e);
        k += 1;
        assert(bss@ =~= bss_entries(payload@, bss_offset as int).subrange(0, k as int));
    }
    let t = SectionTables { text_addr, text_len, data_addr, data_len, bss, bss_offset };
    assert(t@.bss =~= bss_entries(payload@, bss_offset as int));
    Ok(t)
}

/// Decodes the section tables of a stage-two payload, normalises the
/// uninitialised-data table and writes it back into the payload.
pub fn decode_sections(payload: &mut Vec<u8>) -> (r: Result<SectionTables, BootStageError>)
    ensures
        r matches Ok(t) ==> sections_spec(old(payload)@) == Ok::<
            (TablesModel, Seq<u8>),
            BootStageError,
        >((t@, final(payload)@)),
        r matches Err(e) ==> sections_spec(old(payload)@) == Err::<
            (TablesModel, Seq<u8>),
            BootStageError,
        >(e) && final(payload)@ == old(payload)@,
{
    let mut t = match read_section_tables(payload) {
        Ok(t) => t,
        Err(e) => return Err(e),
    };
    proof {
        lemma_scan_found(payload@, 0, INIT_MEM_BOUND_START, INIT_MEM_BOUND_START);
        let rom = scan(payload@, 0, INIT_MEM_BOUND_START, INIT_MEM_BOUND_START)->0;
        lemma_slot_counts(payload@, rom, 0);
        lemma_sort_props(t.bss@);
    }
    normalize_bss(&mut t.bss, t.text_addr[0]);
    write_bss_table(payload, t.bss_offset, &t.bss);
    Ok(t)
}


// ---------------------------------------------------------------------------
// The container

/// The probe words at the stage-two offset announce a lead-in.
pub open spec fn pad_predicate(w0: u32, w2: u32) -> bool {
    INIT_MEM_BOUND_START <= w0 <= MEM_BOUND_END && w2 == 0
}

pub open spec fn bss_addrs(s: Seq<BSImageBSS>) -> Seq<u32> {
    s.map_values(|b: BSImageBSS| b.addr)
}

pub open spec fn bss_sizes(s: Seq<BSImageBSS>) -> Seq<u32> {
    s.map_values(|b: BSImageBSS| b.size)
}

/// The image that decoding container bytes `f` yields, or why it fails.
pub open spec fn decode_spec(f: Seq<u8>) -> Result<ImageModel, BootStageError> {
    if f.len() < HEADER_READ_END || word_at(f, 0x90) < 4 {
        Err(BootStageError::Truncated)
    } else {
        let off1 = word_at(f, 0x00) as int;
        let len1 = (word_at(f, 0x90) - 4) as u32;
        let raw_off2 = word_at(f, 0x1C) as int;
        let raw_len2 = word_at(f, 0xAC);
        if raw_off2 + 12 > f.len() {
            Err(BootStageError::Truncated)
        } else {
            let pad = pad_predicate(word_at(f, raw_off2), word_at(f, raw_off2 + 8));
            if pad && (raw_off2 + BS2_PAD > f.len() || raw_len2 < BS2_PAD) {
                Err(BootStageError::Truncated)
            } else {
                let off2 = if pad { raw_off2 + BS2_PAD } else { raw_off2 };
                let len2 = if pad { (raw_len2 - BS2_PAD) as u32 } else { raw_len2 };
                if len2 < 4 || off2 + len2 - 4 > f.len() || off1 + len1 > f.len() {
                    Err(BootStageError::Truncated)
                } else {
                    match sections_spec(f.subrange(off2, off2 + len2 - 4)) {
                        Err(e) => Err(e),
                        Ok((t, payload)) => Ok(
                            ImageModel {
                                bs1_addr: word_at(f, 0x48),
                                bs1_len: len1,
                                bs1_data: f.subrange(off1, off1 + len1),
                                bs2_addr: if pad {
                                    word_at(f, 0x64).wrapping_add(BS2_PAD)
                                } else {
                                    word_at(f, 0x64)
                                },
                                bs2_len: len2,
                                bs2_data: payload,
                                stub_addr: word_at(f, 0xD8),
                                stub_len: word_at(f, 0xDC),
                                unk_stuff: if pad {
                                    Some(f.subrange(raw_off2, raw_off2 + BS2_PAD))
                                } else {
                                    None
                                },
                                bs1_entry: word_at(f, 0xE0),
                                bs2_entry: word_at(f, 0x4FC),
                                text_addr: t.text_addr,
                                text_len: t.text_len,
                                data_addr: t.data_addr,
                                data_len: t.data_len,
                                bss_addr: bss_addrs(t.bss),
                                bss_len: bss_sizes(t.bss),
                            },
                        ),
                    }
                }
            }
        }
    }
}

/// Reads the two probe words at `offset` and tells whether they announce a
/// lead-in.
pub fn has_lead_in(file: &Vec<u8>, offset: usize) -> (r: bool)
    requires
        offset + 12 <= file.len(),
    ensures
        r == pad_predicate(word_at(file@, offset as int), word_at(file@, offset + 8)),
{
    let checker = read_u32_from_buf(file, offset);
    let checker2 = read_u32_from_buf(file, offset + 8);
    INIT_MEM_BOUND_START <= checker && checker <= MEM_BOUND_END && checker2 == 0
}

/// Decodes the bytes of a BootStage container.
#[verifier::rlimit(40)]
pub fn decode(file: &Vec<u8>) -> (r: Result<BSImage, BootStageError>)
    ensures
        r matches Ok(img) ==> decode_spec(file@) == Ok::<ImageModel, BootStageError>(img@)
            && img@.wf(),
        r matches Err(e) ==> decode_spec(file@) == Err::<ImageModel, BootStageError>(e),
{
    if file.len() < HEADER_READ_END {
        return Err(BootStageError::Truncated);
    }
    let raw_len1 = read_u32_from_buf(file, 0x90);
    if raw_len1 < 4 {
        return Err(BootStageError::Truncated);
    }
    let bs1_len = raw_len1 - 4;
    let bs1_off = read_u32_from_buf(file, 0x00) as usize;
    let mut bs2_off = read_u32_from_buf(file, 0x1C) as usize;
    let mut bs2_addr = read_u32_from_buf(file, 0x64);
    let mut bs2_len = read_u32_from_buf(file, 0xAC);
    if bs2_off > file.len() || file.len() - bs2_off < 12 {
        return Err(BootStageError::Truncated);
    }
    let mut unk_stuff: Option<Vec<u8>> = None;
    if has_lead_in(file, bs2_off) {
        if file.len() - bs2_off < BS2_PAD as usize || bs2_len < BS2_PAD {
            return Err(BootStageError::Truncated);
        }
        unk_stuff = Some(read_u8s_from_buf(file, BS2_PAD as usize, bs2_off));
        bs2_off += BS2_PAD as usize;
        bs2_addr = bs2_addr.wrapping_add(BS2_PAD);
        bs2_len -= BS2_PAD;
    }
    if bs2_len < 4 || file.len() - bs2_off < (bs2_len - 4) as usize {
        return Err(BootStageError::Truncated);
    }
    if bs1_off > file.len() || file.len() - bs1_off < bs1_len as usize {
        return Err(BootStageError::Truncated);
    }
    let bs1_data = read_u8s_from_buf(file, bs1_len as usize, bs1_off);
    let mut bs2_data = read_u8s_from_buf(file, (bs2_len - 4) as usize, bs2_off);
    let t = match decode_sections(&mut bs2_data) {
        Ok(t) => t,
        Err(e) => return Err(e),
    };
    let mut bss_addr: Vec<u32> = Vec::new();
    let mut bss_len: Vec<u32> = Vec::new();
    let mut i: usize = 0;
    while i < t.bss.len()
        invariant
            i <= t.bss.len(),
            bss_addr@ == bss_addrs(t.bss@.subrange(0, i as int)),
            bss_len@ == bss_sizes(t.bss@.subrange(0, i as int)),
        decreases t.bss.len() - i,
    {
        bss_addr.push(t.bss[i].addr);
        bss_len.push(t.bss[i].size);
        i += 1;
        assert(bss_addr@ =~= bss_addrs(t.bss@.subrange(0, i as int)));
        assert(bss_len@ =~= bss_sizes(t.bss@.subrange(0, i as int)));
    }
    assert(t.bss@.subrange(0, t.bss@.len() as int) =~= t.bss@);
    let image = BSImage {
        bs1_addr: read_u32_from_buf(file, 0x48),
        bs1_len,
        bs1_data,
        bs2_addr,
        bs2_len,
        bs2_data,
        stub_addr: read_u32_from_buf(file, 0xD8),
        stub_len: read_u32_from_buf(file, 0xDC),
        unk_stuff,
        bs1_entry: read_u32_from_buf(file, 0xE0),
        bs2_entry: read_u32_from_buf(file, 0x4FC),
        text_addr: t.text_addr,
        text_len: t.text_len,
        data_addr: t.data_addr,
        data_len: t.data_len,
        bss_addr,
        bss_len,
    };
    proof {
        lemma_tables_shape(file@.subrange(bs2_off as int, bs2_off + bs2_len - 4));
    }
    Ok(image)
}

/// A payload that decodes has tables of the fixed shape.
pub proof fn lemma_tables_shape(p: Seq<u8>)
    ensures
        sections_spec(p) matches Ok((t, q)) ==> t.text_addr.len() == TEXT_COUNT
            && t.text_len.len() == TEXT_COUNT && t.data_addr.len() == DATA_COUNT
            && t.data_len.len() == DATA_COUNT && t.bss.len() == BSS_COUNT && q.len() == p.len(),
{
    if let Ok(raw) = read_tables_spec(p) {
        let rom = scan(p, 0, INIT_MEM_BOUND_START, INIT_MEM_BOUND_START)->0;
        lemma_scan_found(p, 0, INIT_MEM_BOUND_START, INIT_MEM_BOUND_START);
        lemma_scan_found(
            p,
            rom + DESCRIPTOR_STRIDE * (TEXT_COUNT + DATA_COUNT),
            UNINIT_MEM_BOUND_START,
            MEM_BOUND_END,
        );
        lemma_slot_counts(p, rom, 0);
        lemma_slot_counts(p, rom, 8);
        lemma_sort_props(raw.bss);
        let bss = normalize_spec(raw.bss, raw.text_addr[0]);
        lemma_bss_bytes_len(bss);
    }
}

/// A lead-in is written back only where it is present, at least `BS2_PAD`
/// bytes long, and its first two bytes are both non-zero.
pub open spec fn lead_in_valid(o: Option<Seq<u8>>) -> bool {
    &&& o matches Some(l)
    &&& l.len() >= BS2_PAD
    &&& l[0] != 0
    &&& l[1] != 0
}

/// Tells whether the image's lead-in is to be written back.
pub fn verify_unk_data(image: &BSImage) -> (r: bool)
    ensures
        r == lead_in_valid(image@.unk_stuff),
{
    match &image.unk_stuff {
        None => false,
        Some(l) => {
            if l.len() < BS2_PAD as usize {
                return false;
            }
            if l[0] == 0 || l[1] == 0 {
                return false;
            }
            true
        },
    }
}

/// The 0x100-byte container header: each field at its offset, zeros between.
pub open spec fn header_bytes(
    off1: u32,
    off2: u32,
    addr1: u32,
    addr2: u32,
    len1: u32,
    len2: u32,
    stub_addr: u32,
    stub_len: u32,
    entry1: u32,
) -> Seq<u8> {
    be_bytes(off1) + zeros(0x18) + be_bytes(off2) + zeros(0x28) + be_bytes(addr1) + zeros(0x18)
        + be_bytes(addr2) + zeros(0x28) + be_bytes(len1) + zeros(0x18) + be_bytes(len2) + zeros(
        0x28,
    ) + be_bytes(stub_addr) + be_bytes(stub_len) + be_bytes(entry1) + zeros(0x1C)
}

/// The container bytes that encoding `m` yields. Header fields are 32-bit
/// and computed modulo 2^32.
pub open spec fn encode_spec(m: ImageModel) -> Seq<u8> {
    let valid = lead_in_valid(m.unk_stuff);
    let addr2 = if valid { m.bs2_addr.wrapping_sub(BS2_PAD) } else { m.bs2_addr };
    let len2 = if valid { m.bs2_len.wrapping_add(BS2_PAD) } else { m.bs2_len };
    let off2 = (HEADER_LENGTH as u32).wrapping_add(m.bs1_len).wrapping_add(4);
    header_bytes(
        HEADER_LENGTH as u32,
        off2,
        m.bs1_addr,
        addr2,
        m.bs1_len.wrapping_add(4),
        len2,
        m.stub_addr,
        m.stub_len,
        m.bs1_entry,
    ) + m.bs1_data + be_bytes(m.bs2_entry) + (if valid {
        m.unk_stuff->0
    } else {
        Seq::empty()
    }) + m.bs2_data
}

/// Encodes an image as BootStage container bytes.
pub fn encode(image: &BSImage) -> (r: Vec<u8>)
    ensures
        r@ == encode_spec(image@),
{
    let bs1_off = HEADER_LENGTH as u32;
    let bs2_off = (HEADER_LENGTH as u32).wrapping_add(image.bs1_len).wrapping_add(4);
    let mut bs2_addr = image.bs2_addr;
    let mut bs2_len = image.bs2_len;
    let valid = verify_unk_data(image);
    if valid {
        bs2_addr = bs2_addr.wrapping_sub(BS2_PAD);
        bs2_len = bs2_len.wrapping_add(BS2_PAD);
    }
    let mut out: Vec<u8> = Vec::new();
    // Offsets
    push_u32(&mut out, bs1_off);
    write_blank(&mut out, 0x18);
    push_u32(&mut out, bs2_off);
    write_blank(&mut out, 0x28);
    // Addresses
    push_u32(&mut out, image.bs1_addr);
    write_blank(&mut out, 0x18);
    push_u32(&mut out, bs2_addr);
    write_blank(&mut out, 0x28);
    // Lengths
    push_u32(&mut out, image.bs1_len.wrapping_add(4));
    write_blank(&mut out, 0x18);
    push_u32(&mut out, bs2_len);
    write_blank(&mut out, 0x28);
    // Stub and stage-one entry point
    push_u32(&mut out, image.stub_addr);
    push_u32(&mut out, image.stub_len);
    push_u32(&mut out, image.bs1_entry);
    write_blank(&mut out, 0x1C);
    assert(out@ =~= header_bytes(
        bs1_off,
        bs2_off,
        image.bs1_addr,
        bs2_addr,
        image.bs1_len.wrapping_add(4),
        bs2_len,
        image.stub_addr,
        image.stub_len,
        image.bs1_entry,
    ));
    // Stage one, then the stage-two entry point that follows it
    push_bytes(&mut out, &image.bs1_data);
    push_u32(&mut out, image.bs2_entry);
    let ghost before_lead = out@;
    if valid {
        match &image.unk_stuff {
            Some(l) => push_bytes(&mut out, l),
            None => {},
        }
    }
    assert(out@ =~= before_lead + (if valid {
        image@.unk_stuff->0
    } else {
        Seq::empty()
    }));
    push_bytes(&mut out, &image.bs2_data);
    out
}

/// An empty image with the platform's default stub.
pub fn default() -> (r: BSImage)
    ensures
        r@ == (ImageModel {
            bs1_addr: 0,
            bs1_len: 0,
            bs1_data: seq![0u8],
            bs2_addr: 0,
            bs2_len: 0,
            bs2_data: seq![0u8],
            stub_addr: STUB_DEFAULT_ADDR,
            stub_len: STUB_DEFAULT_SIZE,
            unk_stuff: None,
            bs1_entry: 0,
            bs2_entry: 0,
            text_addr: Seq::new(TEXT_COUNT as nat, |i: int| 0u32),
            text_len: Seq::new(TEXT_COUNT as nat, |i: int| 0u32),
            data_addr: Seq::new(DATA_COUNT as nat, |i: int| 0u32),
            data_len: Seq::new(DATA_COUNT as nat, |i: int| 0u32),
            bss_addr: Seq::new(BSS_COUNT as nat, |i: int| 0u32),
            bss_len: Seq::new(BSS_COUNT as nat, |i: int| 0u32),
        }),
{
    let r = BSImage {
        bs1_addr: 0,
        bs1_len: 0,
        bs1_data: vec![0u8],
        bs2_addr: 0,
        bs2_len: 0,
        bs2_data: vec![0u8],
        stub_addr: STUB_DEFAULT_ADDR,
        stub_len: STUB_DEFAULT_SIZE,
        unk_stuff: None,
        bs1_entry: 0,
        bs2_entry: 0,
        text_addr: vec![0u32; TEXT_COUNT],
        text_len: vec![0u32; TEXT_COUNT],
        data_addr: vec![0u32; DATA_COUNT],
        data_len: vec![0u32; DATA_COUNT],
        bss_addr: vec![0u32; BSS_COUNT],
        bss_len: vec![0u32; BSS_COUNT],
    };
    assert(r@.bs1_data =~= seq![0u8]);
    assert(r@.bs2_data =~= seq![0u8]);
    assert(r@.text_addr =~= Seq::new(TEXT_COUNT as nat, |i: int| 0u32));
    assert(r@.text_len =~= Seq::new(TEXT_COUNT as nat, |i: int| 0u32));
    assert(r@.data_addr =~= Seq::new(DATA_COUNT as nat, |i: int| 0u32));
    assert(r@.data_len =~= Seq::new(DATA_COUNT as nat, |i: int| 0u32));
    assert(r@.bss_addr =~= Seq::new(BSS_COUNT as nat, |i: int| 0u32));
    assert(r@.bss_len =~= Seq::new(BSS_COUNT as nat, |i: int| 0u32));
    r
}

// ---------------------------------------------------------------------------
// Laws

/// A payload with no word at a multiple of four in
/// `[INIT_MEM_BOUND_START, MEM_BOUND_END]` fails to decode with
/// `MissingMarker`, whatever its length.
pub proof fn lemma_no_marker_fails(p: Seq<u8>)
    requires
        forall|i: int|
            0 <= i && i + 4 <= p.len() && i % 4 == 0 ==> !(INIT_MEM_BOUND_START
                <= #[trigger] word_at(p, i) <= MEM_BOUND_END),
    ensures
        sections_spec(p) == Err::<(TablesModel, Seq<u8>), BootStageError>(
            BootStageError::MissingMarker,
        ),
{
    lemma_scan_none(p, 0, INIT_MEM_BOUND_START, INIT_MEM_BOUND_START);
}

/// Whatever order the uninitialised-data descriptors are stored in, a
/// payload that decodes yields them in ascending address order, and their
/// addresses are those stored, each as often as it is stored.
pub proof fn lemma_bss_sorted(p: Seq<u8>)
    ensures
        read_tables_spec(p) matches Ok(raw) ==> {
            &&& sections_spec(p) matches Ok((t, q))
            &&& sorted_by_addr(t.bss)
            &&& t.bss.len() == raw.bss.len()
            &&& bss_addrs(t.bss) == bss_addrs(sort_by_addr(raw.bss))
            &&& sort_by_addr(raw.bss).to_multiset() == raw.bss.to_multiset()
        },
{
    if let Ok(raw) = read_tables_spec(p) {
        lemma_sort_props(raw.bss);
        let sorted = sort_by_addr(raw.bss);
        let t = fix_first_size(sorted, raw.text_addr[0]);
        assert(bss_addrs(t) =~= bss_addrs(sorted));
    }
}

/// A container that decodes yields its uninitialised-data regions in
/// ascending address order.
pub proof fn lemma_decoded_bss_ascending(f: Seq<u8>)
    ensures
        decode_spec(f) matches Ok(m) ==> forall|i: int, j: int|
            0 <= i < j < m.bss_addr.len() ==> m.bss_addr[i] <= m.bss_addr[j],
{
    if let Ok(m) = decode_spec(f) {
        let off2 = if pad_predicate(
            word_at(f, word_at(f, 0x1C) as int),
            word_at(f, word_at(f, 0x1C) + 8),
        ) {
            word_at(f, 0x1C) + BS2_PAD
        } else {
            word_at(f, 0x1C) as int
        };
        let len2 = m.bs2_len;
        let p = f.subrange(off2, off2 + len2 - 4);
        lemma_bss_sorted(p);
    }
}

/// Where the probe words at the stage-two offset do not announce a lead-in,
/// decoding leaves the lead-in absent and the stage-two address and length
/// as the header gives them.
pub proof fn lemma_no_lead_in(f: Seq<u8>)
    requires
        !pad_predicate(word_at(f, word_at(f, 0x1C) as int), word_at(f, word_at(f, 0x1C) + 8)),
    ensures
        decode_spec(f) matches Ok(m) ==> m.unk_stuff is None && m.bs2_addr == word_at(f, 0x64)
            && m.bs2_len == word_at(f, 0xAC),
{
}

proof fn lemma_header_words(
    off1: u32,
    off2: u32,
    addr1: u32,
    addr2: u32,
    len1: u32,
    len2: u32,
    stub_addr: u32,
    stub_len: u32,
    entry1: u32,
)
    ensures
        ({
            let h = header_bytes(
                off1,
                off2,
                addr1,
                addr2,
                len1,
                len2,
                stub_addr,
                stub_len,
                entry1,
            );
            &&& h.len() == HEADER_LENGTH
            &&& word_at(h, 0x00) == off1
            &&& word_at(h, 0x1C) == off2
            &&& word_at(h, 0x48) == addr1
            &&& word_at(h, 0x64) == addr2
            &&& word_at(h, 0x90) == len1
            &&& word_at(h, 0xAC) == len2
            &&& word_at(h, 0xD8) == stub_addr
            &&& word_at(h, 0xDC) == stub_len
            &&& word_at(h, 0xE0) == entry1
        }),
{
    let h = header_bytes(off1, off2, addr1, addr2, len1, len2, stub_addr, stub_len, entry1);
    assert(h.subrange(0x00, 0x04) =~= be_bytes(off1));
    assert(h.subrange(0x1C, 0x20) =~= be_bytes(off2));
    assert(h.subrange(0x48, 0x4C) =~= be_bytes(addr1));
    assert(h.subrange(0x64, 0x68) =~= be_bytes(addr2));
    assert(h.subrange(0x90, 0x94) =~= be_bytes(len1));
    assert(h.subrange(0xAC, 0xB0) =~= be_bytes(len2));
    assert(h.subrange(0xD8, 0xDC) =~= be_bytes(stub_addr));
    assert(h.subrange(0xDC, 0xE0) =~= be_bytes(stub_len));
    assert(h.subrange(0xE0, 0xE4) =~= be_bytes(entry1));
    lemma_word_of_bytes(h, 0x00, off1);
    lemma_word_of_bytes(h, 0x1C, off2);
    lemma_word_of_bytes(h, 0x48, addr1);
    lemma_word_of_bytes(h, 0x64, addr2);
    lemma_word_of_bytes(h, 0x90, len1);
    lemma_word_of_bytes(h, 0xAC, len2);
    lemma_word_of_bytes(h, 0xD8, stub_addr);
    lemma_word_of_bytes(h, 0xDC, stub_len);
    lemma_word_of_bytes(h, 0xE0, entry1);
}

proof fn lemma_sort_sorted(s: Seq<BSImageBSS>)
    requires
        sorted_by_addr(s),
    ensures
        sort_by_addr(s) == s,
    decreases s.len(),
{
    if s.len() > 0 {
        let t = s.drop_last();
        lemma_sort_sorted(t);
        lemma_insert_at(t, s.last(), t.len() as int);
        assert(t.insert(t.len() as int, s.last()) =~= s);
    }
}

/// Writing back a table read from `off` leaves the payload as it was.
proof fn lemma_rewrite_same(p: Seq<u8>, off: int)
    requires
        0 <= off,
        off + BSS_STRIDE * BSS_COUNT <= p.len(),
    ensures
        splice(p, off, bss_bytes(bss_entries(p, off))) == p,
{
    let e = bss_entries(p, off);
    reveal_with_fuel(bss_bytes, 4);
    assert(e.drop_last().drop_last().drop_last() =~= Seq::<BSImageBSS>::empty());
    lemma_be_of_word(p, off);
    lemma_be_of_word(p, off + 4);
    lemma_be_of_word(p, off + 8);
    lemma_be_of_word(p, off + 12);
    lemma_be_of_word(p, off + 16);
    lemma_be_of_word(p, off + 20);
    assert(bss_bytes(e) =~= p.subrange(off, off + 24));
    assert(splice(p, off, p.subrange(off, off + 24)) =~= p);
}

/// A lead-in that decoding recognises: `BS2_PAD` bytes whose probe words
/// announce a lead-in.
pub open spec fn recognised_lead_in(l: Seq<u8>) -> bool {
    l.len() == BS2_PAD && pad_predicate(word_at(l, 0), word_at(l, 8))
}

/// The payload of `m` holds the section tables of `m`, its uninitialised-data
/// table sorted and not subject to the size correction.
pub open spec fn tables_embedded(m: ImageModel) -> bool {
    &&& read_tables_spec(m.bs2_data) matches Ok(raw)
    &&& raw.text_addr == m.text_addr
    &&& raw.text_len == m.text_len
    &&& raw.data_addr == m.data_addr
    &&& raw.data_len == m.data_len
    &&& bss_addrs(raw.bss) == m.bss_addr
    &&& bss_sizes(raw.bss) == m.bss_len
    &&& sorted_by_addr(raw.bss)
    &&& fix_first_size(raw.bss, raw.text_addr[0]) == raw.bss
}

/// The stage-one length, stage-two length and lead-in under which encoding
/// and decoding undo each other: the lengths leave room in their 32-bit
/// fields, the payload is four bytes shorter than its stated length, the
/// lead-in is recognised, and the container reaches past the header fields.
pub open spec fn round_trip_shape(m: ImageModel) -> bool {
    &&& m.bs1_data.len() == m.bs1_len
    &&& m.bs1_len + HEADER_LENGTH + 4 <= u32::MAX
    &&& m.bs2_data.len() + 4 == m.bs2_len
    &&& m.bs2_len + BS2_PAD <= u32::MAX
    &&& m.unk_stuff matches Some(l) && recognised_lead_in(l)
    &&& HEADER_LENGTH + m.bs1_len + 4 + BS2_PAD + m.bs2_data.len() >= HEADER_READ_END
}

/// Where each field of the encoded header is found in the bytes that
/// encoding `m` yields.
proof fn lemma_encoded_header(m: ImageModel)
    requires
        round_trip_shape(m),
    ensures
        ({
            let f = encode_spec(m);
            &&& word_at(f, 0x00) == HEADER_LENGTH
            &&& word_at(f, 0x1C) == HEADER_LENGTH + m.bs1_len + 4
            &&& word_at(f, 0x48) == m.bs1_addr
            &&& word_at(f, 0x64) == m.bs2_addr.wrapping_sub(BS2_PAD)
            &&& word_at(f, 0x90) == m.bs1_len + 4
            &&& word_at(f, 0xAC) == m.bs2_len + BS2_PAD
            &&& word_at(f, 0xD8) == m.stub_addr
            &&& word_at(f, 0xDC) == m.stub_len
            &&& word_at(f, 0xE0) == m.bs1_entry
        }),
{
    let l = m.unk_stuff->0;
    let w0 = word_at(l, 0);
    assert(l[0] == 0x81 && l[1] != 0) by {
        assert(w0 == l[0] as int * 0x1000000 + l[1] as int * 0x10000 + l[2] as int * 0x100
            + l[3] as int);
    }
    assert(lead_in_valid(m.unk_stuff));
    let addr2 = m.bs2_addr.wrapping_sub(BS2_PAD);
    let len2 = m.bs2_len.wrapping_add(BS2_PAD);
    let off2 = (HEADER_LENGTH as u32).wrapping_add(m.bs1_len).wrapping_add(4);
    let len1 = m.bs1_len.wrapping_add(4);
    assert(off2 == HEADER_LENGTH + m.bs1_len + 4);
    assert(len1 == m.bs1_len + 4);
    assert(len2 == m.bs2_len + BS2_PAD);
    let h = header_bytes(
        HEADER_LENGTH as u32,
        off2,
        m.bs1_addr,
        addr2,
        len1,
        len2,
        m.stub_addr,
        m.stub_len,
        m.bs1_entry,
    );
    lemma_header_words(
        HEADER_LENGTH as u32,
        off2,
        m.bs1_addr,
        addr2,
        len1,
        len2,
        m.stub_addr,
        m.stub_len,
        m.bs1_entry,
    );
    let rest = m.bs1_data + be_bytes(m.bs2_entry) + l + m.bs2_data;
    let f = encode_spec(m);
    assert(f =~= h + rest);
    lemma_word_prefix(h, rest, 0x00);
    lemma_word_prefix(h, rest, 0x1C);
    lemma_word_prefix(h, rest, 0x48);
    lemma_word_prefix(h, rest, 0x64);
    lemma_word_prefix(h, rest, 0x90);
    lemma_word_prefix(h, rest, 0xAC);
    lemma_word_prefix(h, rest, 0xD8);
    lemma_word_prefix(h, rest, 0xDC);
    lemma_word_prefix(h, rest, 0xE0);
}

/// Where each field of the encoded header, and each region, is found in
/// the bytes that encoding `m` yields.
#[verifier::rlimit(60)]
proof fn lemma_encoded_layout(m: ImageModel)
    requires
        round_trip_shape(m),
    ensures
        ({
            let f = encode_spec(m);
            let l = m.unk_stuff->0;
            let o2 = HEADER_LENGTH + m.bs1_len + 4;
            &&& f.len() == o2 + BS2_PAD + m.bs2_data.len()
            &&& word_at(f, 0x00) == HEADER_LENGTH
            &&& word_at(f, 0x1C) == o2
            &&& word_at(f, 0x48) == m.bs1_addr
            &&& word_at(f, 0x64) == m.bs2_addr.wrapping_sub(BS2_PAD)
            &&& word_at(f, 0x90) == m.bs1_len + 4
            &&& word_at(f, 0xAC) == m.bs2_len + BS2_PAD
            &&& word_at(f, 0xD8) == m.stub_addr
            &&& word_at(f, 0xDC) == m.stub_len
            &&& word_at(f, 0xE0) == m.bs1_entry
            &&& word_at(f, o2 - 4) == m.bs2_entry
            &&& word_at(f, o2) == word_at(l, 0)
            &&& word_at(f, o2 + 8) == word_at(l, 8)
            &&& f.subrange(HEADER_LENGTH as int, HEADER_LENGTH + m.bs1_len) == m.bs1_data
            &&& f.subrange(o2, o2 + BS2_PAD) == l
            &&& f.subrange(o2 + BS2_PAD, o2 + BS2_PAD + m.bs2_len - 4) == m.bs2_data
        }),
{
    lemma_encoded_header(m);
    let l = m.unk_stuff->0;
    assert(lead_in_valid(m.unk_stuff)) by {
        let w0 = word_at(l, 0);
        assert(w0 == l[0] as int * 0x1000000 + l[1] as int * 0x10000 + l[2] as int * 0x100
            + l[3] as int);
    }
    let off2 = HEADER_LENGTH + m.bs1_len + 4;
    let h = header_bytes(
        HEADER_LENGTH as u32,
        (HEADER_LENGTH as u32).wrapping_add(m.bs1_len).wrapping_add(4),
        m.bs1_addr,
        m.bs2_addr.wrapping_sub(BS2_PAD),
        m.bs1_len.wrapping_add(4),
        m.bs2_len.wrapping_add(BS2_PAD),
        m.stub_addr,
        m.stub_len,
        m.bs1_entry,
    );
    assert(h.len() == HEADER_LENGTH);
    let e = be_bytes(m.bs2_entry);
    let p = m.bs2_data;
    let f = encode_spec(m);
    assert(f == h + m.bs1_data + e + l + p);
    let a = h + m.bs1_data;
    assert(f =~= a + (e + (l + p)));
    lemma_word_prefix(e, l + p, 0);
    lemma_word_shift(a, e + (l + p), 0);
    lemma_word_of_be(m.bs2_entry);
    let b = a + e;
    assert(f =~= b + (l + p));
    lemma_word_prefix(l, p, 0);
    lemma_word_prefix(l, p, 8);
    lemma_word_shift(b, l + p, 0);
    lemma_word_shift(b, l + p, 8);
    assert(f.subrange(HEADER_LENGTH as int, HEADER_LENGTH + m.bs1_len) =~= m.bs1_data);
    assert(f.subrange(off2 as int, off2 + BS2_PAD) =~= l);
    assert(f.subrange(off2 + BS2_PAD, off2 + BS2_PAD + m.bs2_len - 4) =~= p);
}

/// A payload that holds `m`'s own tables, sorted and not subject to the
/// size correction, comes back unchanged from decoding its tables.
proof fn lemma_tables_kept(m: ImageModel)
    requires
        tables_embedded(m),
    ensures
        sections_spec(m.bs2_data) == Ok::<(TablesModel, Seq<u8>), BootStageError>(
            (read_tables_spec(m.bs2_data)->Ok_0, m.bs2_data),
        ),
{
    let p = m.bs2_data;
    let raw = read_tables_spec(p)->Ok_0;
    lemma_sort_sorted(raw.bss);
    lemma_tables_shape(p);
    lemma_scan_found(p, 0, INIT_MEM_BOUND_START, INIT_MEM_BOUND_START);
    let rom = scan(p, 0, INIT_MEM_BOUND_START, INIT_MEM_BOUND_START)->0;
    lemma_scan_found(
        p,
        rom + DESCRIPTOR_STRIDE * (TEXT_COUNT + DATA_COUNT),
        UNINIT_MEM_BOUND_START,
        MEM_BOUND_END,
    );
    lemma_rewrite_same(p, raw.bss_offset);
}

/// Encoding an image and decoding the bytes gives the image back, for any
/// stage-one length, but for the stage-two entry point: decoding reads that
/// from offset 0x4FC, where encoding puts it only after a stage one of
/// 0x3FC bytes. The image has a recognised lead-in, a payload four bytes
/// shorter than its stated length and its own section tables in its payload.
pub proof fn lemma_round_trip_any_stage_one(m: ImageModel)
    requires
        round_trip_shape(m),
        tables_embedded(m),
    ensures
        decode_spec(encode_spec(m)) == Ok::<ImageModel, BootStageError>(
            ImageModel { bs2_entry: word_at(encode_spec(m), 0x4FC), ..m },
        ),
{
    lemma_encoded_layout(m);
    lemma_tables_kept(m);
    assert(m.bs2_addr.wrapping_sub(BS2_PAD).wrapping_add(BS2_PAD) == m.bs2_addr);
}

/// Encoding an image and decoding the bytes gives the image back, where the
/// image has a stage one of 0x3FC bytes (so that the stage-two entry point
/// lands at 0x4FC), a recognised lead-in, a payload four bytes shorter than
/// its stated length, and its own section tables in its payload.
pub proof fn lemma_round_trip(m: ImageModel)
    requires
        m.bs1_len == 0x3FC,
        round_trip_shape(m),
        tables_embedded(m),
    ensures
        decode_spec(encode_spec(m)) == Ok::<ImageModel, BootStageError>(m),
{
    lemma_encoded_layout(m);
    lemma_round_trip_any_stage_one(m);
}

} // verus!
