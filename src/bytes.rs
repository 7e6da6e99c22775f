//! Big-endian words in byte buffers: reading, writing and scanning.
use vstd::prelude::*;

verus! {

/// The big-endian 32-bit word stored at `off` in `s`.
pub open spec fn word_at(s: Seq<u8>, off: int) -> u32 {
    (s[off] as int * 0x1000000 + s[off + 1] as int * 0x10000 + s[off + 2] as int * 0x100
        + s[off + 3] as int) as u32
}

/// The big-endian 16-bit word stored at `off` in `s`.
pub open spec fn half_at(s: Seq<u8>, off: int) -> u16 {
    (s[off] as int * 0x100 + s[off + 1] as int) as u16
}

/// The four big-endian bytes of `v`.
pub open spec fn be_bytes(v: u32) -> Seq<u8> {
    seq![
        (v / 0x1000000) as u8,
        (v / 0x10000 % 0x100) as u8,
        (v / 0x100 % 0x100) as u8,
        (v % 0x100) as u8,
    ]
}

/// Reads the big-endian word at `offset`.
pub fn read_u32_from_buf(buffer: &Vec<u8>, offset: usize) -> (r: u32)
    requires
        offset + 4 <= buffer.len(),
    ensures
        r == word_at(buffer@, offset as int),
{
    let b0 = buffer[offset] as u32;
    let b1 = buffer[offset + 1] as u32;
    let b2 = buffer[offset + 2] as u32;
    let b3 = buffer[offset + 3] as u32;
    b0 * 0x1000000 + b1 * 0x10000 + b2 * 0x100 + b3
}


/// `s` with the bytes from `off` on replaced by `w`.
pub open spec fn splice(s: Seq<u8>, off: int, w: Seq<u8>) -> Seq<u8> {
    s.subrange(0, off) + w + s.subrange(off + w.len(), s.len() as int)
}

/// `n` zero bytes.
pub open spec fn zeros(n: nat) -> Seq<u8> {
    Seq::new(n, |i: int| 0u8)
}

/// The bytes of `words`, each written big-endian, in order.
pub open spec fn words_bytes(words: Seq<u32>) -> Seq<u8>
    decreases words.len(),
{
    if words.len() == 0 {
        Seq::empty()
    } else {
        words_bytes(words.drop_last()) + be_bytes(words.last())
    }
}

/// Position of the first word in `[lo, hi]` met by a forward scan of `s` in
/// 4-byte steps from `start`, among the words that lie wholly inside `s`.
pub open spec fn scan(s: Seq<u8>, start: int, lo: u32, hi: u32) -> Option<int>
    decreases s.len() - start,
{
    if start < 0 || start + 4 > s.len() {
        None
    } else if lo <= word_at(s, start) <= hi {
        Some(start)
    } else {
        scan(s, start + 4, lo, hi)
    }
}

/// A position found by `scan` holds a matching word, wholly inside `s`.
pub proof fn lemma_scan_found(s: Seq<u8>, start: int, lo: u32, hi: u32)
    ensures
        scan(s, start, lo, hi) matches Some(p) ==> start <= p && p + 4 <= s.len() && lo
            <= word_at(s, p) <= hi,
    decreases s.len() - start,
{
    if start >= 0 && start + 4 <= s.len() && !(lo <= word_at(s, start) <= hi) {
        lemma_scan_found(s, start + 4, lo, hi);
    }
}

/// Where no word of `s` at a multiple of four lies in `[lo, hi]`, no scan
/// from such a position finds one.
pub proof fn lemma_scan_none(s: Seq<u8>, start: int, lo: u32, hi: u32)
    requires
        start % 4 == 0,
        forall|i: int|
            0 <= i && i + 4 <= s.len() && i % 4 == 0 ==> !(lo <= #[trigger] word_at(s, i) <= hi),
    ensures
        scan(s, start, lo, hi) is None,
    decreases s.len() - start,
{
    if start >= 0 && start + 4 <= s.len() {
        lemma_scan_none(s, start + 4, lo, hi);
    }
}

/// Reading back the bytes of a word gives the word.
pub proof fn lemma_word_of_be(v: u32)
    ensures
        word_at(be_bytes(v), 0) == v,
{
    let b = be_bytes(v);
    assert(((v / 0x1000000) as u8) as u32 * 0x1000000 + ((v / 0x10000 % 0x100) as u8) as u32
        * 0x10000 + ((v / 0x100 % 0x100) as u8) as u32 * 0x100 + ((v % 0x100) as u8) as u32 == v)
        by (bit_vector);
}

/// The bytes of the word at `k` are the bytes stored there.
pub proof fn lemma_be_of_word(s: Seq<u8>, k: int)
    requires
        0 <= k,
        k + 4 <= s.len(),
    ensures
        be_bytes(word_at(s, k)) == s.subrange(k, k + 4),
{
    let b0 = s[k];
    let b1 = s[k + 1];
    let b2 = s[k + 2];
    let b3 = s[k + 3];
    let w = word_at(s, k);
    assert(w == (b0 as u32) * 0x1000000 + (b1 as u32) * 0x10000 + (b2 as u32) * 0x100 + (
    b3 as u32));
    assert(((((b0 as u32) * 0x1000000 + (b1 as u32) * 0x10000 + (b2 as u32) * 0x100 + (b3 as u32))
        as u32) / 0x1000000) as u8 == b0 && ((((b0 as u32) * 0x1000000 + (b1 as u32) * 0x10000 + (
    b2 as u32) * 0x100 + (b3 as u32)) as u32) / 0x10000 % 0x100) as u8 == b1 && ((((b0 as u32)
        * 0x1000000 + (b1 as u32) * 0x10000 + (b2 as u32) * 0x100 + (b3 as u32)) as u32) / 0x100
        % 0x100) as u8 == b2 && ((((b0 as u32) * 0x1000000 + (b1 as u32) * 0x10000 + (b2 as u32)
        * 0x100 + (b3 as u32)) as u32) % 0x100) as u8 == b3) by (bit_vector);
    assert(be_bytes(w) =~= s.subrange(k, k + 4));
}

/// A word that lies in the first part of a concatenation.
pub proof fn lemma_word_prefix(a: Seq<u8>, b: Seq<u8>, k: int)
    requires
        0 <= k,
        k + 4 <= a.len(),
    ensures
        word_at(a + b, k) == word_at(a, k),
{
    assert((a + b)[k] == a[k]);
    assert((a + b)[k + 1] == a[k + 1]);
    assert((a + b)[k + 2] == a[k + 2]);
    assert((a + b)[k + 3] == a[k + 3]);
}

/// A word that lies in the second part of a concatenation.
pub proof fn lemma_word_shift(a: Seq<u8>, b: Seq<u8>, k: int)
    requires
        0 <= k,
        k + 4 <= b.len(),
    ensures
        word_at(a + b, a.len() + k) == word_at(b, k),
{
    assert((a + b)[a.len() + k] == b[k]);
    assert((a + b)[a.len() + k + 1] == b[k + 1]);
    assert((a + b)[a.len() + k + 2] == b[k + 2]);
    assert((a + b)[a.len() + k + 3] == b[k + 3]);
}

/// A word whose four bytes are those of `v`.
pub proof fn lemma_word_of_bytes(s: Seq<u8>, k: int, v: u32)
    requires
        0 <= k,
        k + 4 <= s.len(),
        s.subrange(k, k + 4) == be_bytes(v),
    ensures
        word_at(s, k) == v,
{
    lemma_word_of_be(v);
    let w = s.subrange(k, k + 4);
    assert(w[0] == s[k] && w[1] == s[k + 1] && w[2] == s[k + 2] && w[3] == s[k + 3]);
}

/// Reads the big-endian half-word at `offset`.
pub fn read_u16_from_buf(buffer: &Vec<u8>, offset: usize) -> (r: u16)
    requires
        offset + 2 <= buffer.len(),
    ensures
        r == half_at(buffer@, offset as int),
{
    let b0 = buffer[offset] as u16;
    let b1 = buffer[offset + 1] as u16;
    b0 * 0x100 + b1
}

/// Copies `size` bytes from `offset` on.
pub fn read_u8s_from_buf(buffer: &Vec<u8>, size: usize, offset: usize) -> (r: Vec<u8>)
    requires
        offset + size <= buffer.len(),
    ensures
        r@ == buffer@.subrange(offset as int, offset + size),
{
    let mut temp: Vec<u8> = Vec::with_capacity(size);
    let mut i: usize = 0;
    while i < size
        invariant
            offset + size <= buffer.len(),
            i <= size,
            temp@ == buffer@.subrange(offset as int, offset + i),
        decreases size - i,
    {
        temp.push(buffer[offset + i]);
        i += 1;
        assert(temp@ =~= buffer@.subrange(offset as int, offset + i));
    }
    temp
}

/// Splits `value` into its four big-endian bytes.
fn u32_to_be(value: u32) -> (r: [u8; 4])
    ensures
        r@ == be_bytes(value),
{
    let r = [
        (value / 0x1000000) as u8,
        (value / 0x10000 % 0x100) as u8,
        (value / 0x100 % 0x100) as u8,
        (value % 0x100) as u8,
    ];
    assert(r@ =~= be_bytes(value));
    r
}

/// Overwrites the four bytes at `offset` with `value`, big-endian.
pub fn write_u32_from_buf(buffer: &mut Vec<u8>, offset: usize, value: u32)
    requires
        offset + 4 <= old(buffer).len(),
    ensures
        final(buffer)@ == splice(old(buffer)@, offset as int, be_bytes(value)),
{
    let temp = u32_to_be(value);
    buffer.set(offset, temp[0]);
    buffer.set(offset + 1, temp[1]);
    buffer.set(offset + 2, temp[2]);
    buffer.set(offset + 3, temp[3]);
    assert(buffer@ =~= splice(old(buffer)@, offset as int, be_bytes(value)));
}

/// Appends `value` as four big-endian bytes.
pub fn push_u32(out: &mut Vec<u8>, value: u32)
    ensures
        final(out)@ == old(out)@ + be_bytes(value),
{
    let temp = u32_to_be(value);
    out.push(temp[0]);
    out.push(temp[1]);
    out.push(temp[2]);
    out.push(temp[3]);
    assert(out@ =~= old(out)@ + be_bytes(value));
}

/// Appends `size` zero bytes.
pub fn write_blank(out: &mut Vec<u8>, size: usize)
    ensures
        final(out)@ == old(out)@ + zeros(size as nat),
{
    let mut i: usize = 0;
    while i < size
        invariant
            i <= size,
            out@ == old(out)@ + zeros(i as nat),
        decreases size - i,
    {
        out.push(0u8);
        i += 1;
        assert(out@ =~= old(out)@ + zeros(i as nat));
    }
}

/// Appends the bytes of `data`.
pub fn push_bytes(out: &mut Vec<u8>, data: &Vec<u8>)
    ensures
        final(out)@ == old(out)@ + data@,
{
    let mut i: usize = 0;
    while i < data.len()
        invariant
            i <= data.len(),
            out@ == old(out)@ + data@.subrange(0, i as int),
        decreases data.len() - i,
    {
        out.push(data[i]);
        i += 1;
        assert(out@ =~= old(out)@ + data@.subrange(0, i as int));
    }
    assert(data@.subrange(0, data@.len() as int) =~= data@);
}

/// Offset of the first word in `[min, max]` found scanning forward in 4-byte
/// steps from `offset`, or `None` where the buffer ends first.
pub fn find_u32_from_buf_range(buffer: &Vec<u8>, min: u32, max: u32, offset: usize) -> (r: Option<
    usize,
>)
    ensures
        r matches Some(p) ==> scan(buffer@, offset as int, min, max) == Some(p as int),
        r is None ==> scan(buffer@, offset as int, min, max) is None,
{
    let mut cur = offset;
    while cur <= buffer.len() && buffer.len() - cur >= 4
        invariant
            offset <= cur,
            (cur - offset) % 4 == 0,
            scan(buffer@, offset as int, min, max) == scan(buffer@, cur as int, min, max),
        decreases buffer.len() + 4 - cur,
    {
        let word = read_u32_from_buf(buffer, cur);
        if min <= word && word <= max {
            return Some(cur);
        }
        cur += 4;
    }
    None
}

/// Offset of the first word equal to `value` found scanning forward in
/// 4-byte steps from `offset`, or `None` where the buffer ends first.
pub fn find_u32_from_buf(buffer: &Vec<u8>, value: u32, offset: usize) -> (r: Option<usize>)
    ensures
        r matches Some(p) ==> scan(buffer@, offset as int, value, value) == Some(p as int),
        r is None ==> scan(buffer@, offset as int, value, value) is None,
{
    find_u32_from_buf_range(buffer, value, value, offset)
}

} // verus!
