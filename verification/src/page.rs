//! A fixed-size page of bytes and little-endian `u16` fields stored in it.
use vstd::prelude::*;

verus! {

/// Number of bytes in a page.
pub const PAGE_SIZE: usize = 4096;

/// Bytes at the start of every page that are reserved for the page header.
pub const PAGE_FIXED_HEADER_LEN: usize = 16;

/// Number of bytes used to store an offset inside a page.
pub const OFFSET_NUM_BYTES: usize = 2;

/// The little-endian `u16` stored at `off` and `off + 1` of `s`.
pub open spec fn spec_u16_at(s: Seq<u8>, off: int) -> int {
    s[off] as int + 256 * (s[off + 1] as int)
}

/// `s` with the little-endian `u16` value `v` stored at `off` and `off + 1`.
pub open spec fn spec_set_u16(s: Seq<u8>, off: int, v: int) -> Seq<u8> {
    s.update(off, (v % 256) as u8).update(off + 1, (v / 256) as u8)
}

/// `s` with the bytes of `src` stored from position `pos` on.
pub open spec fn spec_write_bytes(s: Seq<u8>, pos: int, src: Seq<u8>) -> Seq<u8> {
    Seq::new(
        s.len(),
        |j: int|
            if pos <= j < pos + src.len() {
                src[j - pos]
            } else {
                s[j]
            },
    )
}

/// Reading back a `u16` that was just stored gives the stored value, and the
/// stored bytes are the only ones that change.
pub proof fn lemma_set_u16(s: Seq<u8>, off: int, v: int)
    requires
        0 <= off,
        off + 1 < s.len(),
        0 <= v < 0x10000,
    ensures
        spec_u16_at(spec_set_u16(s, off, v), off) == v,
        spec_set_u16(s, off, v).len() == s.len(),
        forall|j: int|
            0 <= j < s.len() && j != off && j != off + 1 ==> #[trigger] spec_set_u16(s, off, v)[j]
                == s[j],
{
}

/// A page: exactly `PAGE_SIZE` bytes.
pub struct Page {
    data: [u8; PAGE_SIZE],
}

impl View for Page {
    type V = Seq<u8>;

    closed spec fn view(&self) -> Seq<u8> {
        self.data@
    }
}

/// Every page holds exactly `PAGE_SIZE` bytes.
pub broadcast proof fn lemma_page_len(p: &Page)
    ensures
        #[trigger] p@.len() == PAGE_SIZE,
{
}

impl Page {
    /// A page whose bytes are all zero.
    pub fn new() -> (p: Page)
        ensures
            p@ == Seq::new(PAGE_SIZE as nat, |i: int| 0u8),
    {
        let p = Page { data: [0u8; PAGE_SIZE] };
        assert(p@ =~= Seq::new(PAGE_SIZE as nat, |i: int| 0u8));
        p
    }


    /// The byte at position `i`.
    pub fn byte_at(&self, i: usize) -> (b: u8)
        requires
            i < PAGE_SIZE,
        ensures
            b == self@[i as int],
    {
        self.data[i]
    }

    /// The little-endian `u16` stored at `off`.
    pub fn read_u16(&self, off: usize) -> (v: u16)
        requires
            off + 1 < PAGE_SIZE,
        ensures
            v == spec_u16_at(self@, off as int),
    {
        let lo = self.data[off] as u16;
        let hi = self.data[off + 1] as u16;
        lo + hi * 256
    }

    /// Store `v` in little-endian order at `off`.
    pub fn write_u16(&mut self, off: usize, v: u16)
        requires
            off + 1 < PAGE_SIZE,
        ensures
            final(self)@ == spec_set_u16(old(self)@, off as int, v as int),
    {
        self.data[off] = (v % 256) as u8;
        self.data[off + 1] = (v / 256) as u8;
    }

    /// Copy `src` into the page from position `pos` on.
    pub fn write_bytes(&mut self, pos: usize, src: &[u8])
        requires
            pos + src@.len() <= PAGE_SIZE,
        ensures
            final(self)@ == spec_write_bytes(old(self)@, pos as int, src@),
    {
        let ghost s0 = self@;
        let mut i: usize = 0;
        while i < src.len()
            invariant
                pos + src@.len() <= PAGE_SIZE,
                i <= src@.len(),
                self@.len() == PAGE_SIZE,
                forall|j: int|
                    0 <= j < PAGE_SIZE ==> #[trigger] self@[j] == if pos <= j < pos + i {
                        src@[j - pos]
                    } else {
                        s0[j]
                    },
            decreases src@.len() - i,
        {
            self.data[pos + i] = src[i];
            i = i + 1;
        }
        assert(self@ =~= spec_write_bytes(s0, pos as int, src@));
    }

    /// The bytes from position `a` up to `b`.
    pub fn slice(&self, a: usize, b: usize) -> (out: &[u8])
        requires
            a <= b <= PAGE_SIZE,
        ensures
            out@ == self@.subrange(a as int, b as int),
    {
        vstd::slice::slice_subrange(self.data.as_slice(), a, b)
    }
}

} // verus!
