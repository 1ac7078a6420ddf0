//! Fixed-layout records of the container: the header, the entry records of
//! either version, and the header of an embedded blob.
use vstd::prelude::*;

verus! {

/// Container signature `AML_` read as a little-endian word.
pub const AML_DT_HEADER: u32 = 0x5f4c4d41;

/// Signature of an embedded device-tree blob, read as a little-endian word.
pub const DT_HEADER_MAGIC: u32 = 0xedfe0dd0;

/// The low 16 bits of the first word of a gzip stream.
pub const GZIP_MAGIC: u32 = 0x8b1f;

/// Version of the containers that packing writes.
pub const AML_DT_VERSION: u32 = 2;

/// Size in bytes of the container header.
pub const HEADER_SIZE: usize = 12;

/// The little-endian 32-bit word at `off` in `s`.
pub open spec fn le32(s: Seq<u8>, off: int) -> u32 {
    (s[off] + s[off + 1] * 256 + s[off + 2] * 65536 + s[off + 3] * 16777216) as u32
}

/// The big-endian 32-bit word at `off` in `s`.
pub open spec fn be32(s: Seq<u8>, off: int) -> u32 {
    (s[off + 3] + s[off + 2] * 256 + s[off + 1] * 65536 + s[off] * 16777216) as u32
}

/// The four bytes of `v`, least significant first.
pub open spec fn le_bytes(v: u32) -> Seq<u8> {
    seq![(v % 256) as u8, ((v / 256) % 256) as u8, ((v / 65536) % 256) as u8, (v / 16777216) as u8]
}

/// Reading back the bytes of a word gives the word.
pub proof fn lemma_le32_of_bytes(v: u32)
    ensures
        le32(le_bytes(v), 0) == v,
{
    let b = le_bytes(v);
    assert(b[0] + b[1] * 256 + b[2] * 65536 + b[3] * 16777216 == v);
}

/// The little-endian word at `off` in `buf`.
pub fn read_le32(buf: &[u8], off: usize) -> (r: u32)
    requires
        off + 4 <= buf.len(),
    ensures
        r == le32(buf@, off as int),
{
    buf[off] as u32 + (buf[off + 1] as u32) * 256 + (buf[off + 2] as u32) * 65536 + (buf[off
        + 3] as u32) * 16777216
}

/// The big-endian word at `off` in `buf`.
pub fn read_be32(buf: &[u8], off: usize) -> (r: u32)
    requires
        off + 4 <= buf.len(),
    ensures
        r == be32(buf@, off as int),
{
    buf[off + 3] as u32 + (buf[off + 2] as u32) * 256 + (buf[off + 1] as u32) * 65536 + (
    buf[off] as u32) * 16777216
}

/// Appends the four bytes of `v`, least significant first.
pub fn push_le32(out: &mut Vec<u8>, v: u32)
    ensures
        final(out)@ == old(out)@ + le_bytes(v),
{
    out.push((v % 256) as u8);
    out.push(((v / 256) % 256) as u8);
    out.push(((v / 65536) % 256) as u8);
    out.push((v / 16777216) as u8);
    assert(final(out)@ =~= old(out)@ + le_bytes(v));
}

/// Appends the bytes of `src` from `start` up to `end`.
pub fn append_range(out: &mut Vec<u8>, src: &[u8], start: usize, end: usize)
    requires
        start <= end <= src@.len(),
    ensures
        final(out)@ == old(out)@ + src@.subrange(start as int, end as int),
{
    let ghost o = out@;
    let mut i: usize = start;
    while i < end
        invariant
            start <= i <= end <= src@.len(),
            out@ == o + src@.subrange(start as int, i as int),
        decreases end - i,
    {
        out.push(src[i]);
        i = i + 1;
        assert(out@ =~= o + src@.subrange(start as int, i as int));
    }
}

/// A record with a fixed byte layout on disk.
pub trait AsByteSlice {
    /// The bytes of the record, in on-disk order.
    spec fn spec_bytes(&self) -> Seq<u8>;

    /// The bytes of the record, in on-disk order.
    fn as_slice(&self) -> (r: Vec<u8>)
        ensures
            r@ == self.spec_bytes(),
    ;
}

/// The container header.
pub struct Header {
    pub magic: u32,
    pub version: u32,
    pub entry_count: u32,
}

impl Header {
    /// The header that the first bytes of `s` hold.
    pub open spec fn spec_parse(s: Seq<u8>) -> Header {
        Header { magic: le32(s, 0), version: le32(s, 4), entry_count: le32(s, 8) }
    }

    /// The header at the start of `buf`; `None` where `buf` is too short.
    pub fn parse(buf: &[u8]) -> (r: Option<Header>)
        ensures
            r is Some <==> buf@.len() >= HEADER_SIZE,
            r matches Some(h) ==> h == Header::spec_parse(buf@),
    {
        if buf.len() < HEADER_SIZE {
            None
        } else {
            Some(
                Header {
                    magic: read_le32(buf, 0),
                    version: read_le32(buf, 4),
                    entry_count: read_le32(buf, 8),
                },
            )
        }
    }
}

impl AsByteSlice for Header {
    open spec fn spec_bytes(&self) -> Seq<u8> {
        le_bytes(self.magic) + le_bytes(self.version) + le_bytes(self.entry_count)
    }

    fn as_slice(&self) -> (r: Vec<u8>) {
        let mut r: Vec<u8> = Vec::new();
        push_le32(&mut r, self.magic);
        push_le32(&mut r, self.version);
        push_le32(&mut r, self.entry_count);
        assert(r@ =~= self.spec_bytes());
        r
    }
}

/// The header of an embedded device-tree blob: its signature, and its total
/// size, which the blob stores big-endian.
pub struct DTHeader {
    pub magic: u32,
    pub totalsize: u32,
}

impl DTHeader {
    /// The blob header that `s` holds at `off`.
    pub open spec fn spec_parse(s: Seq<u8>, off: int) -> DTHeader {
        DTHeader { magic: le32(s, off), totalsize: be32(s, off + 4) }
    }

    /// The blob header at `off` in `buf`; `None` where `buf` ends before it.
    pub fn parse(buf: &[u8], off: usize) -> (r: Option<DTHeader>)
        ensures
            r is Some <==> off + 8 <= buf@.len(),
            r matches Some(h) ==> h == DTHeader::spec_parse(buf@, off as int),
    {
        if off > buf.len() || buf.len() - off < 8 {
            None
        } else {
            Some(DTHeader { magic: read_le32(buf, off), totalsize: read_be32(buf, off + 4) })
        }
    }
}

/// What an entry record holds, as values.
pub struct EntryView {
    pub soc: Seq<u8>,
    pub plat: Seq<u8>,
    pub vari: Seq<u8>,
    pub offset: u32,
    pub dtb_size: u32,
}

/// Size in bytes of an entry record whose identifier fields are `id_size`
/// bytes wide.
pub open spec fn entry_size(id_size: nat) -> nat {
    3 * id_size + 8
}

/// The entry record with `id_size`-byte identifier fields at `off` in `s`.
pub open spec fn entry_at(s: Seq<u8>, off: int, id_size: nat) -> EntryView {
    EntryView {
        soc: s.subrange(off, off + id_size),
        plat: s.subrange(off + id_size, off + 2 * id_size),
        vari: s.subrange(off + 2 * id_size, off + 3 * id_size),
        offset: le32(s, off + 3 * id_size),
        dtb_size: le32(s, off + 3 * id_size + 4),
    }
}

/// The bytes of an entry record.
pub open spec fn entry_bytes(e: EntryView) -> Seq<u8> {
    e.soc + e.plat + e.vari + le_bytes(e.offset) + le_bytes(e.dtb_size)
}

/// An entry record: three identifier fields of `ID_SIZE` bytes, stored with
/// each 4-byte word reversed, then the blob's offset and size.
pub struct HeaderEntry<const ID_SIZE: usize> {
    pub soc: Vec<u8>,
    pub plat: Vec<u8>,
    pub vari: Vec<u8>,
    pub offset: u32,
    pub dtb_size: u32,
}

impl<const ID_SIZE: usize> View for HeaderEntry<ID_SIZE> {
    type V = EntryView;

    open spec fn view(&self) -> EntryView {
        EntryView {
            soc: self.soc@,
            plat: self.plat@,
            vari: self.vari@,
            offset: self.offset,
            dtb_size: self.dtb_size,
        }
    }
}

impl<const ID_SIZE: usize> HeaderEntry<ID_SIZE> {
    /// Its identifier fields have the width of the layout.
    pub open spec fn wf(&self) -> bool {
        self.soc@.len() == ID_SIZE && self.plat@.len() == ID_SIZE && self.vari@.len() == ID_SIZE
    }

    /// An entry with NUL identifier fields, offset and size zero.
    pub fn new() -> (r: HeaderEntry<ID_SIZE>)
        ensures
            r.wf(),
            r@.soc == Seq::new(ID_SIZE as nat, |i: int| 0u8),
            r@.plat == Seq::new(ID_SIZE as nat, |i: int| 0u8),
            r@.vari == Seq::new(ID_SIZE as nat, |i: int| 0u8),
            r.offset == 0,
            r.dtb_size == 0,
    {
        let r = HeaderEntry {
            soc: vec![0u8; ID_SIZE],
            plat: vec![0u8; ID_SIZE],
            vari: vec![0u8; ID_SIZE],
            offset: 0,
            dtb_size: 0,
        };
        assert(r@.soc =~= Seq::new(ID_SIZE as nat, |i: int| 0u8));
        assert(r@.plat =~= Seq::new(ID_SIZE as nat, |i: int| 0u8));
        assert(r@.vari =~= Seq::new(ID_SIZE as nat, |i: int| 0u8));
        r
    }

    /// The entry record at `off` in `buf`; `None` where `buf` ends before it.
    pub fn parse(buf: &[u8], off: usize) -> (r: Option<HeaderEntry<ID_SIZE>>)
        requires
            ID_SIZE <= 16,
        ensures
            r is Some <==> off + entry_size(ID_SIZE as nat) <= buf@.len(),
            r matches Some(e) ==> e.wf() && e@ == entry_at(buf@, off as int, ID_SIZE as nat),
    {
        if off > buf.len() || buf.len() - off < 3 * ID_SIZE + 8 {
            return None;
        }
        let a = off + ID_SIZE;
        let b = a + ID_SIZE;
        let c = b + ID_SIZE;
        let mut soc: Vec<u8> = Vec::new();
        append_range(&mut soc, buf, off, a);
        let mut plat: Vec<u8> = Vec::new();
        append_range(&mut plat, buf, a, b);
        let mut vari: Vec<u8> = Vec::new();
        append_range(&mut vari, buf, b, c);
        assert(soc@ =~= buf@.subrange(off as int, a as int));
        assert(plat@ =~= buf@.subrange(a as int, b as int));
        assert(vari@ =~= buf@.subrange(b as int, c as int));
        Some(
            HeaderEntry {
                soc,
                plat,
                vari,
                offset: read_le32(buf, c),
                dtb_size: read_le32(buf, c + 4),
            },
        )
    }
}

impl<const ID_SIZE: usize> AsByteSlice for HeaderEntry<ID_SIZE> {
    open spec fn spec_bytes(&self) -> Seq<u8> {
        entry_bytes(self@)
    }

    fn as_slice(&self) -> (r: Vec<u8>) {
        let mut r: Vec<u8> = Vec::new();
        append_range(&mut r, self.soc.as_slice(), 0, self.soc.len());
        append_range(&mut r, self.plat.as_slice(), 0, self.plat.len());
        append_range(&mut r, self.vari.as_slice(), 0, self.vari.len());
        assert(self.soc@.subrange(0, self.soc@.len() as int) =~= self.soc@);
        assert(self.plat@.subrange(0, self.plat@.len() as int) =~= self.plat@);
        assert(self.vari@.subrange(0, self.vari@.len() as int) =~= self.vari@);
        push_le32(&mut r, self.offset);
        push_le32(&mut r, self.dtb_size);
        assert(r@ =~= self.spec_bytes());
        r
    }
}

} // verus!
