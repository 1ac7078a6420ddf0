//! Packing device-tree blobs into a container.
use vstd::prelude::*;
use crate::ident::{
    components, copied, copy_str_to_cstr, padded, pad_spaces, split_identifier, swap_words,
    word_swapped, INFO_ENTRY_SIZE,
};
use crate::layout::{
    append_range, entry_bytes, le_bytes, push_le32, AsByteSlice, EntryView, Header, HeaderEntry,
    AML_DT_HEADER, AML_DT_VERSION, HEADER_SIZE,
};
use crate::outside::{dt_lookup_str, dt_prop_str};

verus! {

/// Size in bytes of a version 2 entry record.
pub const ENTRY_SIZE_V2: usize = 56;

/// Size in bytes of the status word that follows the entry table.
pub const STATUS_SIZE: usize = 4;

/// Why no container was packed.
#[derive(PartialEq, Eq, Structural, Debug, Clone, Copy)]
pub enum PackError {
    /// No input carried a usable identifier.
    Empty,
    /// An offset or a size would not fit in a 32-bit field.
    TooLarge,
}

/// One blob to pack, as values.
pub struct ChipView {
    pub chipset: Seq<u8>,
    pub platform: Seq<u8>,
    pub rev_num: Seq<u8>,
    pub dtb_size: u32,
    pub dtb_file: Seq<u8>,
}

/// One blob to pack: its identifiers as copied from its identifier property
/// (before padding and word reversal), the size its entry records, and its
/// bytes.
pub struct ChipInfo {
    pub chipset: Vec<u8>,
    pub platform: Vec<u8>,
    pub rev_num: Vec<u8>,
    pub dtb_size: u32,
    pub dtb_file: Vec<u8>,
}

impl View for ChipInfo {
    type V = ChipView;

    open spec fn view(&self) -> ChipView {
        ChipView {
            chipset: self.chipset@,
            platform: self.platform@,
            rev_num: self.rev_num@,
            dtb_size: self.dtb_size,
            dtb_file: self.dtb_file@,
        }
    }
}

/// The identifier fields have the width of a version 2 entry.
pub open spec fn chip_wf(c: ChipView) -> bool {
    c.chipset.len() == INFO_ENTRY_SIZE && c.platform.len() == INFO_ENTRY_SIZE && c.rev_num.len()
        == INFO_ENTRY_SIZE
}

/// A field of NUL bytes.
pub open spec fn zeros(n: nat) -> Seq<u8> {
    Seq::new(n, |i: int| 0u8)
}

impl ChipInfo {
    /// A chip with NUL identifier fields, size zero and no bytes.
    pub fn new() -> (r: ChipInfo)
        ensures
            chip_wf(r@),
            r@.chipset == zeros(INFO_ENTRY_SIZE as nat),
            r@.platform == zeros(INFO_ENTRY_SIZE as nat),
            r@.rev_num == zeros(INFO_ENTRY_SIZE as nat),
            r.dtb_size == 0,
            r@.dtb_file.len() == 0,
    {
        let r = ChipInfo {
            chipset: vec![0u8; INFO_ENTRY_SIZE],
            platform: vec![0u8; INFO_ENTRY_SIZE],
            rev_num: vec![0u8; INFO_ENTRY_SIZE],
            dtb_size: 0,
            dtb_file: Vec::new(),
        };
        assert(r@.chipset =~= zeros(INFO_ENTRY_SIZE as nat));
        assert(r@.platform =~= zeros(INFO_ENTRY_SIZE as nat));
        assert(r@.rev_num =~= zeros(INFO_ENTRY_SIZE as nat));
        r
    }
}

/// The size an entry records for a blob of `len` bytes: `len` rounded up to
/// the next page boundary, a whole page more where `len` is already aligned.
pub open spec fn padded_size(len: int, page_size: int) -> int {
    len + (page_size - len % page_size)
}

/// The zero bytes that follow a blob of `len` bytes: up to the next page
/// boundary, none where `len` is already aligned.
pub open spec fn filler_size(len: int, page_size: int) -> int {
    if len % page_size == 0 {
        0
    } else {
        page_size - len % page_size
    }
}

/// What `get_chip_info` makes of the blob `blob` whose identifier property
/// is `id`.
pub open spec fn chip_of(blob: Seq<u8>, id: Seq<u8>, page_size: int) -> Option<ChipView> {
    let parts = components(id);
    let z = zeros(INFO_ENTRY_SIZE as nat);
    if parts.len() != 3 || padded_size(blob.len() as int, page_size) > u32::MAX {
        None
    } else {
        Some(
            ChipView {
                chipset: copied(z, parts[0]),
                platform: copied(z, parts[1]),
                rev_num: copied(z, parts[2]),
                dtb_size: padded_size(blob.len() as int, page_size) as u32,
                dtb_file: blob,
            },
        )
    }
}

/// The property that holds a blob's identifier.
pub open spec fn id_tag() -> Seq<char> {
    "amlogic-dt-id"@
}

/// What `get_chip_info` makes of the device-tree blob `blob`.
pub open spec fn chip_of_blob(blob: Seq<u8>, page_size: int) -> Option<ChipView> {
    match dt_prop_str(blob, "/"@, id_tag()) {
        Some(id) => chip_of(blob, id, page_size),
        None => None,
    }
}

/// The values an optional chip holds.
pub open spec fn chip_view(r: Option<ChipInfo>) -> Option<ChipView> {
    match r {
        Some(c) => Some(c@),
        None => None,
    }
}

/// The chip for `blob` given the identifier property it carries; `None`
/// where the identifier does not have three components, or where the padded
/// size does not fit in 32 bits.
pub fn chip_info_from(blob: Vec<u8>, id: &[u8], page_size: u32) -> (r: Option<ChipInfo>)
    requires
        page_size > 0,
    ensures
        chip_view(r) == chip_of(blob@, id@, page_size as int),
{
    let (a, b, c) = match split_identifier(id) {
        Some(t) => t,
        None => return None,
    };
    if blob.len() as u64 > u32::MAX as u64 {
        return None;
    }
    let len = blob.len() as u64;
    let size: u64 = len + (page_size as u64 - len % page_size as u64);
    if size > u32::MAX as u64 {
        return None;
    }
    let mut chip = ChipInfo::new();
    copy_str_to_cstr(&mut chip.chipset, a.as_slice());
    copy_str_to_cstr(&mut chip.platform, b.as_slice());
    copy_str_to_cstr(&mut chip.rev_num, c.as_slice());
    chip.dtb_size = size as u32;
    chip.dtb_file = blob;
    Some(chip)
}

/// The chip for the device-tree blob `blob`, from its root node's identifier
/// property; `None` where the blob has no such property or its identifier is
/// unusable.
pub fn get_chip_info(blob: Vec<u8>, page_size: u32) -> (r: Option<ChipInfo>)
    requires
        page_size > 0,
    ensures
        chip_view(r) == chip_of_blob(blob@, page_size as int),
{
    match dt_lookup_str(blob.as_slice(), "/", "amlogic-dt-id") {
        Some(id) => chip_info_from(blob, id.as_slice(), page_size),
        None => None,
    }
}

/// Offset of the first blob in a container of `count` entries: past the
/// header, the entry table and the status word, then rounded up to the next
/// page boundary, a whole page more where it is already aligned.
pub open spec fn first_offset(count: int, page_size: int) -> int {
    padded_size(HEADER_SIZE + ENTRY_SIZE_V2 * count + STATUS_SIZE, page_size)
}

/// The sizes that the entries of `cs` record, summed.
pub open spec fn sum_sizes(cs: Seq<ChipView>) -> int
    decreases cs.len(),
{
    if cs.len() == 0 {
        0
    } else {
        sum_sizes(cs.drop_last()) + cs.last().dtb_size
    }
}

/// The entry of chip `c` whose blob stands at `off`.
pub open spec fn chip_entry(c: ChipView, off: int) -> EntryView {
    EntryView {
        soc: word_swapped(padded(c.chipset)),
        plat: word_swapped(padded(c.platform)),
        vari: word_swapped(padded(c.rev_num)),
        offset: off as u32,
        dtb_size: c.dtb_size,
    }
}

/// Offset that the entry of chip `i` of `cs` records.
pub open spec fn chip_offset(cs: Seq<ChipView>, i: int, page_size: int) -> int {
    first_offset(cs.len() as int, page_size) + sum_sizes(cs.take(i))
}

/// The entry table for `cs`, the first blob at `first`.
pub open spec fn table_bytes(cs: Seq<ChipView>, first: int) -> Seq<u8>
    decreases cs.len(),
{
    if cs.len() == 0 {
        Seq::empty()
    } else {
        table_bytes(cs.drop_last(), first) + entry_bytes(
            chip_entry(cs.last(), first + sum_sizes(cs.drop_last())),
        )
    }
}

/// The blobs of `cs`, each followed by its filler.
pub open spec fn blob_bytes(cs: Seq<ChipView>, page_size: int) -> Seq<u8>
    decreases cs.len(),
{
    if cs.len() == 0 {
        Seq::empty()
    } else {
        blob_bytes(cs.drop_last(), page_size) + cs.last().dtb_file + zeros(
            filler_size(cs.last().dtb_file.len() as int, page_size) as nat,
        )
    }
}

/// The bytes of the header of a container of `count` entries.
pub open spec fn header_bytes(count: int) -> Seq<u8> {
    le_bytes(AML_DT_HEADER) + le_bytes(AML_DT_VERSION) + le_bytes(count as u32)
}

/// What packing the chips `cs` gives.
pub open spec fn packed(cs: Seq<ChipView>, page_size: int) -> Result<Seq<u8>, PackError> {
    let count = cs.len() as int;
    let first = first_offset(count, page_size);
    let base = HEADER_SIZE + ENTRY_SIZE_V2 * count + STATUS_SIZE;
    if count == 0 {
        Err(PackError::Empty)
    } else if first + sum_sizes(cs) > u32::MAX {
        Err(PackError::TooLarge)
    } else {
        Ok(
            header_bytes(count) + table_bytes(cs, first) + le_bytes(0) + zeros((first - base) as nat)
                + blob_bytes(cs, page_size),
        )
    }
}

/// The values a packing's result holds.
pub open spec fn pack_view(r: Result<Vec<u8>, PackError>) -> Result<Seq<u8>, PackError> {
    match r {
        Ok(v) => Ok(v@),
        Err(e) => Err(e),
    }
}

/// The views of `chips`.
pub open spec fn chip_views(chips: Seq<ChipInfo>) -> Seq<ChipView> {
    chips.map_values(|c: ChipInfo| c@)
}

/// The sizes of a prefix of `cs` sum to no more than those of `cs`.
pub proof fn lemma_sum_prefix(cs: Seq<ChipView>, k: int)
    requires
        0 <= k <= cs.len(),
    ensures
        0 <= sum_sizes(cs.take(k)) <= sum_sizes(cs),
    decreases cs.len(),
{
    if k == cs.len() {
        assert(cs.take(k) =~= cs);
        if cs.len() > 0 {
            lemma_sum_prefix(cs.drop_last(), 0);
        }
    } else {
        lemma_sum_prefix(cs.drop_last(), k);
        assert(cs.drop_last().take(k) =~= cs.take(k));
    }
}

/// Appends `n` zero bytes.
pub fn push_zeros(out: &mut Vec<u8>, n: usize)
    ensures
        final(out)@ == old(out)@ + zeros(n as nat),
{
    let ghost o = out@;
    let mut i: usize = 0;
    while i < n
        invariant
            i <= n,
            out@ == o + zeros(i as nat),
        decreases n - i,
    {
        out.push(0);
        i = i + 1;
        assert(out@ =~= o + zeros(i as nat));
    }
}

/// The on-disk form of an identifier field as a chip holds it: trailing NUL
/// bytes turned into spaces, each 4-byte word reversed.
pub fn stored_field(field: &[u8]) -> (r: Vec<u8>)
    requires
        field@.len() == INFO_ENTRY_SIZE,
    ensures
        r@ == word_swapped(padded(field@)),
{
    let mut f: Vec<u8> = Vec::new();
    append_range(&mut f, field, 0, field.len());
    assert(f@ =~= field@);
    pad_spaces(&mut f);
    swap_words(f.as_slice())
}

/// Lays out the container for `chips`: the header, one version 2 entry per
/// chip, the status word, filler up to the first page boundary, then each
/// blob followed by filler up to the next page boundary.
pub fn pack_chips(chips: &Vec<ChipInfo>, page_size: u32) -> (r: Result<Vec<u8>, PackError>)
    requires
        page_size > 0,
        forall|i: int| 0 <= i < chips@.len() ==> chip_wf(#[trigger] chips@[i]@),
    ensures
        pack_view(r) == packed(chip_views(chips@), page_size as int),
{
    let ghost cv = chip_views(chips@);
    let ghost page = page_size as int;
    let count = chips.len();
    if count == 0 {
        return Err(PackError::Empty);
    }
    proof {
        lemma_sum_prefix(cv, 0);
    }
    let ps = page_size as u64;
    if count > 0x0800_0000 {
        proof {
            let b = HEADER_SIZE + ENTRY_SIZE_V2 * count + STATUS_SIZE;
            assert(b % page < page) by (nonlinear_arith)
                requires
                    page > 0,
            ;
        }
        return Err(PackError::TooLarge);
    }
    let base: u64 = (HEADER_SIZE + STATUS_SIZE) as u64 + (ENTRY_SIZE_V2 as u64) * (count as u64);
    let first: u64 = base + (ps - base % ps);
    if first > u32::MAX as u64 {
        return Err(PackError::TooLarge);
    }
    let mut total: u64 = first;
    let mut i: usize = 0;
    assert(cv.take(0) =~= Seq::<ChipView>::empty());
    while i < count
        invariant
            count == chips@.len() == cv.len(),
            page == page_size as int,
            cv == chip_views(chips@),
            i <= count,
            first == first_offset(count as int, page),
            total == first + sum_sizes(cv.take(i as int)),
            total <= u32::MAX,
        decreases count - i,
    {
        assert(cv.take(i + 1).drop_last() =~= cv.take(i as int));
        assert(cv.take(i + 1).last() == chips@[i as int]@);
        assert(sum_sizes(cv.take(i + 1)) == sum_sizes(cv.take(i as int)) + chips@[i as int]@.dtb_size);
        total = total + chips[i].dtb_size as u64;
        i = i + 1;
        if total > u32::MAX as u64 {
            proof {
                lemma_sum_prefix(cv, i as int);
            }
            return Err(PackError::TooLarge);
        }
    }
    assert(cv.take(count as int) =~= cv);
    let h = Header { magic: AML_DT_HEADER, version: AML_DT_VERSION, entry_count: count as u32 };
    let mut out = h.as_slice();
    let ghost hb = out@;
    assert(hb == header_bytes(count as int));
    let mut expected: u64 = first;
    let mut i: usize = 0;
    while i < count
        invariant
            count == chips@.len() == cv.len(),
            page == page_size as int,
            cv == chip_views(chips@),
            forall|k: int| 0 <= k < chips@.len() ==> chip_wf(#[trigger] chips@[k]@),
            i <= count,
            first + sum_sizes(cv) <= u32::MAX,
            expected == first + sum_sizes(cv.take(i as int)),
            out@ == hb + table_bytes(cv.take(i as int), first as int),
        decreases count - i,
    {
        proof {
            lemma_sum_prefix(cv, i + 1);
            assert(cv.take(i + 1).drop_last() =~= cv.take(i as int));
            assert(cv.take(i + 1).last() == chips@[i as int]@);
        }
        let c = &chips[i];
        let e = HeaderEntry::<16> {
            soc: stored_field(c.chipset.as_slice()),
            plat: stored_field(c.platform.as_slice()),
            vari: stored_field(c.rev_num.as_slice()),
            offset: expected as u32,
            dtb_size: c.dtb_size,
        };
        let eb = e.as_slice();
        append_range(&mut out, eb.as_slice(), 0, eb.len());
        assert(eb@.subrange(0, eb@.len() as int) =~= eb@);
        assert(e@ == chip_entry(c@, first + sum_sizes(cv.take(i as int))));
        expected = expected + c.dtb_size as u64;
        i = i + 1;
        assert(out@ =~= hb + table_bytes(cv.take(i as int), first as int));
    }
    assert(cv.take(count as int) =~= cv);
    push_le32(&mut out, 0);
    let fill0 = (first - base) as usize;
    push_zeros(&mut out, fill0);
    let ghost pre = out@;
    let mut i: usize = 0;
    assert(out@ =~= pre + blob_bytes(cv.take(0), page));
    while i < count
        invariant
            page_size > 0,
            ps == page_size,
            count == chips@.len() == cv.len(),
            page == page_size as int,
            cv == chip_views(chips@),
            i <= count,
            out@ == pre + blob_bytes(cv.take(i as int), page),
        decreases count - i,
    {
        proof {
            assert(cv.take(i + 1).drop_last() =~= cv.take(i as int));
            assert(cv.take(i + 1).last() == chips@[i as int]@);
        }
        let file = chips[i].dtb_file.as_slice();
        let ghost before = out@;
        assert(blob_bytes(cv.take(i + 1), page) == blob_bytes(cv.take(i as int), page) + file@
            + zeros(filler_size(file@.len() as int, page) as nat));
        append_range(&mut out, file, 0, file.len());
        assert(file@.subrange(0, file@.len() as int) =~= file@);
        let rem: usize = file.len() % (page_size as usize);
        let fill = page_size as usize - rem;
        assert(rem as int == file@.len() as int % page);
        if fill > 0 && fill < page_size as usize {
            push_zeros(&mut out, fill);
            assert(fill as int == filler_size(file@.len() as int, page));
        } else {
            assert(filler_size(file@.len() as int, page) == 0);
            assert(out@ =~= out@ + zeros(0));
        }
        assert(out@ == before + file@ + zeros(filler_size(file@.len() as int, page) as nat));
        i = i + 1;
        assert(out@ =~= pre + blob_bytes(cv.take(i as int), page));
    }
    assert(cv.take(count as int) =~= cv);
    assert(out@ =~= header_bytes(count as int) + table_bytes(cv, first as int) + le_bytes(0)
        + zeros((first - base) as nat) + blob_bytes(cv, page));
    Ok(out)
}

/// The chips that packing takes from the blobs `bs`, in order: those whose
/// identifier property is found and usable.
pub open spec fn chips_of(bs: Seq<Seq<u8>>, page_size: int) -> Seq<ChipView>
    decreases bs.len(),
{
    if bs.len() == 0 {
        Seq::empty()
    } else {
        let rest = chips_of(bs.drop_last(), page_size);
        match chip_of_blob(bs.last(), page_size) {
            Some(c) => rest.push(c),
            None => rest,
        }
    }
}

/// The bytes of each blob of `bs`.
pub open spec fn blob_views(bs: Seq<Vec<u8>>) -> Seq<Seq<u8>> {
    bs.map_values(|b: Vec<u8>| b@)
}

proof fn lemma_chip_of_wf(blob: Seq<u8>, page_size: int)
    ensures
        chip_of_blob(blob, page_size) matches Some(c) ==> chip_wf(c),
{
}

/// Packs the device-tree blobs `blobs` into a container: each blob whose root
/// node carries a usable identifier property gets an entry, in order; the
/// others are left out.
pub fn dtb_pack(blobs: &Vec<Vec<u8>>, page_size: u32) -> (r: Result<Vec<u8>, PackError>)
    requires
        page_size > 0,
    ensures
        pack_view(r) == packed(chips_of(blob_views(blobs@), page_size as int), page_size as int),
{
    let ghost bv = blob_views(blobs@);
    let ghost page = page_size as int;
    let mut chips: Vec<ChipInfo> = Vec::new();
    let mut i: usize = 0;
    assert(bv.take(0) =~= Seq::<Seq<u8>>::empty());
    assert(chip_views(chips@) =~= Seq::<ChipView>::empty());
    while i < blobs.len()
        invariant
            page_size > 0,
            page == page_size as int,
            bv == blob_views(blobs@),
            i <= blobs@.len(),
            chip_views(chips@) == chips_of(bv.take(i as int), page),
            forall|k: int| 0 <= k < chips@.len() ==> chip_wf(#[trigger] chips@[k]@),
        decreases blobs.len() - i,
    {
        let b = &blobs[i];
        let mut copy: Vec<u8> = Vec::new();
        append_range(&mut copy, b.as_slice(), 0, b.len());
        assert(copy@ =~= b@);
        assert(bv.take(i + 1).drop_last() =~= bv.take(i as int));
        assert(bv.take(i + 1).last() == b@);
        proof {
            lemma_chip_of_wf(b@, page);
        }
        match get_chip_info(copy, page_size) {
            Some(c) => {
                chips.push(c);
                assert(chip_views(chips@) =~= chips_of(bv.take(i + 1), page));
            },
            None => {},
        }
        i = i + 1;
    }
    assert(bv.take(i as int) =~= bv);
    pack_chips(&chips, page_size)
}

/// With no usable blob, packing writes no container and reports it empty.
pub proof fn lemma_pack_empty(bs: Seq<Seq<u8>>, page_size: int)
    requires
        chips_of(bs, page_size).len() == 0,
    ensures
        packed(chips_of(bs, page_size), page_size) == Err::<Seq<u8>, PackError>(PackError::Empty),
{
}

/// An empty set of blobs gives no chips.
pub proof fn lemma_no_blobs(page_size: int)
    ensures
        chips_of(Seq::empty(), page_size).len() == 0,
{
}

} // verus!
