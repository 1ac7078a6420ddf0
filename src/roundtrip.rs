//! Packing then splitting gives back the blobs, under the names their
//! identifiers give.
use vstd::prelude::*;
use crate::ident::{components, is_clean_component, lemma_field_round_trip, INFO_ENTRY_SIZE};
use crate::layout::{
    be32, entry_at, entry_bytes, le32, le_bytes, lemma_le32_of_bytes, EntryView, Header,
    AML_DT_HEADER, AML_DT_VERSION, DT_HEADER_MAGIC,
};
use crate::outside::dt_prop_str;
use crate::pack::{
    blob_bytes, chip_entry, chip_of, chip_of_blob, chip_wf, chips_of, filler_size, first_offset,
    header_bytes, id_tag, lemma_sum_prefix, packed, padded_size, sum_sizes, table_bytes, zeros,
    ChipView,
};
use crate::split::{
    container_outcomes, entry_name, entry_outcome, fault_free_len, lemma_fault_free_len, table_outcomes, Outcome,
    SplitError,
};

verus! {

/// A chip that comes back whole from a split of its container: identifier
/// fields of the right width, a blob that starts with a device-tree header
/// whose size is the blob's length, the recorded size computed from that
/// length. (Its length must also be no multiple of the page size unless it
/// is the last one: an aligned blob records a page more than it takes, which
/// moves the blobs after it.)
#[verifier::opaque]
pub open spec fn is_sound_chip(c: ChipView, page_size: int) -> bool {
    &&& chip_wf(c)
    &&& c.dtb_file.len() >= 8
    &&& le32(c.dtb_file, 0) == DT_HEADER_MAGIC
    &&& be32(c.dtb_file, 4) == c.dtb_file.len()
    &&& c.dtb_size == padded_size(c.dtb_file.len() as int, page_size)
}

/// Every chip of `cs` but the last has a length that is no multiple of the
/// page size.
pub open spec fn unaligned_but_last(cs: Seq<ChipView>, page_size: int) -> bool {
    forall|k: int| 0 <= k < cs.len() - 1 ==> (#[trigger] cs[k]).dtb_file.len() as int % page_size != 0
}

/// The name that a split gives to the entry of chip `c`.
pub open spec fn chip_name(c: ChipView) -> Seq<u8> {
    entry_name(chip_entry(c, 0))
}

proof fn lemma_entry_len(c: ChipView, off: int)
    requires
        chip_wf(c),
    ensures
        entry_bytes(chip_entry(c, off)).len() == 56,
{
}

proof fn lemma_table_len(cs: Seq<ChipView>, first: int)
    requires
        forall|i: int| 0 <= i < cs.len() ==> chip_wf(#[trigger] cs[i]),
    ensures
        table_bytes(cs, first).len() == 56 * cs.len(),
    decreases cs.len(),
{
    if cs.len() > 0 {
        lemma_table_len(cs.drop_last(), first);
        lemma_entry_len(cs.last(), first + sum_sizes(cs.drop_last()));
    }
}

proof fn lemma_table_slice(cs: Seq<ChipView>, first: int, i: int)
    requires
        forall|k: int| 0 <= k < cs.len() ==> chip_wf(#[trigger] cs[k]),
        0 <= i < cs.len(),
    ensures
        table_bytes(cs, first).subrange(56 * i, 56 * i + 56) == entry_bytes(
            chip_entry(cs[i], first + sum_sizes(cs.take(i))),
        ),
    decreases cs.len(),
{
    let p = cs.drop_last();
    lemma_table_len(p, first);
    let e = entry_bytes(chip_entry(cs.last(), first + sum_sizes(p)));
    lemma_entry_len(cs.last(), first + sum_sizes(p));
    if i == cs.len() - 1 {
        assert(cs.take(i) =~= p);
        assert(table_bytes(cs, first).subrange(56 * i, 56 * i + 56) =~= e);
    } else {
        lemma_table_slice(p, first, i);
        assert(p.take(i) =~= cs.take(i));
        assert(table_bytes(cs, first).subrange(56 * i, 56 * i + 56) =~= table_bytes(
            p,
            first,
        ).subrange(56 * i, 56 * i + 56));
    }
}

proof fn lemma_blob_len(cs: Seq<ChipView>, page_size: int)
    requires
        page_size > 0,
        forall|i: int| 0 <= i < cs.len() ==> is_sound_chip(#[trigger] cs[i], page_size),
        forall|i: int| 0 <= i < cs.len() ==> (#[trigger] cs[i]).dtb_file.len() as int % page_size != 0,
    ensures
        blob_bytes(cs, page_size).len() == sum_sizes(cs),
    decreases cs.len(),
{
    if cs.len() > 0 {
        let p = cs.drop_last();
        assert forall|i: int| 0 <= i < p.len() implies p[i] == cs[i] by {}
        lemma_blob_len(p, page_size);
        let c = cs.last();
        assert(c.dtb_file.len() as int % page_size != 0);
        assert(is_sound_chip(cs[cs.len() - 1], page_size));
        reveal(is_sound_chip);
        assert(filler_size(c.dtb_file.len() as int, page_size) >= 0) by (nonlinear_arith)
            requires
                page_size > 0,
                c.dtb_file.len() as int % page_size != 0,
        {
        }
    }
}

proof fn lemma_blob_slice(cs: Seq<ChipView>, page_size: int, i: int)
    requires
        page_size > 0,
        forall|k: int| 0 <= k < cs.len() ==> is_sound_chip(#[trigger] cs[k], page_size),
        0 <= i < cs.len(),
        unaligned_but_last(cs, page_size),
    ensures
        sum_sizes(cs.take(i)) + cs[i].dtb_file.len() <= blob_bytes(cs, page_size).len(),
        blob_bytes(cs, page_size).subrange(
            sum_sizes(cs.take(i)),
            sum_sizes(cs.take(i)) + cs[i].dtb_file.len(),
        ) == cs[i].dtb_file,
    decreases cs.len(),
{
    let p = cs.drop_last();
    let c = cs.last();
    assert forall|k: int| 0 <= k < p.len() implies is_sound_chip(#[trigger] p[k], page_size) by {
        assert(p[k] == cs[k]);
    }
    assert forall|k: int| 0 <= k < p.len() implies (#[trigger] p[k]).dtb_file.len() as int % page_size != 0 by {
        assert(p[k] == cs[k]);
    }
    lemma_blob_len(p, page_size);
    let bp = blob_bytes(p, page_size);
    let tail = c.dtb_file + zeros(filler_size(c.dtb_file.len() as int, page_size) as nat);
    assert(blob_bytes(cs, page_size) == bp + tail);
    let s = sum_sizes(cs.take(i));
    let len = cs[i].dtb_file.len() as int;
    if i == cs.len() - 1 {
        assert(cs.take(i) =~= p);
        assert((bp + tail).subrange(s, s + len) =~= c.dtb_file);
    } else {
        assert(p.take(i) =~= cs.take(i));
        assert(p[i] == cs[i]);
        lemma_sum_prefix(cs, i);
        lemma_blob_slice(p, page_size, i);
        assert(sum_sizes(p.take(i)) == s);
        assert(s + len <= bp.len());
        assert((bp + tail).subrange(s, s + len) =~= bp.subrange(s, s + len));
    }
}

proof fn lemma_entry_of_bytes(e: EntryView)
    requires
        e.soc.len() == 16 && e.plat.len() == 16 && e.vari.len() == 16,
    ensures
        entry_at(entry_bytes(e), 0, 16) == e,
{
    let pre = e.soc + e.plat + e.vari;
    let b = entry_bytes(e);
    assert(b == pre + le_bytes(e.offset) + le_bytes(e.dtb_size));
    let x = entry_at(b, 0, 16);
    assert(x.soc =~= e.soc);
    assert(x.plat =~= e.plat);
    assert(x.vari =~= e.vari);
    lemma_le32_of_bytes(e.offset);
    lemma_le32_of_bytes(e.dtb_size);
    assert forall|k: int| 0 <= k < 4 implies b[48 + k] == le_bytes(e.offset)[k] && b[52 + k]
        == le_bytes(e.dtb_size)[k] by {}
}

proof fn lemma_entry_at_shift(s: Seq<u8>, off: int)
    requires
        0 <= off,
        off + 56 <= s.len(),
    ensures
        entry_at(s, off, 16) == entry_at(s.subrange(off, off + 56), 0, 16),
{
    let t = s.subrange(off, off + 56);
    assert(s.subrange(off, off + 16) =~= t.subrange(0, 16));
    assert(s.subrange(off + 16, off + 32) =~= t.subrange(16, 32));
    assert(s.subrange(off + 32, off + 48) =~= t.subrange(32, 48));
    assert forall|k: int| 48 <= k < 56 implies s[off + k] == t[k] by {}
}

proof fn lemma_entry_at_bytes(s: Seq<u8>, off: int, e: EntryView)
    requires
        0 <= off,
        off + 56 <= s.len(),
        s.subrange(off, off + 56) == entry_bytes(e),
        e.soc.len() == 16 && e.plat.len() == 16 && e.vari.len() == 16,
    ensures
        entry_at(s, off, 16) == e,
{
    lemma_entry_at_shift(s, off);
    lemma_entry_of_bytes(e);
}

proof fn lemma_header_of_bytes(s: Seq<u8>, n: int)
    requires
        0 <= n <= u32::MAX,
        s.len() >= 12,
        s.subrange(0, 12) == header_bytes(n),
    ensures
        Header::spec_parse(s) == (Header { magic: AML_DT_HEADER, version: AML_DT_VERSION, entry_count: n as u32 }),
{
    let hb = header_bytes(n);
    assert forall|k: int| 0 <= k < 12 implies s[k] == hb[k] by {
        assert(s.subrange(0, 12)[k] == s[k]);
    }
    lemma_le32_of_bytes(AML_DT_HEADER);
    lemma_le32_of_bytes(AML_DT_VERSION);
    lemma_le32_of_bytes(n as u32);
    assert forall|k: int| 0 <= k < 4 implies hb[k] == le_bytes(AML_DT_HEADER)[k] && hb[4 + k]
        == le_bytes(AML_DT_VERSION)[k] && hb[8 + k] == le_bytes(n as u32)[k] by {}
}

/// The bytes that packing the chips `cs` gives, where it succeeds.
pub open spec fn packed_bytes(cs: Seq<ChipView>, page_size: int) -> Seq<u8> {
    packed(cs, page_size)->Ok_0
}

proof fn lemma_sound_wf(cs: Seq<ChipView>, page_size: int)
    requires
        forall|k: int| 0 <= k < cs.len() ==> is_sound_chip(#[trigger] cs[k], page_size),
    ensures
        forall|k: int| 0 <= k < cs.len() ==> chip_wf(#[trigger] cs[k]),
{
    assert forall|k: int| 0 <= k < cs.len() implies chip_wf(#[trigger] cs[k]) by {
        reveal(is_sound_chip);
        assert(is_sound_chip(cs[k], page_size));
    }
}

/// The bytes before the blobs in the container of `cs`.
spec fn pre_bytes(cs: Seq<ChipView>, page_size: int) -> Seq<u8> {
    let n = cs.len() as int;
    let first = first_offset(n, page_size);
    header_bytes(n) + table_bytes(cs, first) + le_bytes(0) + zeros(
        (first - (16 + 56 * n)) as nat,
    )
}

proof fn lemma_packed_parts(cs: Seq<ChipView>, page_size: int)
    requires
        page_size > 0,
        forall|k: int| 0 <= k < cs.len() ==> is_sound_chip(#[trigger] cs[k], page_size),
        packed(cs, page_size) is Ok,
    ensures
        packed_bytes(cs, page_size) == pre_bytes(cs, page_size) + blob_bytes(cs, page_size),
        pre_bytes(cs, page_size).len() == first_offset(cs.len() as int, page_size),
        pre_bytes(cs, page_size).subrange(12, 12 + 56 * cs.len() as int) == table_bytes(
            cs,
            first_offset(cs.len() as int, page_size),
        ),
        16 + 56 * cs.len() < first_offset(cs.len() as int, page_size),
        pre_bytes(cs, page_size).subrange(0, 12) == header_bytes(cs.len() as int),
        packed_bytes(cs, page_size).len() >= first_offset(cs.len() as int, page_size),
        first_offset(cs.len() as int, page_size) + sum_sizes(cs) <= u32::MAX,
        0 <= sum_sizes(cs),
{
    let n = cs.len() as int;
    let first = first_offset(n, page_size);
    let base = 16 + 56 * n;
    assert(first >= base + 1) by (nonlinear_arith)
        requires
            page_size > 0,
            first == base + (page_size - base % page_size),
    {
    }
    lemma_sound_wf(cs, page_size);
    lemma_table_len(cs, first);
    lemma_sum_prefix(cs, 0);
    let tb = table_bytes(cs, first);
    assert(pre_bytes(cs, page_size).subrange(12, 12 + 56 * n) =~= tb);
    assert(pre_bytes(cs, page_size).subrange(0, 12) =~= header_bytes(n));
}

proof fn lemma_entry_in_packed(cs: Seq<ChipView>, page_size: int, i: int)
    requires
        page_size > 0,
        forall|k: int| 0 <= k < cs.len() ==> is_sound_chip(#[trigger] cs[k], page_size),
        packed(cs, page_size) is Ok,
        0 <= i < cs.len(),
    ensures
        entry_at(packed_bytes(cs, page_size), 12 + i * 56, 16) == chip_entry(
            cs[i],
            first_offset(cs.len() as int, page_size) + sum_sizes(cs.take(i)),
        ),
{
    let first = first_offset(cs.len() as int, page_size);
    lemma_packed_parts(cs, page_size);
    lemma_sound_wf(cs, page_size);
    let d = packed_bytes(cs, page_size);
    let pre = pre_bytes(cs, page_size);
    let tb = table_bytes(cs, first);
    lemma_table_slice(cs, first, i);
    assert(d.subrange(12 + 56 * i, 12 + 56 * i + 56) =~= tb.subrange(56 * i, 56 * i + 56));
    lemma_entry_at_bytes(d, 12 + 56 * i, chip_entry(cs[i], first + sum_sizes(cs.take(i))));
}

proof fn lemma_blob_in_packed(cs: Seq<ChipView>, page_size: int, i: int)
    requires
        page_size > 0,
        forall|k: int| 0 <= k < cs.len() ==> is_sound_chip(#[trigger] cs[k], page_size),
        packed(cs, page_size) is Ok,
        0 <= i < cs.len(),
        unaligned_but_last(cs, page_size),
    ensures
        ({
            let off = first_offset(cs.len() as int, page_size) + sum_sizes(cs.take(i));
            &&& off + cs[i].dtb_file.len() <= packed_bytes(cs, page_size).len()
            &&& packed_bytes(cs, page_size).subrange(off, off + cs[i].dtb_file.len())
                == cs[i].dtb_file
        }),
{
    let first = first_offset(cs.len() as int, page_size);
    lemma_packed_parts(cs, page_size);
    lemma_sum_prefix(cs, i);
    lemma_blob_slice(cs, page_size, i);
    let d = packed_bytes(cs, page_size);
    let bb = blob_bytes(cs, page_size);
    let len = cs[i].dtb_file.len() as int;
    let s = sum_sizes(cs.take(i));
    assert(d.subrange(first + s, first + s + len) =~= bb.subrange(s, s + len));
}

proof fn lemma_split_one(cs: Seq<ChipView>, page_size: int, i: int)
    requires
        page_size > 0,
        forall|k: int| 0 <= k < cs.len() ==> is_sound_chip(#[trigger] cs[k], page_size),
        packed(cs, page_size) is Ok,
        0 <= i < cs.len(),
        unaligned_but_last(cs, page_size),
    ensures
        entry_outcome(
            packed_bytes(cs, page_size),
            entry_at(packed_bytes(cs, page_size), 12 + i * 56, 16),
        ) == Outcome::Extracted(chip_name(cs[i]), cs[i].dtb_file),
{
    let d = packed_bytes(cs, page_size);
    let c = cs[i];
    let first = first_offset(cs.len() as int, page_size);
    let off = first + sum_sizes(cs.take(i));
    lemma_packed_parts(cs, page_size);
    lemma_sum_prefix(cs, i);
    lemma_entry_in_packed(cs, page_size, i);
    lemma_blob_in_packed(cs, page_size, i);
    let e = chip_entry(c, off);
    assert(e.offset as int == off);
    let len = c.dtb_file.len() as int;
    assert(len >= 8 && le32(c.dtb_file, 0) == DT_HEADER_MAGIC && be32(c.dtb_file, 4) == len) by {
        reveal(is_sound_chip);
        assert(is_sound_chip(cs[i], page_size));
    }
    assert forall|k: int| 0 <= k < 8 implies d[off + k] == c.dtb_file[k] by {
        assert(d.subrange(off, off + len)[k] == d[off + k]);
    }
    assert(le32(d, off) == le32(c.dtb_file, 0));
    assert(be32(d, off + 4) == be32(c.dtb_file, 4));
    assert(entry_name(e) == chip_name(c));
}

/// Splitting the container that packing makes of sound chips gives each
/// chip's blob back, in order, under the chip's name.
pub proof fn lemma_pack_then_split(cs: Seq<ChipView>, page_size: int)
    requires
        page_size > 0,
        forall|i: int| 0 <= i < cs.len() ==> is_sound_chip(#[trigger] cs[i], page_size),
        packed(cs, page_size) is Ok,
        unaligned_but_last(cs, page_size),
    ensures
        container_outcomes(packed_bytes(cs, page_size)) == (
            Seq::new(cs.len(), |i: int| Outcome::Extracted(chip_name(cs[i]), cs[i].dtb_file)),
            None::<SplitError>,
        ),
{
    let n = cs.len() as int;
    let d = packed_bytes(cs, page_size);
    lemma_packed_parts(cs, page_size);
    assert(d.subrange(0, 12) =~= pre_bytes(cs, page_size).subrange(0, 12));
    lemma_header_of_bytes(d, n);
    let want = Seq::new(cs.len(), |i: int| Outcome::Extracted(chip_name(cs[i]), cs[i].dtb_file));
    let outs = table_outcomes(d, n as nat, 16);
    assert forall|i: int| 0 <= i < n implies #[trigger] outs[i] == want[i] by {
        lemma_split_one(cs, page_size, i);
    }
    assert(outs =~= want);
    lemma_fault_free_len(outs);
    if fault_free_len(outs) < n {
        assert(outs[fault_free_len(outs) as int] == want[fault_free_len(outs) as int]);
    }
    assert(outs.take(n) =~= want);
}

/// The name that a split gives to the chip of an identifier with three clean
/// components is those components joined by `-`.
pub proof fn lemma_identifier_round_trip(blob: Seq<u8>, id: Seq<u8>, page_size: int)
    requires
        components(id).len() == 3,
        is_clean_component(components(id)[0]),
        is_clean_component(components(id)[1]),
        is_clean_component(components(id)[2]),
        chip_of(blob, id, page_size) is Some,
    ensures
        chip_name(chip_of(blob, id, page_size)->Some_0) == components(id)[0] + seq![45u8]
            + components(id)[1] + seq![45u8] + components(id)[2],
{
    let z = zeros(INFO_ENTRY_SIZE as nat);
    assert(z =~= Seq::new(INFO_ENTRY_SIZE as nat, |i: int| 0u8));
    lemma_field_round_trip(components(id)[0]);
    lemma_field_round_trip(components(id)[1]);
    lemma_field_round_trip(components(id)[2]);
}

/// A device-tree blob that comes back whole from a split of its container:
/// its root node carries an identifier of three clean components, it starts
/// with a device-tree header whose size is its length, and its padded size
/// fits in 32 bits.
pub open spec fn is_sound_blob(b: Seq<u8>, page_size: int) -> bool {
    &&& dt_prop_str(b, "/"@, id_tag()) is Some
    &&& components(dt_prop_str(b, "/"@, id_tag())->Some_0).len() == 3
    &&& is_clean_component(components(dt_prop_str(b, "/"@, id_tag())->Some_0)[0])
    &&& is_clean_component(components(dt_prop_str(b, "/"@, id_tag())->Some_0)[1])
    &&& is_clean_component(components(dt_prop_str(b, "/"@, id_tag())->Some_0)[2])
    &&& b.len() >= 8
    &&& le32(b, 0) == DT_HEADER_MAGIC
    &&& be32(b, 4) == b.len()
    &&& padded_size(b.len() as int, page_size) <= u32::MAX
}

/// The identifier of blob `b`, its components joined by `-`.
pub open spec fn blob_name(b: Seq<u8>) -> Seq<u8> {
    let p = components(dt_prop_str(b, "/"@, id_tag())->Some_0);
    p[0] + seq![45u8] + p[1] + seq![45u8] + p[2]
}

proof fn lemma_chips_of_all(bs: Seq<Seq<u8>>, page_size: int)
    requires
        forall|i: int| 0 <= i < bs.len() ==> chip_of_blob(#[trigger] bs[i], page_size) is Some,
    ensures
        chips_of(bs, page_size).len() == bs.len(),
        forall|i: int|
            0 <= i < bs.len() ==> chips_of(bs, page_size)[i] == chip_of_blob(
                #[trigger] bs[i],
                page_size,
            )->Some_0,
    decreases bs.len(),
{
    if bs.len() > 0 {
        let p = bs.drop_last();
        assert forall|i: int| 0 <= i < p.len() implies chip_of_blob(#[trigger] p[i], page_size) is Some by {
            assert(p[i] == bs[i]);
        }
        lemma_chips_of_all(p, page_size);
        assert(chip_of_blob(bs[bs.len() - 1], page_size) is Some);
        assert forall|i: int| 0 <= i < bs.len() implies chips_of(bs, page_size)[i] == chip_of_blob(
            #[trigger] bs[i],
            page_size,
        )->Some_0 by {
            if i < bs.len() - 1 {
                assert(p[i] == bs[i]);
            }
        }
    }
}

proof fn lemma_sound_blob_chip(b: Seq<u8>, page_size: int)
    requires
        page_size > 0,
        is_sound_blob(b, page_size),
    ensures
        chip_of_blob(b, page_size) is Some,
        is_sound_chip(chip_of_blob(b, page_size)->Some_0, page_size),
        chip_of_blob(b, page_size)->Some_0.dtb_file == b,
        chip_name(chip_of_blob(b, page_size)->Some_0) == blob_name(b),
{
    let id = dt_prop_str(b, "/"@, id_tag())->Some_0;
    lemma_identifier_round_trip(b, id, page_size);
    reveal(is_sound_chip);
}

/// Packing device-tree blobs that each come back whole, all but the last of a
/// length that is no multiple of the page size, then splitting the container,
/// gives every blob back byte for byte, in order, under the name its
/// identifier gives, and the split ends without error.
pub proof fn lemma_dtb_pack_then_split(bs: Seq<Seq<u8>>, page_size: int)
    requires
        page_size > 0,
        forall|i: int| 0 <= i < bs.len() ==> is_sound_blob(#[trigger] bs[i], page_size),
        forall|i: int| 0 <= i < bs.len() - 1 ==> (#[trigger] bs[i]).len() as int % page_size != 0,
        packed(chips_of(bs, page_size), page_size) is Ok,
    ensures
        container_outcomes(packed_bytes(chips_of(bs, page_size), page_size)) == (
            Seq::new(bs.len(), |i: int| Outcome::Extracted(blob_name(bs[i]), bs[i])),
            None::<SplitError>,
        ),
{
    assert forall|i: int| 0 <= i < bs.len() implies chip_of_blob(#[trigger] bs[i], page_size) is Some by {
        lemma_sound_blob_chip(bs[i], page_size);
    }
    lemma_chips_of_all(bs, page_size);
    let cs = chips_of(bs, page_size);
    assert forall|i: int| 0 <= i < cs.len() implies is_sound_chip(#[trigger] cs[i], page_size) by {
        lemma_sound_blob_chip(bs[i], page_size);
    }
    assert forall|i: int| 0 <= i < cs.len() - 1 implies (#[trigger] cs[i]).dtb_file.len() as int % page_size != 0 by {
        lemma_sound_blob_chip(bs[i], page_size);
    }
    lemma_pack_then_split(cs, page_size);
    let got = Seq::new(cs.len(), |i: int| Outcome::Extracted(chip_name(cs[i]), cs[i].dtb_file));
    let want = Seq::new(bs.len(), |i: int| Outcome::Extracted(blob_name(bs[i]), bs[i]));
    assert forall|i: int| 0 <= i < bs.len() implies got[i] == want[i] by {
        lemma_sound_blob_chip(bs[i], page_size);
    }
    assert(got =~= want);
}

} // verus!
