//! Splitting a container into its embedded device-tree blobs.
use vstd::prelude::*;
use crate::ident::{decode_field, decoded};
use crate::layout::{
    append_range, entry_at, entry_size, le32, be32, DTHeader, EntryView, Header, HeaderEntry,
    AML_DT_HEADER, DT_HEADER_MAGIC, GZIP_MAGIC, HEADER_SIZE, read_le32,
};
use crate::outside::{gunzip, gunzipped};

verus! {

/// Why a container cannot be split.
#[derive(PartialEq, Eq, Structural, Debug, Clone, Copy)]
pub enum SplitError {
    /// The input ends before a record or a blob that it refers to.
    Truncated,
    /// The first word is neither the container signature nor a gzip stream's.
    BadMagic(u32),
    /// The header's version is neither 1 nor 2.
    BadVersion(u32),
    /// The input looked like a gzip stream but did not decompress.
    Decompress,
}

/// What becomes of one entry, as values.
pub enum Outcome {
    /// The blob, under the entry's name.
    Extracted(Seq<u8>, Seq<u8>),
    /// The entry's name and the word found where the blob signature belongs.
    Skipped(Seq<u8>, u32),
    /// The entry points past the end of the input.
    Fault,
}

/// What becomes of one entry of a container.
pub enum EntryOutcome {
    /// The blob was found: its bytes, to be stored under `name`.
    Extracted { name: Vec<u8>, data: Vec<u8> },
    /// No blob signature at the entry's offset; `magic` is what stood there.
    Skipped { name: Vec<u8>, magic: u32 },
}

impl View for EntryOutcome {
    type V = Outcome;

    open spec fn view(&self) -> Outcome {
        match self {
            EntryOutcome::Extracted { name, data } => Outcome::Extracted(name@, data@),
            EntryOutcome::Skipped { name, magic } => Outcome::Skipped(name@, *magic),
        }
    }
}

/// The name of an entry: its three identifiers joined by `-`.
pub open spec fn entry_name(e: EntryView) -> Seq<u8> {
    decoded(e.soc) + seq![45u8] + decoded(e.plat) + seq![45u8] + decoded(e.vari)
}

/// What becomes of entry `e` of the container `d`.
pub open spec fn entry_outcome(d: Seq<u8>, e: EntryView) -> Outcome {
    let off = e.offset as int;
    if off + 8 > d.len() {
        Outcome::Fault
    } else if le32(d, off) != DT_HEADER_MAGIC {
        Outcome::Skipped(entry_name(e), le32(d, off))
    } else if off + be32(d, off + 4) > d.len() {
        Outcome::Fault
    } else {
        Outcome::Extracted(entry_name(e), d.subrange(off, off + be32(d, off + 4)))
    }
}

/// Width of the identifier fields of a container of version `version`.
pub open spec fn id_size_of(version: u32) -> nat {
    if version == 1 {
        4
    } else {
        16
    }
}

/// The outcomes of the `count` entries with `w`-byte identifiers that follow
/// the header of `d`.
pub open spec fn table_outcomes(d: Seq<u8>, count: nat, w: nat) -> Seq<Outcome> {
    Seq::new(
        count,
        |i: int| entry_outcome(d, entry_at(d, HEADER_SIZE + i * entry_size(w), w)),
    )
}

/// How many entries of `outs` come before the first that points past the
/// end of the input.
pub open spec fn fault_free_len(outs: Seq<Outcome>) -> nat
    decreases outs.len(),
{
    if outs.len() == 0 {
        0
    } else {
        let p = fault_free_len(outs.drop_last());
        if p < outs.len() - 1 || outs.last() is Fault {
            p
        } else {
            outs.len()
        }
    }
}

/// The first fault of `outs` stops the split: the entries before it are
/// kept, and the split ends in `Truncated`.
pub open spec fn stop_at_fault(outs: Seq<Outcome>) -> (Seq<Outcome>, Option<SplitError>) {
    let k = fault_free_len(outs);
    (outs.take(k as int), if k < outs.len() { Some(SplitError::Truncated) } else { None })
}

/// What splitting the uncompressed container `d` gives: the outcomes of the
/// entries handled, and the error that stopped the split, if any.
pub open spec fn container_outcomes(d: Seq<u8>) -> (Seq<Outcome>, Option<SplitError>) {
    if d.len() < HEADER_SIZE {
        (Seq::empty(), Some(SplitError::Truncated))
    } else {
        let h = Header::spec_parse(d);
        if h.magic != AML_DT_HEADER {
            (Seq::empty(), Some(SplitError::BadMagic(h.magic)))
        } else if h.version != 1 && h.version != 2 {
            (Seq::empty(), Some(SplitError::BadVersion(h.version)))
        } else {
            table_split(d, h.entry_count, id_size_of(h.version))
        }
    }
}

/// What splitting the table of `count` entries with `w`-byte identifiers
/// that follows the header of `d` gives.
pub open spec fn table_split(d: Seq<u8>, count: u32, w: nat) -> (Seq<Outcome>, Option<SplitError>) {
    if HEADER_SIZE + count * entry_size(w) > d.len() {
        (Seq::empty(), Some(SplitError::Truncated))
    } else {
        stop_at_fault(table_outcomes(d, count as nat, w))
    }
}

/// What splitting `image` gives, a container that may be gzip compressed,
/// where `unzipped` is what decompressing it gives.
pub open spec fn image_outcomes(image: Seq<u8>, unzipped: Option<Seq<u8>>) -> (
    Seq<Outcome>,
    Option<SplitError>,
) {
    if image.len() < HEADER_SIZE {
        (Seq::empty(), Some(SplitError::Truncated))
    } else if le32(image, 0) == AML_DT_HEADER {
        container_outcomes(image)
    } else if le32(image, 0) % 65536 == GZIP_MAGIC {
        match unzipped {
            Some(d) => container_outcomes(d),
            None => (Seq::empty(), Some(SplitError::Decompress)),
        }
    } else {
        (Seq::empty(), Some(SplitError::BadMagic(le32(image, 0))))
    }
}

/// The values a split's result holds.
pub open spec fn report_view(r: (Vec<EntryOutcome>, Option<SplitError>)) -> (
    Seq<Outcome>,
    Option<SplitError>,
) {
    (r.0@.map_values(|o: EntryOutcome| o@), r.1)
}

/// The entries before `fault_free_len(outs)` are no faults, and the one at
/// it, if any, is.
pub proof fn lemma_fault_free_len(outs: Seq<Outcome>)
    ensures
        fault_free_len(outs) <= outs.len(),
        forall|j: int| 0 <= j < fault_free_len(outs) ==> !(#[trigger] outs[j] is Fault),
        fault_free_len(outs) < outs.len() ==> outs[fault_free_len(outs) as int] is Fault,
    decreases outs.len(),
{
    if outs.len() > 0 {
        let p = outs.drop_last();
        lemma_fault_free_len(p);
        assert forall|j: int| 0 <= j < p.len() implies p[j] == outs[j] by {}
    }
}

proof fn lemma_stop_at(outs: Seq<Outcome>, k: int)
    requires
        0 <= k <= outs.len(),
        forall|j: int| 0 <= j < k ==> !(#[trigger] outs[j] is Fault),
        k < outs.len() ==> outs[k] is Fault,
    ensures
        fault_free_len(outs) == k,
{
    lemma_fault_free_len(outs);
    let f = fault_free_len(outs) as int;
    if f < k {
        assert(!(outs[f] is Fault));
    }
    if f > k {
        assert(!(outs[k] is Fault));
    }
}

/// The name of entry `e`: its three identifiers decoded and joined by `-`.
pub fn entry_file_name<const ID_SIZE: usize>(e: &HeaderEntry<ID_SIZE>) -> (r: Vec<u8>)
    requires
        ID_SIZE % 4 == 0,
        e.wf(),
    ensures
        r@ == entry_name(e@),
{
    let soc = decode_field(e.soc.as_slice());
    let plat = decode_field(e.plat.as_slice());
    let vari = decode_field(e.vari.as_slice());
    let mut r: Vec<u8> = Vec::new();
    append_range(&mut r, soc.as_slice(), 0, soc.len());
    r.push(45);
    append_range(&mut r, plat.as_slice(), 0, plat.len());
    r.push(45);
    append_range(&mut r, vari.as_slice(), 0, vari.len());
    assert(soc@.subrange(0, soc@.len() as int) =~= soc@);
    assert(plat@.subrange(0, plat@.len() as int) =~= plat@);
    assert(vari@.subrange(0, vari@.len() as int) =~= vari@);
    assert(r@ =~= entry_name(e@));
    r
}

/// Extracts the `entries` blobs that the table after the header of `buf`
/// describes, each entry with `ID_SIZE`-byte identifiers. A table that runs
/// past the end of `buf` gives `Truncated` before any entry is handled. An
/// entry without a blob signature at its offset is skipped; the first one
/// that points past the end of `buf` stops the split with `Truncated`, and
/// the outcomes of the entries before it are kept.
pub fn dump_data<const ID_SIZE: usize>(entries: u32, buf: &[u8]) -> (r: (
    Vec<EntryOutcome>,
    Option<SplitError>,
))
    requires
        ID_SIZE == 4 || ID_SIZE == 16,
    ensures
        report_view(r) == table_split(buf@, entries, ID_SIZE as nat),
{
    let es64: u64 = (3 * ID_SIZE + 8) as u64;
    let count = entries as u64;
    assert(count * es64 <= 0xffff_ffffu64 * 56) by (nonlinear_arith)
        requires
            count <= 0xffff_ffffu64,
            es64 <= 56,
    ;
    let mut v: Vec<EntryOutcome> = Vec::new();
    if HEADER_SIZE as u64 + count * es64 > buf.len() as u64 {
        assert(v@.map_values(|o: EntryOutcome| o@) =~= Seq::<Outcome>::empty());
        return (v, Some(SplitError::Truncated));
    }
    let ghost outs = table_outcomes(buf@, entries as nat, ID_SIZE as nat);
    let ghost es = entry_size(ID_SIZE as nat) as int;
    let mut pos: usize = HEADER_SIZE;
    let mut i: u32 = 0;
    let blen = buf.len();
    while i < entries
        invariant
            blen == buf@.len(),
            ID_SIZE == 4 || ID_SIZE == 16,
            es == 3 * ID_SIZE + 8,
            HEADER_SIZE + entries * es <= buf@.len(),
            outs == table_outcomes(buf@, entries as nat, ID_SIZE as nat),
            i <= entries,
            pos == HEADER_SIZE + i * es,
            v@.len() == i,
            forall|j: int| 0 <= j < i ==> #[trigger] v@[j]@ == outs[j],
        decreases entries - i,
    {
        proof {
            assert((i + 1) * es == i * es + es) by (nonlinear_arith);
            assert((i + 1) * es <= entries * es) by (nonlinear_arith)
                requires
                    i < entries,
                    es >= 0,
            ;
            assert forall|j: int| 0 <= j < i implies !(#[trigger] outs[j] is Fault) by {
                assert(v@[j]@ == outs[j]);
            }
        }
        let e = HeaderEntry::<ID_SIZE>::parse(buf, pos).unwrap();
        let name = entry_file_name(&e);
        let off = e.offset as usize;
        let mut fault = false;
        match DTHeader::parse(buf, off) {
            None => {
                fault = true;
            },
            Some(dh) => {
                if dh.magic != DT_HEADER_MAGIC {
                    v.push(EntryOutcome::Skipped { name, magic: dh.magic });
                } else {
                    let size = dh.totalsize as usize;
                    if size > buf.len() - off {
                        fault = true;
                    } else {
                        let mut data: Vec<u8> = Vec::new();
                        append_range(&mut data, buf, off, off + size);
                        assert(data@ =~= buf@.subrange(off as int, off + size));
                        v.push(EntryOutcome::Extracted { name, data });
                    }
                }
            },
        }
        if fault {
            assert(outs[i as int] is Fault);
            proof {
                lemma_stop_at(outs, i as int);
            }
            assert(v@.map_values(|o: EntryOutcome| o@) =~= outs.take(i as int));
            return (v, Some(SplitError::Truncated));
        }
        assert(v@[i as int]@ == outs[i as int]);
        pos = pos + ID_SIZE * 3 + 8;
        i = i + 1;
    }
    proof {
        assert forall|j: int| 0 <= j < outs.len() implies !(#[trigger] outs[j] is Fault) by {
            assert(v@[j]@ == outs[j]);
        }
        lemma_stop_at(outs, outs.len() as int);
    }
    assert(v@.map_values(|o: EntryOutcome| o@) =~= outs.take(outs.len() as int));
    (v, None)
}

/// Splits the uncompressed container `buf`: the outcomes of the entries
/// handled, and the error that stopped the split, if any.
pub fn split_container(buf: &[u8]) -> (r: (Vec<EntryOutcome>, Option<SplitError>))
    ensures
        report_view(r) == container_outcomes(buf@),
{
    let none: Vec<EntryOutcome> = Vec::new();
    assert(none@.map_values(|o: EntryOutcome| o@) =~= Seq::<Outcome>::empty());
    let h = match Header::parse(buf) {
        None => return (none, Some(SplitError::Truncated)),
        Some(h) => h,
    };
    if h.magic != AML_DT_HEADER {
        return (none, Some(SplitError::BadMagic(h.magic)));
    }
    if h.version == 1 {
        dump_data::<4>(h.entry_count, buf)
    } else if h.version == 2 {
        dump_data::<16>(h.entry_count, buf)
    } else {
        (none, Some(SplitError::BadVersion(h.version)))
    }
}

/// Splits `image`, a container or a gzip stream of one: the outcomes of the
/// entries handled, and the error that stopped the split, if any.
pub fn dtb_split(image: &[u8]) -> (r: (Vec<EntryOutcome>, Option<SplitError>))
    ensures
        report_view(r) == image_outcomes(image@, gunzipped(image@)),
{
    let none: Vec<EntryOutcome> = Vec::new();
    assert(none@.map_values(|o: EntryOutcome| o@) =~= Seq::<Outcome>::empty());
    if image.len() < HEADER_SIZE {
        return (none, Some(SplitError::Truncated));
    }
    let magic = read_le32(image, 0);
    if magic == AML_DT_HEADER {
        split_container(image)
    } else if magic % 65536 == GZIP_MAGIC {
        match gunzip(image) {
            Some(d) => split_container(d.as_slice()),
            None => (none, Some(SplitError::Decompress)),
        }
    } else {
        (none, Some(SplitError::BadMagic(magic)))
    }
}

/// A gzip stream of a container splits as the container itself does: the
/// stream is told apart by the low 16 bits of its first word alone.
pub proof fn lemma_gzip_transparent(image: Seq<u8>, container: Seq<u8>)
    requires
        image.len() >= HEADER_SIZE,
        le32(image, 0) != AML_DT_HEADER,
        le32(image, 0) % 65536 == GZIP_MAGIC,
        gunzipped(image) == Some(container),
    ensures
        image_outcomes(image, gunzipped(image)) == container_outcomes(container),
{
}

/// An uncompressed container splits as itself.
pub proof fn lemma_plain_container(image: Seq<u8>, unzipped: Option<Seq<u8>>)
    requires
        image.len() >= HEADER_SIZE,
        le32(image, 0) == AML_DT_HEADER,
    ensures
        image_outcomes(image, unzipped) == container_outcomes(image),
{
}

/// The version picks the width of the identifier fields: 4 bytes for
/// version 1, 16 for version 2; any other version is refused before any entry
/// is read.
pub proof fn lemma_version_dispatch(d: Seq<u8>)
    requires
        d.len() >= HEADER_SIZE,
        le32(d, 0) == AML_DT_HEADER,
    ensures
        le32(d, 4) == 1 ==> container_outcomes(d) == table_split(d, le32(d, 8), 4),
        le32(d, 4) == 2 ==> container_outcomes(d) == table_split(d, le32(d, 8), 16),
        le32(d, 4) != 1 && le32(d, 4) != 2 ==> container_outcomes(d) == (
            Seq::<Outcome>::empty(),
            Some(SplitError::BadVersion(le32(d, 4))),
        ),
{
}

/// An entry without a blob signature at its offset is skipped on its own: it
/// never stops the split, and every entry handled gets its own outcome, in
/// table order.
pub proof fn lemma_fault_isolation(d: Seq<u8>, count: u32, w: nat, i: int)
    requires
        HEADER_SIZE + count * entry_size(w) <= d.len(),
        0 <= i < count,
        ({
            let e = entry_at(d, HEADER_SIZE + i * entry_size(w), w);
            &&& e.offset + 8 <= d.len()
            &&& le32(d, e.offset as int) != DT_HEADER_MAGIC
        }),
    ensures
        table_outcomes(d, count as nat, w)[i] is Skipped,
        table_split(d, count, w).0 == table_outcomes(d, count as nat, w).take(
            table_split(d, count, w).0.len() as int,
        ),
        table_split(d, count, w).1 is None <==> table_split(d, count, w).0.len() == count,
{
    lemma_fault_free_len(table_outcomes(d, count as nat, w));
}

} // verus!
