use std::io::Write;

use dtb_tool::ident::{
    copy_str_to_cstr, decode_field, encode_field, pad_spaces, split_identifier, swap_words,
};
use dtb_tool::layout::{AsByteSlice, Header, HeaderEntry};
use dtb_tool::pack::{chip_info_from, dtb_pack, get_chip_info, pack_chips, ChipInfo, PackError};
use dtb_tool::split::{dtb_split, split_container, EntryOutcome, SplitError};

fn be(v: u32) -> [u8; 4] {
    v.to_be_bytes()
}

fn le(v: u32) -> [u8; 4] {
    v.to_le_bytes()
}

/// A flattened device tree whose root node carries `amlogic-dt-id = id`,
/// followed by `extra` zero bytes.
fn fdt_with_id(id: &str, extra: usize) -> Vec<u8> {
    let mut st = Vec::new();
    st.extend(be(1));
    st.extend([0u8; 4]);
    let mut val = id.as_bytes().to_vec();
    val.push(0);
    st.extend(be(3));
    st.extend(be(val.len() as u32));
    st.extend(be(0));
    st.extend(&val);
    while st.len() % 4 != 0 {
        st.push(0);
    }
    st.extend(be(2));
    st.extend(be(9));
    let strings = b"amlogic-dt-id\0".to_vec();
    let off_struct = 56u32;
    let off_strings = off_struct + st.len() as u32;
    let total = off_strings as usize + strings.len() + extra;
    let mut b = Vec::new();
    b.extend(be(0xd00dfeed));
    b.extend(be(total as u32));
    b.extend(be(off_struct));
    b.extend(be(off_strings));
    b.extend(be(40));
    b.extend(be(17));
    b.extend(be(16));
    b.extend(be(0));
    b.extend(be(strings.len() as u32));
    b.extend(be(st.len() as u32));
    b.extend([0u8; 16]);
    b.extend(st);
    b.extend(strings);
    b.extend(vec![0u8; extra]);
    assert_eq!(b.len(), total);
    b
}

/// A blob with the device-tree signature and size header, `len` bytes long.
fn plain_blob(len: usize, fill: u8) -> Vec<u8> {
    let mut b = Vec::new();
    b.extend(be(0xd00dfeed));
    b.extend(be(len as u32));
    while b.len() < len {
        b.push(fill);
    }
    b
}

fn chip(id: &str, blob: Vec<u8>, page: u32) -> ChipInfo {
    chip_info_from(blob, id.as_bytes(), page).unwrap()
}

fn split_ok(image: &[u8]) -> Vec<EntryOutcome> {
    let (got, err) = dtb_split(image);
    assert_eq!(err, None);
    got
}

fn extracted(o: &EntryOutcome) -> (String, Vec<u8>) {
    match o {
        EntryOutcome::Extracted { name, data } => {
            (String::from_utf8(name.clone()).unwrap(), data.clone())
        }
        EntryOutcome::Skipped { .. } => panic!("entry was skipped"),
    }
}

/// A version 1 container with one entry per `(soc, plat, vari, blob)`.
fn v1_container(entries: &[(&[u8; 4], &[u8; 4], &[u8; 4], Vec<u8>)]) -> Vec<u8> {
    let mut out = Vec::new();
    out.extend(le(0x5f4c4d41));
    out.extend(le(1));
    out.extend(le(entries.len() as u32));
    let mut off = 12 + 20 * entries.len() as u32;
    for (s, p, v, blob) in entries {
        for f in [s, p, v] {
            let mut w = **f;
            w.reverse();
            out.extend(w);
        }
        out.extend(le(off));
        out.extend(le(blob.len() as u32));
        off += blob.len() as u32;
    }
    for (_, _, _, blob) in entries {
        out.extend(blob);
    }
    out
}

#[test]
fn identifier_round_trip() {
    let (a, b, c) = split_identifier(b"gxbb-p200-1a").unwrap();
    let mut name = decode_field(&encode_field(&a));
    name.push(b'-');
    name.extend(decode_field(&encode_field(&b)));
    name.push(b'-');
    name.extend(decode_field(&encode_field(&c)));
    assert_eq!(name, b"gxbb-p200-1a".to_vec());
}

#[test]
fn encode_field_reverses_words_and_pads() {
    let f = encode_field(b"gxbb");
    assert_eq!(f, b"bbxg            ".to_vec());
    let g = encode_field(b"p200");
    assert_eq!(&g[..4], b"002p");
}

#[test]
fn split_identifier_needs_three_parts() {
    let (a, b, c) = split_identifier(b"g12a_u200-v1").unwrap();
    assert_eq!((a, b, c), (b"g12a".to_vec(), b"u200".to_vec(), b"v1".to_vec()));
    assert!(split_identifier(b"gxbb-p200").is_none());
    assert!(split_identifier(b"a-b-c-d").is_none());
    assert_eq!(split_identifier(b"--").unwrap(), (vec![], vec![], vec![]));
}

#[test]
fn pad_spaces_turns_trailing_nuls_only() {
    let mut s = vec![b'a', 0, b'b', 0, 0];
    pad_spaces(&mut s);
    assert_eq!(s, vec![b'a', 0, b'b', b' ', b' ']);
    let mut z = vec![0u8; 4];
    pad_spaces(&mut z);
    assert_eq!(z, b"   \0".to_vec());
}

#[test]
fn copy_str_to_cstr_stops_and_truncates() {
    let mut d = vec![0u8; 16];
    copy_str_to_cstr(&mut d, b"ab cd");
    assert_eq!(&d[..3], &[b'a', b'b', 0]);
    let mut d = vec![7u8; 16];
    copy_str_to_cstr(&mut d, b"0123456789abcdefXYZ");
    assert_eq!(&d[..15], b"0123456789abcde");
    assert_eq!(d[15], 0);
    let mut d = vec![7u8; 16];
    copy_str_to_cstr(&mut d, b"ab");
    assert_eq!(d, b"ab\0\0\0\0\0\0\0\0\0\0\0\0\0\0".to_vec());
    let mut d = vec![0u8; 16];
    copy_str_to_cstr(&mut d, "x\u{e9}y".as_bytes());
    assert_eq!(&d[..2], &[b'x', 0]);
}

#[test]
fn swap_words_reverses_each_word() {
    assert_eq!(swap_words(&[1, 2, 3, 4, 5, 6, 7, 8]), vec![4, 3, 2, 1, 8, 7, 6, 5]);
}

#[test]
fn header_bytes_are_little_endian() {
    let h = Header { magic: 0x5f4c4d41, version: 2, entry_count: 3 };
    assert_eq!(h.as_slice(), b"AML_\x02\0\0\0\x03\0\0\0".to_vec());
    let e = HeaderEntry::<4>::new();
    assert_eq!(e.as_slice(), vec![0u8; 20]);
}

#[test]
fn alignment_quirk_adds_a_page() {
    let c = chip("gxbb-p200-1a", plain_blob(4096, 1), 2048);
    assert_eq!(c.dtb_size, 6144);
    let c = chip("gxbb-p200-1a", plain_blob(4000, 1), 2048);
    assert_eq!(c.dtb_size, 4096);
}

#[test]
fn chip_info_needs_three_components() {
    assert!(chip_info_from(plain_blob(100, 1), b"gxbb-p200", 2048).is_none());
}

#[test]
fn empty_input_gives_no_container() {
    assert_eq!(dtb_pack(&vec![], 2048), Err(PackError::Empty));
    assert_eq!(pack_chips(&vec![], 2048), Err(PackError::Empty));
    assert_eq!(dtb_pack(&vec![plain_blob(100, 1)], 2048), Err(PackError::Empty));
}

#[test]
fn get_chip_info_reads_the_identifier_property() {
    let b = fdt_with_id("gxbb-p200-1a", 3);
    let len = b.len();
    let c = get_chip_info(b, 2048).unwrap();
    assert_eq!(&c.chipset[..5], b"gxbb\0");
    assert_eq!(&c.platform[..5], b"p200\0");
    assert_eq!(&c.rev_num[..3], b"1a\0");
    assert_eq!(c.dtb_size as usize, 2048);
    assert_eq!(c.dtb_file.len(), len);
    assert!(get_chip_info(plain_blob(100, 1), 2048).is_none());
}

#[test]
fn pack_layout() {
    let a = plain_blob(100, 0xaa);
    let out = pack_chips(&vec![chip("gxbb-p200-1a", a.clone(), 512)], 512).unwrap();
    assert_eq!(&out[..12], b"AML_\x02\0\0\0\x01\0\0\0");
    assert_eq!(&out[12..28], b"bbxg            ");
    assert_eq!(&out[28..44], b"002p            ");
    assert_eq!(&out[44..60], b"  a1            ");
    assert_eq!(&out[60..64], &le(512));
    assert_eq!(&out[64..68], &le(512));
    assert_eq!(&out[68..72], &[0, 0, 0, 0]);
    assert_eq!(&out[512..612], &a[..]);
    assert_eq!(out.len(), 1024);
}

#[test]
fn pack_then_split_round_trip() {
    let blobs = vec![
        fdt_with_id("gxbb-p200-1a", 5),
        fdt_with_id("gxl_p212_2g", 3000),
        fdt_with_id("g12a-u200-v1", 0),
    ];
    let out = dtb_pack(&blobs, 2048).unwrap();
    let got = split_ok(&out);
    assert_eq!(got.len(), 3);
    assert_eq!(extracted(&got[0]), ("gxbb-p200-1a".to_string(), blobs[0].clone()));
    assert_eq!(extracted(&got[1]), ("gxl-p212-2g".to_string(), blobs[1].clone()));
    assert_eq!(extracted(&got[2]), ("g12a-u200-v1".to_string(), blobs[2].clone()));
}

#[test]
fn version_one_uses_four_byte_fields() {
    let c = v1_container(&[(b"gxbb", b"p200", b"1a  ", plain_blob(40, 3))]);
    let (got, err) = split_container(&c);
    assert_eq!(err, None);
    assert_eq!(extracted(&got[0]), ("gxbb-p200-1a".to_string(), plain_blob(40, 3)));
}

#[test]
fn unknown_version_is_refused() {
    let mut c = v1_container(&[(b"gxbb", b"p200", b"1a  ", plain_blob(40, 3))]);
    c[4] = 3;
    let (got, err) = dtb_split(&c);
    assert!(got.is_empty());
    assert_eq!(err, Some(SplitError::BadVersion(3)));
}

#[test]
fn corrupt_blob_is_skipped_alone() {
    let mut c = v1_container(&[
        (b"aaaa", b"bbbb", b"cccc", plain_blob(40, 1)),
        (b"dddd", b"eeee", b"ffff", plain_blob(40, 2)),
        (b"gggg", b"hhhh", b"iiii", plain_blob(40, 3)),
    ]);
    let second = 12 + 60 + 40;
    c[second] = 0;
    let got = split_ok(&c);
    assert_eq!(got.len(), 3);
    assert_eq!(extracted(&got[0]).1, plain_blob(40, 1));
    assert_eq!(extracted(&got[2]).1, plain_blob(40, 3));
    let skipped: Vec<_> =
        got.iter().filter(|o| matches!(o, EntryOutcome::Skipped { .. })).collect();
    assert_eq!(skipped.len(), 1);
    match &got[1] {
        EntryOutcome::Skipped { name, magic } => {
            assert_eq!(name, &b"dddd-eeee-ffff".to_vec());
            assert_eq!(*magic, 0xedfe0d00);
        }
        _ => panic!("second entry was not skipped"),
    }
}

#[test]
fn gzip_container_splits_the_same() {
    let blobs = vec![fdt_with_id("gxbb-p200-1a", 7), fdt_with_id("gxl-p212-2g", 100)];
    let plain = dtb_pack(&blobs, 2048).unwrap();
    let mut enc = flate2::write::GzEncoder::new(Vec::new(), flate2::Compression::default());
    enc.write_all(&plain).unwrap();
    let gz = enc.finish().unwrap();
    let a = split_ok(&plain);
    let b = split_ok(&gz);
    assert_eq!(a.len(), b.len());
    for (x, y) in a.iter().zip(b.iter()) {
        assert_eq!(extracted(x), extracted(y));
    }
}

#[test]
fn bad_gzip_and_bad_magic_are_refused() {
    let mut junk = vec![0x1f, 0x8b, 0, 0];
    junk.extend(vec![0xffu8; 20]);
    assert_eq!(dtb_split(&junk).1, Some(SplitError::Decompress));
    assert_eq!(dtb_split(&[1u8; 16]).1, Some(SplitError::BadMagic(0x01010101)));
    assert_eq!(dtb_split(&[1u8; 5]).1, Some(SplitError::Truncated));
}

#[test]
fn entry_past_end_is_truncated() {
    let mut c = v1_container(&[(b"gxbb", b"p200", b"1a  ", plain_blob(40, 3))]);
    c.truncate(60);
    let (got, err) = split_container(&c);
    assert!(got.is_empty());
    assert_eq!(err, Some(SplitError::Truncated));
    let mut c = v1_container(&[(b"gxbb", b"p200", b"1a  ", plain_blob(40, 3))]);
    c.truncate(30);
    let (got, err) = split_container(&c);
    assert!(got.is_empty());
    assert_eq!(err, Some(SplitError::Truncated));
}

#[test]
fn entries_before_a_fault_are_kept() {
    let c = v1_container(&[
        (b"aaaa", b"bbbb", b"cccc", plain_blob(40, 1)),
        (b"dddd", b"eeee", b"ffff", plain_blob(40, 2)),
    ]);
    let mut c = c;
    c.truncate(c.len() - 1);
    let (got, err) = split_container(&c);
    assert_eq!(err, Some(SplitError::Truncated));
    assert_eq!(got.len(), 1);
    assert_eq!(extracted(&got[0]), ("aaaa-bbbb-cccc".to_string(), plain_blob(40, 1)));
}

#[test]
fn aligned_blob_records_an_extra_page() {
    let b = plain_blob(4096, 5);
    let out = pack_chips(&vec![chip("gxbb-p200-1a", b.clone(), 2048)], 2048).unwrap();
    assert_eq!(&out[60..64], &le(2048));
    assert_eq!(&out[64..68], &le(6144));
    assert_eq!(out.len(), 2048 + 4096);
    assert_eq!(&out[2048..], &b[..]);
    let got = split_ok(&out);
    assert_eq!(extracted(&got[0]), ("gxbb-p200-1a".to_string(), b));
}

#[test]
fn empty_component_keeps_a_nul() {
    let f = encode_field(b"");
    assert_eq!(f, b"            \0   ".to_vec());
    assert_eq!(decode_field(&f), Vec::<u8>::new());
}

#[test]
fn pack_then_split_with_aligned_last_blob() {
    let base = fdt_with_id("g12b-w400-a1", 0).len();
    let extra = 2048 - base % 2048;
    let blobs = vec![fdt_with_id("gxbb-p200-1a", 5), fdt_with_id("g12b-w400-a1", extra)];
    assert_eq!(blobs[1].len() % 2048, 0);
    let out = dtb_pack(&blobs, 2048).unwrap();
    let got = split_ok(&out);
    assert_eq!(got.len(), 2);
    assert_eq!(extracted(&got[0]), ("gxbb-p200-1a".to_string(), blobs[0].clone()));
    assert_eq!(extracted(&got[1]), ("g12b-w400-a1".to_string(), blobs[1].clone()));
}
