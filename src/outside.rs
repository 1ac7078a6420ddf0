//! The calls into outside crates: gzip decompression and the lookup of a
//! string property in a device tree.
use std::io::Read;
use vstd::prelude::*;

verus! {

/// What decompressing `data` as a gzip stream gives; `None` where it is no
/// valid stream.
pub uninterp spec fn gunzipped(data: Seq<u8>) -> Option<Seq<u8>>;

/// Relies on flate2::read::GzDecoder, read to its end with `Read::read_to_end`:
/// the decompressed stream, or an error where `data` is no valid gzip stream.
/// The outcome depends on `data` alone.
#[verifier::external_body]
pub(crate) fn gunzip(data: &[u8]) -> (r: Option<Vec<u8>>)
    ensures
        r is Some <==> gunzipped(data@) is Some,
        r matches Some(v) ==> gunzipped(data@) == Some(v@),
{
    let mut out = Vec::new();
    match flate2::read::GzDecoder::new(data).read_to_end(&mut out) {
        Ok(_) => Some(out),
        Err(_) => None,
    }
}

/// The UTF-8 bytes of the string property `name` of the node at `path` in the
/// device-tree blob `blob`; `None` where the blob does not load, the node or
/// the property is absent, or the value is no NUL-terminated UTF-8 string.
pub uninterp spec fn dt_prop_str(blob: Seq<u8>, path: Seq<char>, name: Seq<char>) -> Option<Seq<u8>>;

/// Relies on device_tree::DeviceTree::load, DeviceTree::find and
/// Node::prop_str: each fails by returning an error or `None`, and the
/// outcome depends on the blob, the path and the name alone.
#[verifier::external_body]
pub(crate) fn dt_lookup_str(blob: &[u8], path: &str, name: &str) -> (r: Option<Vec<u8>>)
    ensures
        r is Some <==> dt_prop_str(blob@, path@, name@) is Some,
        r matches Some(v) ==> dt_prop_str(blob@, path@, name@) == Some(v@),
{
    let dt = device_tree::DeviceTree::load(blob).ok()?;
    let node = dt.find(path)?;
    node.prop_str(name).ok().map(|s| s.as_bytes().to_vec())
}

} // verus!
