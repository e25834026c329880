//! Decoded record headers and the specification of reading one from the
//! byte image.

use vstd::prelude::*;
use vstd::utf8::decode_utf8;
use vstd::utf8::valid_utf8;
use crate::bytes::be_val;
use crate::jrdb_type::spec_header_len;

verus! {

/// A decoded snapshot of one record header together with its derived
/// offsets.  Snapshots go stale as soon as the byte image is spliced.
pub struct HeaderDetail {
    pub found: bool,
    pub key: String,
    pub header_start: usize,
    pub content_start: usize,
    pub content_end: usize,
    pub content_size: usize,
    pub content_length: usize,
    pub content_type: u8,
    pub depth: u8,
}

/// The depth byte of the record at `p`.
pub open spec fn hd_depth(b: Seq<u8>, p: int) -> u8 {
    b[p]
}

/// The type byte of the record at `p`.
pub open spec fn hd_type(b: Seq<u8>, p: int) -> u8 {
    b[p + 1]
}

/// The key length byte of the record at `p`.
pub open spec fn hd_key_len(b: Seq<u8>, p: int) -> int {
    b[p + 2] as int
}

/// The size field of the record at `p`: its total byte length.
pub open spec fn hd_size(b: Seq<u8>, p: int) -> int {
    be_val(b.subrange(p + 3, p + 7))
}

/// The count field of the record at `p`; zero for non-collections.
pub open spec fn hd_count(b: Seq<u8>, p: int) -> int {
    if hd_type(b, p) == 1 {
        be_val(b.subrange(p + 7, p + 11))
    } else {
        0
    }
}

/// Where the key bytes of the record at `p` begin.
pub open spec fn hd_key_start(b: Seq<u8>, p: int) -> int {
    p + spec_header_len(hd_type(b, p))
}

/// Where the content of the record at `p` begins.
pub open spec fn hd_content_start(b: Seq<u8>, p: int) -> int {
    hd_key_start(b, p) + hd_key_len(b, p)
}

/// Where the record at `p` ends.
pub open spec fn hd_content_end(b: Seq<u8>, p: int) -> int {
    p + hd_size(b, p)
}

/// The key bytes of the record at `p`.
pub open spec fn hd_key_bytes(b: Seq<u8>, p: int) -> Seq<u8> {
    b.subrange(hd_key_start(b, p), hd_content_start(b, p))
}

/// Whether a readable record header sits at `p`: the fixed header and the
/// key lie within the buffer, the size field covers at least them, the whole
/// record lies within the buffer, and the key is valid UTF-8.  A size field
/// too small to cover its own header and key counts as a header fault here,
/// so walkers report it as a corrupt header rather than corrupt structure.
pub open spec fn hd_wf(b: Seq<u8>, p: int) -> bool {
    &&& 0 <= p
    &&& p + spec_header_len(hd_type(b, p)) <= b.len()
    &&& hd_content_start(b, p) <= b.len()
    &&& hd_content_start(b, p) <= hd_content_end(b, p)
    &&& hd_content_end(b, p) <= b.len()
    &&& valid_utf8(hd_key_bytes(b, p))
}

/// Whether `h` is the decoded header of the record at `p` in `b`.
pub open spec fn decoded_at(h: HeaderDetail, b: Seq<u8>, p: int) -> bool {
    &&& h.found
    &&& h.header_start == p
    &&& h.key@ == decode_utf8(hd_key_bytes(b, p))
    &&& h.content_start == hd_content_start(b, p)
    &&& h.content_end == hd_content_end(b, p)
    &&& h.content_size == hd_size(b, p)
    &&& h.content_length == hd_count(b, p)
    &&& h.content_type == hd_type(b, p)
    &&& h.depth == hd_depth(b, p)
}

/// The outcome of scanning sibling records for a key.
pub enum FindV {
    Found(int),
    Missing,
    BadHeader,
    BadStruct,
}

/// Scan sibling records from `p` to `limit` for the first whose key is `key`
/// and, unless `ty` is 255, whose type is `ty`.
pub open spec fn spec_find(b: Seq<u8>, p: int, limit: int, key: Seq<char>, ty: u8) -> FindV
    decreases limit - p,
{
    if p == limit {
        FindV::Missing
    } else if p > limit || p < 0 {
        FindV::BadStruct
    } else if !hd_wf(b, p) {
        FindV::BadHeader
    } else if hd_content_end(b, p) > limit {
        FindV::BadStruct
    } else if (ty == 255 || hd_type(b, p) == ty) && decode_utf8(hd_key_bytes(b, p)) == key {
        FindV::Found(p)
    } else {
        spec_find(b, hd_content_end(b, p), limit, key, ty)
    }
}

} // verus!
