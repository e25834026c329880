//! General properties of the engine, stated and proved over its
//! specification functions.

use vstd::prelude::*;
use vstd::utf8::decode_utf8;
use vstd::utf8::encode_utf8;
use crate::bytes::be_bytes;
use crate::bytes::be_val;
use crate::bytes::lemma_be_bytes_len;
use crate::bytes::lemma_be_round_trip;
use crate::bytes::pow256;
use crate::db::spec_insert;
use crate::err::JrError;
use crate::bytes::spec_splice;
use crate::db::spec_select;
use crate::db::spec_child_record;
use crate::db::with_size;
use crate::db::with_count;
use crate::db::inserted;
use crate::db::WalkV;
use crate::db::lemma_record_len;
use crate::header::FindV;
use crate::header::spec_find;
use crate::header::hd_wf;
use crate::header::hd_key_len;
use crate::header::hd_size;
use crate::header::hd_count;
use crate::header::hd_depth;
use crate::header::hd_type;
use crate::header::hd_key_bytes;
use crate::header::hd_content_start;
use crate::header::hd_content_end;
use crate::jrdb_type::JrCondition;
use crate::jrdb_type::JrDocument;
use crate::jrdb_type::ValV;
use crate::jrdb_type::spec_record;
use crate::jrdb_type::spec_header_len;

verus! {

/// Inserting a payload keeps every byte before the insertion point and
/// shifts the rest.
pub proof fn lemma_inserted(b: Seq<u8>, at: int, p: Seq<u8>)
    requires
        0 <= at <= b.len(),
    ensures
        inserted(b, at, p).len() == b.len() + p.len(),
        forall|i: int| 0 <= i < at ==> #[trigger] inserted(b, at, p)[i] == b[i],
        forall|i: int| 0 <= i < p.len() ==> #[trigger] inserted(b, at, p)[at + i] == p[i],
        forall|i: int|
            at <= i < b.len() ==> #[trigger] inserted(b, at, p)[i + p.len()] == b[i],
{
}

/// What a successful scan pins down about the record it found.
pub proof fn lemma_spec_find_found(b: Seq<u8>, p: int, limit: int, key: Seq<char>, ty: u8, c: int)
    requires
        spec_find(b, p, limit, key, ty) == FindV::Found(c),
    ensures
        p <= c,
        hd_wf(b, c),
        hd_content_end(b, c) <= limit,
        ty == 255 || hd_type(b, c) == ty,
        decode_utf8(hd_key_bytes(b, c)) == key,
    decreases limit - p,
{
    if p == limit {
    } else if p > limit || p < 0 {
    } else if !hd_wf(b, p) {
    } else if hd_content_end(b, p) > limit {
    } else if (ty == 255 || hd_type(b, p) == ty) && decode_utf8(hd_key_bytes(b, p)) == key {
    } else {
        lemma_spec_find_found(b, hd_content_end(b, p), limit, key, ty, c);
    }
}

/// A freshly encoded record is self-describing: its size field reads back
/// as its own byte length.
pub proof fn lemma_record_self_sized(depth: int, ty: u8, key: Seq<u8>, count: int, content: Seq<
    u8,
>)
    requires
        spec_header_len(ty) + key.len() + content.len() <= 0xFFFFFFFF,
    ensures
        be_val(spec_record(depth, ty, key, count, content).subrange(3, 7)) == spec_record(
            depth,
            ty,
            key,
            count,
            content,
        ).len(),
{
    let r = spec_record(depth, ty, key, count, content);
    let size = spec_header_len(ty) + key.len() + content.len();
    lemma_record_len(depth, ty, key, count, content);
    lemma_be_bytes_len(size, 4);
    lemma_be_bytes_len(count, 4);
    assert(r.subrange(3, 7) =~= be_bytes(size, 4));
    reveal_with_fuel(pow256, 5);
    lemma_be_round_trip(size, 4);
}

/// Total byte balance is preserved by insert: when the buffer length equals
/// the root's size field before an insert, it does after.
pub proof fn lemma_insert_balanced(b: Seq<u8>, name: Seq<char>, doc: JrDocument, b2: Seq<u8>)
    requires
        spec_insert(b, name, doc) == Ok::<Seq<u8>, crate::err::JrError>(b2),
        hd_size(b, 0) == b.len(),
    ensures
        hd_size(b2, 0) == b2.len(),
{
    reveal(spec_insert);
    reveal_with_fuel(pow256, 5);
    match spec_find(b, hd_content_start(b, 0), hd_content_end(b, 0), name, 1) {
        FindV::Found(c) => {
            let dp = hd_depth(b, c) + 1;
            let child = spec_child_record(doc, dp, hd_count(b, c) + 1);
            let b1 = inserted(b, hd_content_end(b, c), child);
            let b2x = with_size(b1, c, hd_size(b, c) + child.len());
            let b3 = with_count(b2x, c, hd_count(b, c) + 1);
            let b4 = with_size(b3, 0, hd_size(b, 0) + child.len());
            lemma_spec_find_found(b, hd_content_start(b, 0), hd_content_end(b, 0), name, 1, c);
            lemma_be_bytes_len(hd_size(b, c) + child.len(), 4);
            lemma_be_bytes_len(hd_count(b, c) + 1, 4);
            lemma_be_bytes_len(hd_size(b, 0) + child.len(), 4);
            assert(b4.subrange(3, 7) =~= be_bytes(hd_size(b, 0) + child.len(), 4));
            lemma_be_round_trip(hd_size(b, 0) + child.len(), 4);
            assert(b4.len() == b.len() + child.len());
        },
        FindV::Missing => {
            let key = vstd::utf8::encode_utf8(name);
            let dp = hd_depth(b, 0) + 1;
            let ch = crate::jrdb_type::spec_header(dp, 1, key, 11 + key.len() as int, 0);
            let re = hd_content_end(b, 0);
            let child = spec_child_record(doc, dp + 1, 1);
            let b1 = inserted(b, re, ch);
            let b2x = with_size(b1, 0, hd_size(b, 0) + ch.len());
            let b3 = inserted(b2x, re + ch.len(), child);
            let b4 = with_size(b3, re, 11 + key.len() as int + child.len() as int);
            let b5 = with_count(b4, re, 1);
            let b6 = with_size(b5, 0, hd_size(b, 0) + ch.len() + child.len());
            lemma_be_bytes_len(hd_size(b, 0) + ch.len(), 4);
            lemma_be_bytes_len(11 + key.len() as int + child.len() as int, 4);
            lemma_be_bytes_len(1, 4);
            lemma_be_bytes_len(hd_size(b, 0) + ch.len() + child.len(), 4);
            assert(b6.subrange(3, 7) =~= be_bytes(hd_size(b, 0) + ch.len() + child.len(), 4));
            lemma_be_round_trip(hd_size(b, 0) + ch.len() + child.len(), 4);
            assert(b6.len() == b.len() + ch.len() + child.len());
        },
        _ => {
            assert(false);
        },
    }
}

/// Insert monotonicity of count: inserting into an existing collection
/// increments its on-disk count field by exactly one, so the count never
/// decreases.
pub proof fn lemma_insert_count(
    b: Seq<u8>,
    name: Seq<char>,
    doc: JrDocument,
    b2: Seq<u8>,
    c: int,
)
    requires
        spec_insert(b, name, doc) == Ok::<Seq<u8>, crate::err::JrError>(b2),
        spec_find(b, hd_content_start(b, 0), hd_content_end(b, 0), name, 1) == FindV::Found(c),
    ensures
        be_val(b2.subrange(c + 7, c + 11)) == hd_count(b, c) + 1,
{
    reveal(spec_insert);
    reveal_with_fuel(pow256, 5);
    let dp = hd_depth(b, c) + 1;
    let child = spec_child_record(doc, dp, hd_count(b, c) + 1);
    let b1 = inserted(b, hd_content_end(b, c), child);
    let b2x = with_size(b1, c, hd_size(b, c) + child.len());
    let b3 = with_count(b2x, c, hd_count(b, c) + 1);
    let b4 = with_size(b3, 0, hd_size(b, 0) + child.len());
    lemma_spec_find_found(b, hd_content_start(b, 0), hd_content_end(b, 0), name, 1, c);
    lemma_be_bytes_len(hd_size(b, c) + child.len(), 4);
    lemma_be_bytes_len(hd_count(b, c) + 1, 4);
    lemma_be_bytes_len(hd_size(b, 0) + child.len(), 4);
    assert(hd_content_start(b, 0) >= 7);
    assert(b3.subrange(c + 7, c + 11) =~= be_bytes(hd_count(b, c) + 1, 4));
    assert(b4.subrange(c + 7, c + 11) =~= b3.subrange(c + 7, c + 11));
    crate::bytes::lemma_be_val_bound(b.subrange(c + 7, c + 11));
    lemma_be_round_trip(hd_count(b, c) + 1, 4);
}

/// Depth monotonicity at insert: the record appended to an existing
/// collection carries the collection's depth plus one.
pub proof fn lemma_insert_child_depth(
    b: Seq<u8>,
    name: Seq<char>,
    doc: JrDocument,
    b2: Seq<u8>,
    c: int,
)
    requires
        spec_insert(b, name, doc) == Ok::<Seq<u8>, crate::err::JrError>(b2),
        spec_find(b, hd_content_start(b, 0), hd_content_end(b, 0), name, 1) == FindV::Found(c),
    ensures
        hd_depth(b2, hd_content_end(b, c)) == hd_depth(b, c) + 1,
{
    reveal(spec_insert);
    let dp = hd_depth(b, c) + 1;
    let child = spec_child_record(doc, dp, hd_count(b, c) + 1);
    let ce = hd_content_end(b, c);
    let b1 = inserted(b, ce, child);
    let b2x = with_size(b1, c, hd_size(b, c) + child.len());
    let b3 = with_count(b2x, c, hd_count(b, c) + 1);
    let b4 = with_size(b3, 0, hd_size(b, 0) + child.len());
    lemma_spec_find_found(b, hd_content_start(b, 0), hd_content_end(b, 0), name, 1, c);
    lemma_be_bytes_len(hd_size(b, c) + child.len(), 4);
    lemma_be_bytes_len(hd_count(b, c) + 1, 4);
    lemma_be_bytes_len(hd_size(b, 0) + child.len(), 4);
    lemma_record_len(
        dp,
        0,
        vstd::utf8::encode_utf8(crate::dec::dec_chars(hd_count(b, c) + 1)),
        0,
        crate::jrdb_type::spec_doc_content(doc, 0, dp),
    );
    lemma_inserted(b, ce, child);
    assert(child[0] == dp as u8);
    assert(b1[ce] == dp as u8);
    assert(hd_content_start(b, 0) >= 7);
    assert(b4[ce] == dp as u8);
}

/// Condition idempotence: the same select over the same bytes and the same
/// condition describes one result; and a select never changes the bytes.
pub proof fn lemma_select_idempotent(
    b: Seq<u8>,
    name: Seq<char>,
    cond: JrCondition,
    r1: Seq<Seq<(Seq<char>, ValV)>>,
    r2: Seq<Seq<(Seq<char>, ValV)>>,
)
    requires
        spec_select(b, name, cond) == WalkV::Done(r1),
        spec_select(b, name, cond) == WalkV::Done(r2),
    ensures
        r1 == r2,
{
}

/// Whether every field of a document holds an integer or a string.
pub open spec fn flat_doc(d: JrDocument) -> bool {
    forall|i: int|
        0 <= i < d.data@.len() ==> ((#[trigger] d.data@[i].1) is JrI64 || d.data@[i].1
            is JrString)
}

/// Decoding the header of a record whose bytes sit at `p` recovers the
/// parameters it was built from.
pub proof fn lemma_decode_record_at(
    b: Seq<u8>,
    p: int,
    depth: int,
    ty: u8,
    key: Seq<u8>,
    count: int,
    content: Seq<u8>,
)
    requires
        0 <= p,
        p + spec_record(depth, ty, key, count, content).len() <= b.len(),
        b.subrange(p, p + spec_record(depth, ty, key, count, content).len()) == spec_record(
            depth,
            ty,
            key,
            count,
            content,
        ),
        key.len() <= 255,
        spec_header_len(ty) + key.len() + content.len() <= 0xFFFFFFFF,
        0 <= count <= 0xFFFFFFFF,
    ensures
        hd_depth(b, p) == depth as u8,
        hd_type(b, p) == ty,
        hd_key_len(b, p) == key.len(),
        hd_size(b, p) == spec_header_len(ty) + key.len() + content.len(),
        hd_count(b, p) == (if ty == 1 { count } else { 0 }),
        hd_key_bytes(b, p) == key,
        hd_content_start(b, p) == p + spec_header_len(ty) + key.len(),
        hd_content_end(b, p) == p + spec_record(depth, ty, key, count, content).len(),
        b.subrange(hd_content_start(b, p), hd_content_end(b, p)) == content,
        vstd::utf8::valid_utf8(key) ==> hd_wf(b, p),
{
    let r = spec_record(depth, ty, key, count, content);
    let size = spec_header_len(ty) + key.len() + content.len();
    lemma_record_len(depth, ty, key, count, content);
    lemma_be_bytes_len(size, 4);
    lemma_be_bytes_len(count, 4);
    let hl = spec_header_len(ty);
    assert(b.subrange(p, p + r.len())[0] == r[0]);
    assert(b.subrange(p, p + r.len())[1] == r[1]);
    assert(b.subrange(p, p + r.len())[2] == r[2]);
    assert(b[p] == r[0]);
    assert(b[p + 1] == r[1]);
    assert(b[p + 2] == r[2]);
    assert forall|j: int| 0 <= j < 4 implies b.subrange(p + 3, p + 7)[j] == be_bytes(
        size,
        4,
    )[j] by {
        assert(b.subrange(p, p + r.len())[3 + j] == r[3 + j]);
        assert(r[3 + j] == be_bytes(size, 4)[j]);
    }
    assert(b.subrange(p + 3, p + 7) =~= be_bytes(size, 4));
    reveal_with_fuel(pow256, 5);
    lemma_be_round_trip(size, 4);
    if ty == 1 {
        assert forall|j: int| 0 <= j < 4 implies b.subrange(p + 7, p + 11)[j] == be_bytes(
            count,
            4,
        )[j] by {
            assert(b.subrange(p, p + r.len())[7 + j] == r[7 + j]);
            assert(r[7 + j] == be_bytes(count, 4)[j]);
        }
        assert(b.subrange(p + 7, p + 11) =~= be_bytes(count, 4));
        lemma_be_round_trip(count, 4);
    }
    assert forall|j: int| 0 <= j < key.len() implies hd_key_bytes(b, p)[j] == key[j] by {
        assert(b.subrange(p, p + r.len())[hl + j] == r[hl + j]);
        assert(r[hl + j] == key[j]);
    }
    assert(hd_key_bytes(b, p) =~= key);
    assert forall|j: int|
        0 <= j < content.len() implies b.subrange(
            hd_content_start(b, p),
            hd_content_end(b, p),
        )[j] == content[j] by {
        assert(b.subrange(p, p + r.len())[hl + key.len() + j] == r[hl + key.len() + j]);
        assert(r[hl + key.len() + j] == content[j]);
    }
    assert(b.subrange(hd_content_start(b, p), hd_content_end(b, p)) =~= content);
}

/// The result of reading the fields of a flat document back, folded over an
/// accumulator as the reader does.
pub open spec fn spec_fold_flat(
    acc: Seq<(Seq<char>, ValV)>,
    d: JrDocument,
    i: int,
) -> Seq<(Seq<char>, ValV)>
    decreases d.data@.len() - i,
{
    if i < 0 || i >= d.data@.len() {
        acc
    } else {
        let key = d.data@[i].0@;
        let acc2 = match d.data@[i].1 {
            crate::jrdb_type::JrAny::JrI64(x) => crate::jrdb_type::spec_set_field(
                acc,
                key,
                ValV::I(x.data),
            ),
            crate::jrdb_type::JrAny::JrString(s) => crate::jrdb_type::spec_set_field(
                acc,
                key,
                ValV::S(s.data@),
            ),
            _ => acc,
        };
        spec_fold_flat(acc2, d, i + 1)
    }
}

/// Round trip of the field codec: reading the encoded content of a flat
/// document recovers exactly its fields, folded over the accumulator in
/// encoding order.
pub proof fn lemma_read_doc_round_trip(
    b: Seq<u8>,
    p: int,
    depth: int,
    d: JrDocument,
    i: int,
    acc: Seq<(Seq<char>, ValV)>,
)
    requires
        flat_doc(d),
        crate::jrdb_type::spec_doc_ok(d, i, depth),
        0 <= i <= d.data@.len(),
        0 <= p,
        p + crate::jrdb_type::spec_doc_content(d, i, depth).len() <= b.len(),
        b.subrange(p, p + crate::jrdb_type::spec_doc_content(d, i, depth).len())
            == crate::jrdb_type::spec_doc_content(d, i, depth),
    ensures
        crate::db::spec_read_doc(
            b,
            p,
            p + crate::jrdb_type::spec_doc_content(d, i, depth).len(),
            acc,
        ) == crate::db::WalkV::Done(spec_fold_flat(acc, d, i)),
    decreases d.data@.len() - i,
{
    let content_all = crate::jrdb_type::spec_doc_content(d, i, depth);
    if i >= d.data@.len() {
        assert(content_all.len() == 0);
    } else {
        let key = d.data@[i].0;
        let v = d.data@[i].1;
        let ty = crate::jrdb_type::spec_tag(v);
        let vbytes = crate::jrdb_type::spec_any_content(v, depth + 1);
        let rec = spec_record(depth + 1, ty, encode_utf8(key@), 0, vbytes);
        let rest = crate::jrdb_type::spec_doc_content(d, i + 1, depth);
        assert(content_all == rec + rest);
        lemma_record_len(depth + 1, ty, encode_utf8(key@), 0, vbytes);
        assert forall|j: int| 0 <= j < rec.len() implies b.subrange(p, p + rec.len())[j]
            == rec[j] by {
            assert(b.subrange(p, p + content_all.len())[j] == content_all[j]);
            assert(content_all[j] == rec[j]);
        }
        assert(b.subrange(p, p + rec.len()) =~= rec);
        assert forall|j: int|
            0 <= j < rest.len() implies b.subrange(p + rec.len(), p + rec.len() + rest.len())[j]
                == rest[j] by {
            assert(b.subrange(p, p + content_all.len())[rec.len() + j] == content_all[rec.len()
                + j]);
            assert(content_all[rec.len() + j] == rest[j]);
        }
        assert(b.subrange(p + rec.len(), p + rec.len() + rest.len()) =~= rest);
        vstd::utf8::encode_utf8_valid_utf8(key@);
        vstd::utf8::encode_utf8_decode_utf8(key@);
        lemma_decode_record_at(b, p, depth + 1, ty, encode_utf8(key@), 0, vbytes);
        assert(hd_wf(b, p));
        let q2 = p + rec.len();
        assert(hd_content_end(b, p) == q2);
        let end = p + content_all.len();
        assert(q2 <= end);
        let content_rng = b.subrange(hd_content_start(b, p), hd_content_end(b, p));
        assert(content_rng == vbytes);
        match v {
            crate::jrdb_type::JrAny::JrI64(x) => {
                assert(ty == 3);
                crate::bytes::lemma_be_bytes_len(crate::bytes::u64_rep(x.data as int), 8);
                assert(vbytes.len() == 8);
                assert(crate::db::pad8(vbytes) =~= vbytes);
                reveal_with_fuel(pow256, 9);
                crate::bytes::lemma_be_round_trip(crate::bytes::u64_rep(x.data as int), 8);
                assert(crate::db::spec_i64_of(vbytes) == x.data);
                let accn = crate::jrdb_type::spec_set_field(
                    acc,
                    decode_utf8(encode_utf8(key@)),
                    ValV::I(crate::db::spec_i64_of(content_rng)),
                );
                lemma_read_doc_round_trip(b, q2, depth, d, i + 1, accn);
                assert(q2 + crate::jrdb_type::spec_doc_content(d, i + 1, depth).len() == end);
            },
            crate::jrdb_type::JrAny::JrString(s) => {
                assert(ty == 2);
                vstd::utf8::encode_utf8_valid_utf8(s.data@);
                vstd::utf8::encode_utf8_decode_utf8(s.data@);
                assert(crate::db::spec_str_of(vbytes) == s.data@);
                let accn = crate::jrdb_type::spec_set_field(
                    acc,
                    decode_utf8(encode_utf8(key@)),
                    ValV::S(crate::db::spec_str_of(content_rng)),
                );
                lemma_read_doc_round_trip(b, q2, depth, d, i + 1, accn);
                assert(q2 + crate::jrdb_type::spec_doc_content(d, i + 1, depth).len() == end);
            },
            _ => {
                assert(false);
            },
        }
    }
}


/// Round trip of one stored document: walking the record that an insert
/// appends for `doc` under sequence number `id` yields exactly the
/// document's fields behind its `_id`, kept when the condition accepts
/// them.
pub proof fn lemma_child_round_trip(
    b: Seq<u8>,
    p: int,
    depth: int,
    doc: JrDocument,
    id: int,
    cond: JrCondition,
    acc: Seq<Seq<(Seq<char>, ValV)>>,
)
    requires
        flat_doc(doc),
        crate::jrdb_type::spec_doc_ok(doc, 0, depth),
        0 <= id <= 0xFFFFFFFFFFFFFFFF,
        7 + encode_utf8(crate::dec::dec_chars(id)).len() + crate::jrdb_type::spec_doc_content(
            doc,
            0,
            depth,
        ).len() <= 0xFFFFFFFF,
        0 <= p,
        p + spec_child_record(doc, depth, id).len() <= b.len(),
        b.subrange(p, p + spec_child_record(doc, depth, id).len()) == spec_child_record(
            doc,
            depth,
            id,
        ),
    ensures
        ({
            let base = crate::jrdb_type::spec_set_field(
                Seq::empty(),
                "_id"@,
                ValV::S(crate::dec::dec_chars(id)),
            );
            let fields = spec_fold_flat(base, doc, 0);
            crate::db::spec_select_walk(
                b,
                p,
                p + spec_child_record(doc, depth, id).len(),
                cond,
                acc,
            ) == crate::db::WalkV::Done(
                if crate::jrdb_type::spec_cond_holds(cond, fields) {
                    acc.push(fields)
                } else {
                    acc
                },
            )
        }),
{
    let key = encode_utf8(crate::dec::dec_chars(id));
    let content = crate::jrdb_type::spec_doc_content(doc, 0, depth);
    let rec = spec_child_record(doc, depth, id);
    crate::dec::lemma_dec_chars_len_u64(id);
    crate::dec::lemma_dec_chars_ascii(id);
    vstd::utf8::encode_utf8_valid_utf8(crate::dec::dec_chars(id));
    vstd::utf8::encode_utf8_decode_utf8(crate::dec::dec_chars(id));
    lemma_decode_record_at(b, p, depth, 0, key, 0, content);
    lemma_record_len(depth, 0, key, 0, content);
    let base = crate::jrdb_type::spec_set_field(
        Seq::empty(),
        "_id"@,
        ValV::S(crate::dec::dec_chars(id)),
    );
    lemma_read_doc_round_trip(b, hd_content_start(b, p), depth, doc, 0, base);
    assert(hd_content_start(b, p) + content.len() == hd_content_end(b, p));
    let end = p + rec.len();
    let fields = spec_fold_flat(base, doc, 0);
    assert(hd_wf(b, p));
    assert(decode_utf8(hd_key_bytes(b, p)) == crate::dec::dec_chars(id));
    assert(hd_content_end(b, p) == end);
    assert(crate::db::spec_read_doc(b, hd_content_start(b, p), end, base)
        == crate::db::WalkV::Done(fields));
    let accn = if crate::jrdb_type::spec_cond_holds(cond, fields) {
        acc.push(fields)
    } else {
        acc
    };
    assert(crate::db::spec_select_walk(b, end, end, cond, accn) == crate::db::WalkV::Done(accn));
    assert(crate::db::spec_select_walk(b, p, end, cond, acc) == crate::db::WalkV::Done(accn));
}


/// The fresh database image is balanced: its eleven bytes are exactly the
/// root record, whose size field reads eleven.
pub proof fn lemma_fresh_balanced()
    ensures
        crate::db::root_init().len() == 11,
        hd_size(crate::db::root_init(), 0) == 11,
        hd_wf(crate::db::root_init(), 0),
{
    let b = crate::db::root_init();
    reveal_with_fuel(crate::bytes::be_val, 6);
    assert(b.subrange(3, 7) =~= seq![0u8, 0u8, 0u8, 11u8]);
    assert(b.subrange(3, 7).drop_last() =~= seq![0u8, 0u8, 0u8]);
    assert(seq![0u8, 0u8, 0u8].drop_last() =~= seq![0u8, 0u8]);
    assert(seq![0u8, 0u8].drop_last() =~= seq![0u8]);
    assert(seq![0u8].drop_last() =~= Seq::<u8>::empty());
    assert(hd_size(b, 0) == 11);
    assert(hd_key_bytes(b, 0) =~= seq![114u8, 111u8, 111u8, 116u8]);
    let chars = seq!['r', 'o', 'o', 't'];
    assert(vstd::utf8::is_ascii_chars(chars));
    vstd::utf8::is_ascii_chars_encode_utf8(chars);
    assert(encode_utf8(chars) =~= hd_key_bytes(b, 0));
    vstd::utf8::encode_utf8_valid_utf8(chars);
}

/// The shape of an insert that creates its collection, on a buffer whose
/// root record spans the whole image: the new collection record, holding
/// the one new document, is appended at the end, and only the root's size
/// field changes before it.
pub proof fn lemma_insert_missing_shape(b: Seq<u8>, name: Seq<char>, doc: JrDocument, b2: Seq<u8>)
    requires
        spec_insert(b, name, doc) == Ok::<Seq<u8>, crate::err::JrError>(b2),
        spec_find(b, hd_content_start(b, 0), hd_content_end(b, 0), name, 1) is Missing,
        hd_content_end(b, 0) == b.len(),
    ensures
        ({
            let key = encode_utf8(name);
            let child = spec_child_record(doc, hd_depth(b, 0) + 2, 1);
            let colrec = spec_record(hd_depth(b, 0) + 1, 1, key, 1, child);
            b2 =~= b.subrange(0, 3) + be_bytes(hd_size(b, 0) + 11 + key.len() + child.len(), 4)
                + b.subrange(7, b.len() as int) + colrec
        }),
{
    reveal(spec_insert);
    let key = encode_utf8(name);
    let dp = hd_depth(b, 0) + 1;
    let ch = crate::jrdb_type::spec_header(dp, 1, key, 11 + key.len() as int, 0);
    let re = hd_content_end(b, 0);
    let child = spec_child_record(doc, dp + 1, 1);
    let b1 = inserted(b, re, ch);
    let b2x = with_size(b1, 0, hd_size(b, 0) + ch.len());
    let b3 = inserted(b2x, re + ch.len(), child);
    let v1 = 11 + key.len() as int + child.len() as int;
    let b4 = with_size(b3, re, v1);
    let b5 = with_count(b4, re, 1);
    let total = hd_size(b, 0) + ch.len() + child.len();
    let b6 = with_size(b5, 0, total);
    let colrec = spec_record(dp, 1, key, 1, child);
    lemma_be_bytes_len(11 + key.len() as int, 4);
    lemma_be_bytes_len(0, 4);
    lemma_be_bytes_len(1, 4);
    lemma_be_bytes_len(v1, 4);
    lemma_be_bytes_len(total, 4);
    lemma_be_bytes_len(hd_size(b, 0) + ch.len(), 4);
    lemma_record_len(dp, 1, key, 1, child);
    assert(ch.len() == 11 + key.len());
    assert(colrec.len() == 11 + key.len() + child.len());
    assert(b1 =~= b + ch);
    assert(b3 =~= b2x + child);
    let target = b.subrange(0, 3) + be_bytes(total, 4) + b.subrange(7, b.len() as int) + colrec;
    assert forall|i: int| 0 <= i < b6.len() implies b6[i] == target[i] by {
        if i < 3 {
        } else if i < 7 {
        } else if i < re {
        } else if i < re + 3 {
            assert(b6[i] == ch[i - re]);
            assert(colrec[i - re] == ch[i - re]);
        } else if i < re + 7 {
            assert(b6[i] == be_bytes(v1, 4)[i - re - 3]);
        } else if i < re + 11 {
            assert(b6[i] == be_bytes(1, 4)[i - re - 7]);
        } else if i < re + 11 + key.len() {
            assert(b6[i] == ch[i - re]);
            assert(ch[i - re] == key[i - re - 11]);
            assert(colrec[i - re] == key[i - re - 11]);
        } else {
            assert(b6[i] == child[i - re - 11 - key.len()]);
            assert(colrec[i - re] == child[i - re - 11 - key.len()]);
        }
    }
    assert(b6 =~= target);
}

/// Round-trip of encode and decode across the engine: inserting a flat
/// document as the first member of a fresh collection and selecting it
/// back yields exactly the document's fields behind `_id` `1`.
#[verifier::rlimit(100)]
#[verifier::spinoff_prover]
pub proof fn lemma_insert_select_round_trip(
    b: Seq<u8>,
    name: Seq<char>,
    doc: JrDocument,
    cond: JrCondition,
    b2: Seq<u8>,
)
    requires
        flat_doc(doc),
        spec_insert(b, name, doc) == Ok::<Seq<u8>, crate::err::JrError>(b2),
        hd_content_start(b, 0) == hd_content_end(b, 0),
        hd_content_end(b, 0) == b.len(),
        hd_type(b, 0) != 1,
        vstd::utf8::valid_utf8(hd_key_bytes(b, 0)),
    ensures
        ({
            let base = crate::jrdb_type::spec_set_field(
                Seq::empty(),
                "_id"@,
                ValV::S(crate::dec::dec_chars(1)),
            );
            let fields = spec_fold_flat(base, doc, 0);
            crate::db::spec_select(b2, name, cond) == crate::db::WalkV::Done(
                if crate::jrdb_type::spec_cond_holds(cond, fields) {
                    seq![fields]
                } else {
                    Seq::empty()
                },
            )
        }),
{
    reveal(spec_insert);
    reveal(crate::db::spec_select);
    let key = encode_utf8(name);
    let dp = hd_depth(b, 0) + 1;
    let child = spec_child_record(doc, dp + 1, 1);
    let colrec = spec_record(dp, 1, key, 1, child);
    let rk = hd_key_bytes(b, 0);
    let total = hd_size(b, 0) + 11 + key.len() + child.len();
    lemma_insert_missing_shape(b, name, doc, b2);
    lemma_be_bytes_len(total, 4);
    lemma_record_len(dp, 1, key, 1, child);
    lemma_record_len(dp + 1, 0, encode_utf8(crate::dec::dec_chars(1)), 0,
        crate::jrdb_type::spec_doc_content(doc, 0, dp + 1));
    // the root's content is empty, so the image is root header, root key,
    // then the new collection record
    assert(spec_find(b, hd_content_start(b, 0), hd_content_end(b, 0), name, 1) is Missing);
    let rootrec = spec_record(hd_depth(b, 0) as int, hd_type(b, 0), rk, 0, colrec);
    assert(hd_size(b, 0) == 7 + rk.len());
    assert(b2 =~= rootrec) by {
        assert(b.subrange(0, 3) =~= seq![hd_depth(b, 0), hd_type(b, 0), b[2]]);
        assert(b[2] as int == rk.len());
        assert(b.subrange(7, b.len() as int) =~= rk);
    }
    vstd::utf8::encode_utf8_valid_utf8(name);
    vstd::utf8::encode_utf8_decode_utf8(name);
    lemma_record_len(hd_depth(b, 0) as int, hd_type(b, 0), rk, 0, colrec);
    assert(rk.len() <= 255);
    let ch = crate::jrdb_type::spec_header(dp, 1, key, 11 + key.len() as int, 0);
    lemma_be_bytes_len(11 + key.len() as int, 4);
    lemma_be_bytes_len(0, 4);
    assert(ch.len() == 11 + key.len());
    assert(hd_size(b, 0) + ch.len() + child.len() <= 0xFFFFFFFF);
    assert(7 + rk.len() + colrec.len() <= 0xFFFFFFFF);
    assert(b2.subrange(0, rootrec.len() as int) =~= rootrec);
    lemma_decode_record_at(
        b2,
        0,
        hd_depth(b, 0) as int,
        hd_type(b, 0),
        rk,
        0,
        colrec,
    );
    assert(hd_wf(b2, 0));
    let cs0 = hd_content_start(b2, 0);
    let ce0 = hd_content_end(b2, 0);
    assert(cs0 == 7 + rk.len());
    assert(ce0 == b2.len());
    assert(b2.subrange(cs0, ce0) =~= colrec);
    assert forall|j: int| 0 <= j < colrec.len() implies b2.subrange(cs0, cs0 + colrec.len())[j]
        == colrec[j] by {
        assert(b2.subrange(cs0, ce0)[j] == colrec[j]);
    }
    assert(b2.subrange(cs0, cs0 + colrec.len()) =~= colrec);
    lemma_decode_record_at(b2, cs0, dp, 1, key, 1, child);
    assert(hd_wf(b2, cs0));
    // the scan finds the new collection immediately
    assert(decode_utf8(hd_key_bytes(b2, cs0)) == name);
    assert(hd_content_end(b2, cs0) == ce0);
    assert(spec_find(b2, cs0, ce0, name, 1) == FindV::Found(cs0));
    // its single child reads back as the document's fields
    let ccs = hd_content_start(b2, cs0);
    assert(b2.subrange(ccs, hd_content_end(b2, cs0)) =~= child);
    assert forall|j: int| 0 <= j < child.len() implies b2.subrange(ccs, ccs + child.len())[j]
        == child[j] by {
        assert(b2.subrange(ccs, hd_content_end(b2, cs0))[j] == child[j]);
    }
    assert(b2.subrange(ccs, ccs + child.len()) =~= child);
    lemma_child_round_trip(b2, ccs, dp + 1, doc, 1, cond, Seq::empty());
    let base = crate::jrdb_type::spec_set_field(
        Seq::empty(),
        "_id"@,
        ValV::S(crate::dec::dec_chars(1)),
    );
    let fields = spec_fold_flat(base, doc, 0);
    if crate::jrdb_type::spec_cond_holds(cond, fields) {
        assert(Seq::<Seq<(Seq<char>, ValV)>>::empty().push(fields) =~= seq![fields]);
    }
}


/// Depth monotonicity at encode: every field record a document emits starts
/// with the depth byte one below its parent record's.
pub proof fn lemma_doc_content_child_depth(d: JrDocument, i: int, depth: int)
    requires
        0 <= i < d.data@.len(),
        0 <= depth + 1 <= 255,
    ensures
        crate::jrdb_type::spec_doc_content(d, i, depth)[0] == (depth + 1) as u8,
{
}

/// Decoding reads only the byte tail: when two buffers agree from `px` and
/// `py` on, the records at corresponding offsets decode alike.
pub proof fn lemma_hd_translate(x: Seq<u8>, px: int, y: Seq<u8>, py: int, p: int)
    requires
        0 <= px <= x.len(),
        0 <= py <= y.len(),
        x.len() - px == y.len() - py,
        x.subrange(px, x.len() as int) == y.subrange(py, y.len() as int),
        px <= p,
    ensures
        hd_wf(x, p) == hd_wf(y, p - px + py),
        hd_wf(x, p) ==> {
            let q = p - px + py;
            &&& hd_depth(x, p) == hd_depth(y, q)
            &&& hd_type(x, p) == hd_type(y, q)
            &&& hd_key_len(x, p) == hd_key_len(y, q)
            &&& hd_size(x, p) == hd_size(y, q)
            &&& hd_count(x, p) == hd_count(y, q)
            &&& hd_key_bytes(x, p) == hd_key_bytes(y, q)
            &&& hd_content_start(x, p) - px == hd_content_start(y, q) - py
            &&& hd_content_end(x, p) - px == hd_content_end(y, q) - py
        },
{
    let q = p - px + py;
    assert forall|i: int| px <= i < x.len() implies #[trigger] x[i] == y[i - px + py] by {
        assert(x.subrange(px, x.len() as int)[i - px] == y.subrange(
            py,
            y.len() as int,
        )[i - px]);
        assert(x.subrange(px, x.len() as int)[i - px] == x[i]);
        assert(y.subrange(py, y.len() as int)[i - px] == y[i - px + py]);
    }
    if p + 7 <= x.len() {
        assert(x[p + 1] == y[q + 1]);
        assert(hd_type(x, p) == hd_type(y, q));
        if p + spec_header_len(hd_type(x, p)) <= x.len() {
            assert(x.subrange(p + 3, p + 7) =~= y.subrange(q + 3, q + 7));
            assert(hd_size(x, p) == hd_size(y, q));
            assert(x[p + 2] == y[q + 2]);
            if hd_type(x, p) == 1 && p + 11 <= x.len() {
                assert(x.subrange(p + 7, p + 11) =~= y.subrange(q + 7, q + 11));
            }
            if hd_wf(x, p) {
                assert(hd_key_bytes(x, p) =~= hd_key_bytes(y, q));
            }
            if hd_wf(y, q) {
                assert(hd_key_bytes(x, p) =~= hd_key_bytes(y, q));
            }
        }
    } else {
        assert(!hd_wf(x, p));
        assert(!hd_wf(y, q));
    }
}

/// Reading a document's fields depends only on the byte tail holding them.
pub proof fn lemma_read_doc_translate(
    x: Seq<u8>,
    px: int,
    y: Seq<u8>,
    py: int,
    s: int,
    end: int,
    acc: Seq<(Seq<char>, ValV)>,
)
    requires
        0 <= px <= x.len(),
        0 <= py <= y.len(),
        x.len() - px == y.len() - py,
        x.subrange(px, x.len() as int) == y.subrange(py, y.len() as int),
        px <= s,
        end <= x.len(),
    ensures
        crate::db::spec_read_doc(x, s, end, acc) == crate::db::spec_read_doc(
            y,
            s - px + py,
            end - px + py,
            acc,
        ),
    decreases end - s,
{
    let s2 = s - px + py;
    let end2 = end - px + py;
    if s == end {
    } else if s > end {
    } else {
        lemma_hd_translate(x, px, y, py, s);
        if hd_wf(x, s) {
            if hd_content_end(x, s) <= end {
                assert forall|i: int| px <= i < x.len() implies #[trigger] x[i] == y[i - px
                    + py] by {
                    assert(x.subrange(px, x.len() as int)[i - px] == y.subrange(
                        py,
                        y.len() as int,
                    )[i - px]);
                    assert(x.subrange(px, x.len() as int)[i - px] == x[i]);
                    assert(y.subrange(py, y.len() as int)[i - px] == y[i - px + py]);
                }
                assert(x.subrange(hd_content_start(x, s), hd_content_end(x, s)) =~= y.subrange(
                    hd_content_start(y, s2),
                    hd_content_end(y, s2),
                ));
                let key = decode_utf8(hd_key_bytes(x, s));
                let content = x.subrange(hd_content_start(x, s), hd_content_end(x, s));
                let acc2 = if hd_type(x, s) == 2 {
                    crate::jrdb_type::spec_set_field(
                        acc,
                        key,
                        ValV::S(crate::db::spec_str_of(content)),
                    )
                } else if hd_type(x, s) == 3 {
                    crate::jrdb_type::spec_set_field(
                        acc,
                        key,
                        ValV::I(crate::db::spec_i64_of(content)),
                    )
                } else {
                    acc
                };
                lemma_read_doc_translate(x, px, y, py, hd_content_end(x, s), end, acc2);
            }
        }
    }
}

/// Patching a document's fields never touches the bytes before its header.
proof fn lemma_patch_fields_prefix(
    b: Seq<u8>,
    hs: int,
    doc_size: int,
    depth: u8,
    start: int,
    patch: JrDocument,
    k: int,
    b2: Seq<u8>,
    next: int,
    dsz2: int,
)
    requires
        0 <= hs <= start,
        0 <= doc_size,
        hs + doc_size <= b.len(),
        crate::db::spec_patch_fields(b, hs, doc_size, depth, start, patch, k) == Ok::<
            (Seq<u8>, int, int),
            JrError,
        >((b2, next, dsz2)),
    ensures
        b2.subrange(0, hs) == b.subrange(0, hs),
        next >= start,
        dsz2 >= 0,
        hs + dsz2 <= b2.len(),
        b2.len() + doc_size == b.len() + dsz2,
    decreases patch.data@.len() - k,
{
    reveal(crate::db::spec_patch_fields);
    if k < 0 || k >= patch.data@.len() {
        assert(b2.subrange(0, hs) =~= b.subrange(0, hs));
    } else {
        let step = crate::db::spec_update_key(
            b,
            hs,
            hs + doc_size,
            doc_size,
            depth,
            start,
            patch.data@[k].0@,
            patch.data@[k].1,
        );
        match step {
            Ok((bm, nm, sm)) => {
                lemma_update_key_prefix(b, hs, doc_size, depth, start, patch.data@[k].0@,
                    patch.data@[k].1, bm, nm, sm);
                lemma_patch_fields_prefix(bm, hs, sm, depth, nm, patch, k + 1, b2, next, dsz2);
                assert(b2.subrange(0, hs) =~= b.subrange(0, hs));
            },
            Err(_) => {
                assert(false);
            },
        }
    }
}

/// Writing one patch field never touches the bytes before the document's
/// header, and the search position never moves backwards.
proof fn lemma_update_key_prefix(
    b: Seq<u8>,
    hs: int,
    doc_size: int,
    depth: u8,
    start: int,
    key: Seq<char>,
    val: crate::jrdb_type::JrAny,
    b2: Seq<u8>,
    next: int,
    newsize: int,
)
    requires
        0 <= hs <= start,
        0 <= doc_size,
        hs + doc_size <= b.len(),
        crate::db::spec_update_key(b, hs, hs + doc_size, doc_size, depth, start, key, val)
            == Ok::<(Seq<u8>, int, int), JrError>((b2, next, newsize)),
    ensures
        b2.subrange(0, hs) == b.subrange(0, hs),
        next >= start,
        newsize >= 0,
        hs + newsize <= b2.len(),
        b2.len() + doc_size == b.len() + newsize,
{
    let payload = crate::jrdb_type::spec_any_content(val, depth as int + 1);
    let attr = crate::jrdb_type::spec_record(
        depth as int + 1,
        crate::jrdb_type::spec_tag(val),
        encode_utf8(key),
        0,
        payload,
    );
    lemma_record_len(
        depth as int + 1,
        crate::jrdb_type::spec_tag(val),
        encode_utf8(key),
        0,
        payload,
    );
    lemma_be_bytes_len(newsize, 4);
    match spec_find(b, start, hs + doc_size, key, 255) {
        FindV::Found(fhs) => {
            lemma_spec_find_found(b, start, hs + doc_size, key, 255, fhs);
            let fce = hd_content_end(b, fhs);
            let s1 = spec_splice(b, fhs, fce, attr);
            assert(b2 == crate::db::with_size(s1, hs, newsize));
            assert forall|i: int| 0 <= i < hs implies #[trigger] b2[i] == b[i] by {
                assert(s1[i] == b[i]);
            }
            assert(b2.subrange(0, hs) =~= b.subrange(0, hs));
        },
        FindV::Missing => {
            let s1 = crate::db::inserted(b, hs + doc_size, attr);
            assert(b2 == crate::db::with_size(s1, hs, newsize));
            assert forall|i: int| 0 <= i < hs implies #[trigger] b2[i] == b[i] by {
                assert(s1[i] == b[i]);
            }
            assert(b2.subrange(0, hs) =~= b.subrange(0, hs));
        },
        _ => {
            assert(false);
        },
    }
}

/// The update walk only writes at or after the position it walks from.
proof fn lemma_update_walk_prefix(
    b: Seq<u8>,
    q: int,
    end: int,
    csize: int,
    cond: JrCondition,
    patch: JrDocument,
    b2: Seq<u8>,
    end2: int,
    csize2: int,
    q0: int,
)
    requires
        0 <= q0 <= q <= end <= b.len(),
        crate::db::spec_update_walk(b, q, end, csize, cond, patch) == Ok::<
            (Seq<u8>, int, int),
            JrError,
        >((b2, end2, csize2)),
    ensures
        b2.subrange(0, q0) == b.subrange(0, q0),
        end2 <= b2.len(),
        b2.len() >= q,
    decreases end - q,
{
    reveal(crate::db::spec_update_walk);
    if q == end {
        assert(b2.subrange(0, q0) =~= b.subrange(0, q0));
    } else {
        let base = crate::jrdb_type::spec_set_field(
            Seq::empty(),
            "_id"@,
            ValV::S(decode_utf8(hd_key_bytes(b, q))),
        );
        match crate::db::spec_read_doc(b, hd_content_start(b, q), hd_content_end(b, q), base) {
            crate::db::WalkV::Done(fields) => {
                if crate::jrdb_type::spec_cond_holds(cond, fields) {
                    match crate::db::spec_patch_fields(
                        b,
                        q,
                        hd_size(b, q),
                        hd_depth(b, q),
                        hd_content_start(b, q),
                        patch,
                        0,
                    ) {
                        Ok((bm, next, dsz2)) => {
                            lemma_patch_fields_prefix(
                                b,
                                q,
                                hd_size(b, q),
                                hd_depth(b, q),
                                hd_content_start(b, q),
                                patch,
                                0,
                                bm,
                                next,
                                dsz2,
                            );
                            lemma_update_walk_prefix(
                                bm,
                                q + dsz2,
                                end + (dsz2 - hd_size(b, q)),
                                csize + (dsz2 - hd_size(b, q)),
                                cond,
                                patch,
                                b2,
                                end2,
                                csize2,
                                q0,
                            );
                            assert forall|i: int| 0 <= i < q0 implies b2.subrange(0, q0)[i]
                                == b.subrange(0, q0)[i] by {
                                assert(bm.subrange(0, q)[i] == b.subrange(0, q)[i]);
                                assert(b2.subrange(0, q0)[i] == bm.subrange(0, q0)[i]);
                            }
                            assert(b2.subrange(0, q0) =~= b.subrange(0, q0));
                        },
                        Err(_) => {
                            assert(false);
                        },
                    }
                } else {
                    lemma_update_walk_prefix(
                        b,
                        hd_content_end(b, q),
                        end,
                        csize,
                        cond,
                        patch,
                        b2,
                        end2,
                        csize2,
                        q0,
                    );
                }
            },
            _ => {
                assert(false);
            },
        }
    }
}

/// Insert monotonicity of count at delete: deleting from a collection
/// leaves its on-disk count field exactly as it was.
pub proof fn lemma_delete_count(
    b: Seq<u8>,
    name: Seq<char>,
    cond: JrCondition,
    b2: Seq<u8>,
    c: int,
)
    requires
        crate::db::spec_delete(b, name, cond) == Ok::<Seq<u8>, crate::err::JrError>(b2),
        spec_find(b, hd_content_start(b, 0), hd_content_end(b, 0), name, 1) == FindV::Found(c),
    ensures
        b2.subrange(c + 7, c + 11) == b.subrange(c + 7, c + 11),
{
    lemma_spec_find_found(b, hd_content_start(b, 0), hd_content_end(b, 0), name, 1, c);
    let cs = hd_content_start(b, c);
    let ce = hd_content_end(b, c);
    match crate::db::spec_delete_walk(b, cs, ce, cond) {
        crate::db::WalkV::Done(kept) => {
            let deleted = (ce - cs) - kept.len();
            lemma_be_bytes_len(hd_size(b, c) - deleted, 4);
            lemma_be_bytes_len(hd_size(b, 0) - deleted, 4);
            assert(hd_content_start(b, 0) >= 7);
            assert(cs >= c + 11);
            assert(b2.subrange(c + 7, c + 11) =~= b.subrange(c + 7, c + 11));
        },
        _ => {
            assert(false);
        },
    }
}

/// Insert monotonicity of count at update: patching a collection's
/// documents leaves its on-disk count field exactly as it was.
pub proof fn lemma_update_count(
    b: Seq<u8>,
    name: Seq<char>,
    cond: JrCondition,
    patch: JrDocument,
    b2: Seq<u8>,
    c: int,
)
    requires
        crate::db::spec_update(b, name, cond, patch) == Ok::<Seq<u8>, crate::err::JrError>(b2),
        spec_find(b, hd_content_start(b, 0), hd_content_end(b, 0), name, 1) == FindV::Found(c),
    ensures
        b2.subrange(c + 7, c + 11) == b.subrange(c + 7, c + 11),
{
    lemma_spec_find_found(b, hd_content_start(b, 0), hd_content_end(b, 0), name, 1, c);
    let cs = hd_content_start(b, c);
    let ce = hd_content_end(b, c);
    match crate::db::spec_update_walk(b, cs, ce, hd_size(b, c), cond, patch) {
        Ok((bw, end2, csize2)) => {
            lemma_update_walk_prefix(b, cs, ce, hd_size(b, c), cond, patch, bw, end2, csize2, cs);
            lemma_be_bytes_len(csize2, 4);
            lemma_be_bytes_len(hd_size(b, 0) + csize2 - hd_size(b, c), 4);
            assert(hd_content_start(b, 0) >= 7);
            assert(cs >= c + 11);
            let m1 = crate::db::with_size(bw, c, csize2);
            assert(b2 == crate::db::with_size(m1, 0, hd_size(b, 0) + csize2 - hd_size(b, c)));
            assert forall|i: int| c + 7 <= i < c + 11 implies #[trigger] b2[i] == b[i] by {
                assert(bw.subrange(0, cs)[i] == b.subrange(0, cs)[i]);
                assert(bw[i] == b[i]);
                assert(m1[i] == bw[i]);
                assert(b2[i] == m1[i]);
            }
            assert(b2.subrange(c + 7, c + 11) =~= b.subrange(c + 7, c + 11));
        },
        Err(_) => {
            assert(false);
        },
    }
}

} // verus!
