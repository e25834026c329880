//! In-memory values: documents, collections, strings and integers, together
//! with their encoding to record bytes and the condition engine that filters
//! documents.

use vstd::prelude::*;
use vstd::utf8::encode_utf8;
use vstd::utf8::is_ascii_chars_encode_utf8;
use vstd::string::StrSliceExecFns;
use vstd::string::StringSliceAdditionalSpecFns;
use crate::bytes::be_bytes;
use crate::bytes::u64_rep;
use crate::bytes::i64_be_vec;
use crate::bytes::u32_be_vec;
use crate::dec::dec_chars;
use crate::dec::dec_i64_chars;
use crate::dec::spec_parse_i64;
use crate::dec::parse_i64_str;
use crate::dec::i64_dec_string;
use crate::dec::lex_lt;
use crate::dec::str_lex_lt;

verus! {

broadcast use vstd::std_specs::vec::axiom_vec_index_decreases;

/// A document value: one of the four storable kinds.
pub enum JrAny {
    JrCollection(JrCollection),
    JrDocument(JrDocument),
    JrString(JrString),
    JrI64(JrI64),
}

/// The abstract reading of a [`JrAny`] value.
pub enum ValV {
    I(i64),
    S(Seq<char>),
    D(Seq<(Seq<char>, ValV)>),
    C(Seq<Seq<(Seq<char>, ValV)>>),
}

/// A 64-bit signed integer value.
#[derive(Clone)]
pub struct JrI64 {
    pub data: i64,
}

/// A UTF-8 string value.
#[derive(Clone)]
pub struct JrString {
    pub data: String,
}

/// An ordered sequence of documents.
pub struct JrCollection {
    pub data: Vec<JrDocument>,
}

/// An ordered mapping from keys to values; insertion order is kept and keys
/// are unique.
pub struct JrDocument {
    pub data: Vec<(String, JrAny)>,
}

pub open spec fn any_view(a: JrAny) -> ValV
    decreases a, 0int,
{
    match a {
        JrAny::JrI64(x) => ValV::I(x.data),
        JrAny::JrString(s) => ValV::S(s.data@),
        JrAny::JrDocument(d) => ValV::D(doc_fields(d, 0)),
        JrAny::JrCollection(c) => ValV::C(col_docs(c, 0)),
    }
}

/// The fields of `d` from index `i` on, as key/value readings.
pub open spec fn doc_fields(d: JrDocument, i: int) -> Seq<(Seq<char>, ValV)>
    decreases d, d.data@.len() - i,
    via doc_fields_decreases
{
    if i < 0 || i >= d.data@.len() {
        Seq::empty()
    } else {
        seq![(d.data@[i].0@, any_view(d.data@[i].1))] + doc_fields(d, i + 1)
    }
}

#[via_fn]
proof fn doc_fields_decreases(d: JrDocument, i: int) {
    if 0 <= i < d.data@.len() {
        vstd::std_specs::vec::axiom_vec_index_decreases(d.data, i);
        assert(decreases_to!(d => d.data@[i].1));
    }
}

/// The documents of `c` from index `i` on, as field sequences.
pub open spec fn col_docs(c: JrCollection, i: int) -> Seq<Seq<(Seq<char>, ValV)>>
    decreases c, c.data@.len() - i,
    via col_docs_decreases
{
    if i < 0 || i >= c.data@.len() {
        Seq::empty()
    } else {
        seq![doc_fields(c.data@[i], 0)] + col_docs(c, i + 1)
    }
}

#[via_fn]
proof fn col_docs_decreases(c: JrCollection, i: int) {
    if 0 <= i < c.data@.len() {
        vstd::std_specs::vec::axiom_vec_index_decreases(c.data, i);
        assert(decreases_to!(c => c.data@[i]));
    }
}

impl View for JrAny {
    type V = ValV;

    open spec fn view(&self) -> ValV {
        any_view(*self)
    }
}

impl View for JrI64 {
    type V = i64;

    open spec fn view(&self) -> i64 {
        self.data
    }
}

impl View for JrString {
    type V = Seq<char>;

    open spec fn view(&self) -> Seq<char> {
        self.data@
    }
}

impl View for JrDocument {
    type V = Seq<(Seq<char>, ValV)>;

    open spec fn view(&self) -> Seq<(Seq<char>, ValV)> {
        doc_fields(*self, 0)
    }
}

impl View for JrCollection {
    type V = Seq<Seq<(Seq<char>, ValV)>>;

    open spec fn view(&self) -> Seq<Seq<(Seq<char>, ValV)>> {
        col_docs(*self, 0)
    }
}

pub proof fn lemma_doc_fields(d: JrDocument, i: int)
    requires
        0 <= i <= d.data@.len(),
    ensures
        doc_fields(d, i).len() == d.data@.len() - i,
        forall|j: int|
            0 <= j < d.data@.len() - i ==> #[trigger] doc_fields(d, i)[j] == (
                d.data@[i + j].0@,
                any_view(d.data@[i + j].1),
            ),
    decreases d.data@.len() - i,
{
    if i < d.data@.len() {
        lemma_doc_fields(d, i + 1);
    }
}

pub proof fn lemma_col_docs(c: JrCollection, i: int)
    requires
        0 <= i <= c.data@.len(),
    ensures
        col_docs(c, i).len() == c.data@.len() - i,
        forall|j: int|
            0 <= j < c.data@.len() - i ==> #[trigger] col_docs(c, i)[j] == doc_fields(
                c.data@[i + j],
                0,
            ),
    decreases c.data@.len() - i,
{
    if i < c.data@.len() {
        lemma_col_docs(c, i + 1);
    }
}

/// The first index holding `key`, or the length when no field does.
pub open spec fn spec_idx(fields: Seq<(Seq<char>, ValV)>, key: Seq<char>) -> int
    decreases fields.len(),
{
    if fields.len() == 0 {
        0
    } else if fields[0].0 == key {
        0
    } else {
        1 + spec_idx(fields.drop_first(), key)
    }
}

pub proof fn lemma_spec_idx(fields: Seq<(Seq<char>, ValV)>, key: Seq<char>)
    ensures
        0 <= spec_idx(fields, key) <= fields.len(),
        spec_idx(fields, key) < fields.len() ==> fields[spec_idx(fields, key)].0 == key,
        forall|j: int| 0 <= j < spec_idx(fields, key) ==> (#[trigger] fields[j]).0 != key,
    decreases fields.len(),
{
    if fields.len() > 0 && fields[0].0 != key {
        lemma_spec_idx(fields.drop_first(), key);
        assert forall|j: int| 0 <= j < spec_idx(fields, key) implies (#[trigger] fields[j]).0
            != key by {
            if j > 0 {
                assert(fields.drop_first()[j - 1] == fields[j]);
            }
        }
    }
}

/// `fields` with `key` bound to `v`: replaced in place when present, appended
/// otherwise.
pub open spec fn spec_set_field(
    fields: Seq<(Seq<char>, ValV)>,
    key: Seq<char>,
    v: ValV,
) -> Seq<(Seq<char>, ValV)> {
    let j = spec_idx(fields, key);
    if j < fields.len() {
        fields.update(j, (key, v))
    } else {
        fields.push((key, v))
    }
}

impl JrI64 {
    pub fn new(data: i64) -> (r: Self)
        ensures
            r@ == data,
    {
        JrI64 { data }
    }

    pub fn get(&self) -> (r: &i64)
        ensures
            *r == self@,
    {
        &self.data
    }
}

impl JrString {
    pub fn new(data: String) -> (r: Self)
        ensures
            r@ == data@,
    {
        JrString { data }
    }

    pub fn get(&self) -> (r: &String)
        ensures
            r@ == self@,
    {
        &self.data
    }
}

impl JrCollection {
    pub fn new() -> (r: Self)
        ensures
            r@ =~= Seq::<Seq<(Seq<char>, ValV)>>::empty(),
    {
        let data: Vec<JrDocument> = Vec::new();
        JrCollection { data }
    }

    pub fn add(&mut self, doc: JrDocument)
        ensures
            final(self)@ =~= old(self)@.push(doc@),
    {
        proof {
            lemma_col_docs(*self, 0);
        }
        self.data.push(doc);
        proof {
            lemma_col_docs(*self, 0);
        }
    }

    pub fn get(&self, pos: usize) -> (r: &JrDocument)
        requires
            pos < self@.len(),
        ensures
            r@ == self@[pos as int],
    {
        proof {
            lemma_col_docs(*self, 0);
        }
        &self.data[pos]
    }

    pub fn len(&self) -> (r: usize)
        ensures
            r == self@.len(),
    {
        proof {
            lemma_col_docs(*self, 0);
        }
        self.data.len()
    }
}

impl JrDocument {
    pub fn new() -> (r: JrDocument)
        ensures
            r@ =~= Seq::<(Seq<char>, ValV)>::empty(),
    {
        let data: Vec<(String, JrAny)> = Vec::new();
        JrDocument { data }
    }

    /// The first position whose key reads as `key`, or the field count.
    pub fn index_of_key(&self, key: &str) -> (r: usize)
        ensures
            r as int == spec_idx(self@, key@),
    {
        let k = key.to_owned();
        let n = self.data.len();
        proof {
            lemma_doc_fields(*self, 0);
            lemma_spec_idx(self@, key@);
        }
        let mut i: usize = 0;
        while i < n
            invariant
                i <= n,
                n == self.data@.len(),
                self@.len() == n,
                k@ == key@,
                forall|j: int| 0 <= j < i ==> (#[trigger] self@[j]).0 != key@,
                forall|j: int|
                    0 <= j < n ==> #[trigger] self@[j] == (
                        self.data@[j].0@,
                        any_view(self.data@[j].1),
                    ),
            decreases n - i,
        {
            if (&self.data[i].0).eq(&k) {
                proof {
                    lemma_spec_idx(self@, key@);
                    let si = spec_idx(self@, key@);
                    assert(self@[i as int].0 == key@);
                    if si < i as int {
                        assert((self@[si]).0 == key@);
                        assert(false);
                    }
                    if si > i as int {
                        assert((self@[i as int]).0 != key@);
                        assert(false);
                    }
                }
                return i;
            }
            i = i + 1;
        }
        proof {
            lemma_spec_idx(self@, key@);
        }
        n
    }

    /// The value stored under `key`, when present.
    pub fn get_any(&self, key: &str) -> (r: Option<&JrAny>)
        ensures
            match r {
                Some(v) => spec_idx(self@, key@) < self@.len() && self@[spec_idx(self@, key@)]
                    == (key@, v@),
                None => spec_idx(self@, key@) == self@.len(),
            },
    {
        let j = self.index_of_key(key);
        proof {
            lemma_doc_fields(*self, 0);
            lemma_spec_idx(self@, key@);
        }
        if j < self.data.len() {
            Some(&self.data[j].1)
        } else {
            None
        }
    }

    /// Bind `key` to `val`: replace the existing field or append a new one.
    pub fn set_any(&mut self, key: &str, val: JrAny)
        ensures
            final(self)@ =~= spec_set_field(old(self)@, key@, val@),
    {
        let ghost pre = *self;
        let j = self.index_of_key(key);
        proof {
            lemma_doc_fields(pre, 0);
            lemma_spec_idx(pre@, key@);
        }
        if j < self.data.len() {
            self.data.remove(j);
            self.data.insert(j, (key.to_owned(), val));
        } else {
            self.data.push((key.to_owned(), val));
        }
        proof {
            lemma_doc_fields(*self, 0);
        }
    }

    /// The field pair at position `pos`, in insertion order.
    pub fn loop_key(&self, pos: usize) -> (r: (&String, &JrAny))
        requires
            pos < self@.len(),
        ensures
            self@[pos as int] == (r.0@, r.1@),
            *r.0 == self.data@[pos as int].0,
            *r.1 == self.data@[pos as int].1,
    {
        proof {
            lemma_doc_fields(*self, 0);
        }
        let p = &self.data[pos];
        (&p.0, &p.1)
    }

    /// The number of fields.
    pub fn field_count(&self) -> (r: usize)
        ensures
            r == self@.len(),
    {
        proof {
            lemma_doc_fields(*self, 0);
        }
        self.data.len()
    }
}

/// The on-disk type tag of a value.
pub open spec fn spec_tag(a: JrAny) -> u8 {
    match a {
        JrAny::JrI64(_) => 3,
        JrAny::JrString(_) => 2,
        JrAny::JrCollection(_) => 1,
        JrAny::JrDocument(_) => 0,
    }
}

/// Header length before the key: 11 bytes for a collection, 7 otherwise.
pub open spec fn spec_header_len(ty: u8) -> int {
    if ty == 1 {
        11
    } else {
        7
    }
}

/// The header bytes of a record: depth, type, key length, size, the count
/// field for collections, then the key itself.
pub open spec fn spec_header(depth: int, ty: u8, key: Seq<u8>, size: int, count: int) -> Seq<u8> {
    seq![depth as u8, ty, key.len() as u8] + be_bytes(size, 4) + (if ty == 1 {
        be_bytes(count, 4)
    } else {
        Seq::<u8>::empty()
    }) + key
}

/// A whole record: header plus content, with the size field covering both.
pub open spec fn spec_record(depth: int, ty: u8, key: Seq<u8>, count: int, content: Seq<u8>) -> Seq<
    u8,
> {
    spec_header(depth, ty, key, spec_header_len(ty) + key.len() + content.len(), count) + content
}

/// The content bytes of a value whose record sits at `depth`.
pub open spec fn spec_any_content(a: JrAny, depth: int) -> Seq<u8>
    decreases a, 0int,
{
    match a {
        JrAny::JrI64(x) => be_bytes(u64_rep(x.data as int), 8),
        JrAny::JrString(s) => encode_utf8(s.data@),
        JrAny::JrDocument(d) => spec_doc_content(d, 0, depth),
        JrAny::JrCollection(c) => spec_col_content(c, 0, depth),
    }
}

/// The concatenated field records of a document from index `i` on.
pub open spec fn spec_doc_content(d: JrDocument, i: int, depth: int) -> Seq<u8>
    decreases d, d.data@.len() - i,
    via spec_doc_content_decreases
{
    if i < 0 || i >= d.data@.len() {
        Seq::empty()
    } else {
        spec_record(
            depth + 1,
            spec_tag(d.data@[i].1),
            encode_utf8(d.data@[i].0@),
            0,
            spec_any_content(d.data@[i].1, depth + 1),
        ) + spec_doc_content(d, i + 1, depth)
    }
}

#[via_fn]
proof fn spec_doc_content_decreases(d: JrDocument, i: int, depth: int) {
    if 0 <= i < d.data@.len() {
        vstd::std_specs::vec::axiom_vec_index_decreases(d.data, i);
        assert(decreases_to!(d => d.data@[i].1));
    }
}

/// The concatenated document records of a collection from index `i` on,
/// keyed by their decimal sequence numbers starting at one.
pub open spec fn spec_col_content(c: JrCollection, i: int, depth: int) -> Seq<u8>
    decreases c, c.data@.len() - i,
    via spec_col_content_decreases
{
    if i < 0 || i >= c.data@.len() {
        Seq::empty()
    } else {
        spec_record(
            depth + 1,
            0,
            encode_utf8(dec_chars(i + 1)),
            0,
            spec_doc_content(c.data@[i], 0, depth + 1),
        ) + spec_col_content(c, i + 1, depth)
    }
}

#[via_fn]
proof fn spec_col_content_decreases(c: JrCollection, i: int, depth: int) {
    if 0 <= i < c.data@.len() {
        vstd::std_specs::vec::axiom_vec_index_decreases(c.data, i);
        assert(decreases_to!(c => c.data@[i]));
    }
}

/// Whether a value can be encoded at `depth`: keys fit in one byte, record
/// sizes fit in four, and the tree is shallow enough for the depth byte.
pub open spec fn spec_any_ok(a: JrAny, depth: int) -> bool
    decreases a, 0int,
{
    match a {
        JrAny::JrI64(_) => true,
        JrAny::JrString(_) => true,
        JrAny::JrDocument(d) => spec_doc_ok(d, 0, depth),
        JrAny::JrCollection(c) => spec_col_ok(c, 0, depth),
    }
}

pub open spec fn spec_doc_ok(d: JrDocument, i: int, depth: int) -> bool
    decreases d, d.data@.len() - i,
    via spec_doc_ok_decreases
{
    if i < 0 || i >= d.data@.len() {
        true
    } else {
        &&& depth + 1 <= 255
        &&& encode_utf8(d.data@[i].0@).len() <= 255
        &&& spec_header_len(spec_tag(d.data@[i].1)) + encode_utf8(d.data@[i].0@).len()
            + spec_any_content(d.data@[i].1, depth + 1).len() <= 0xFFFFFFFF
        &&& spec_any_ok(d.data@[i].1, depth + 1)
        &&& spec_doc_ok(d, i + 1, depth)
    }
}

#[via_fn]
proof fn spec_doc_ok_decreases(d: JrDocument, i: int, depth: int) {
    if 0 <= i < d.data@.len() {
        vstd::std_specs::vec::axiom_vec_index_decreases(d.data, i);
        assert(decreases_to!(d => d.data@[i].1));
    }
}

pub open spec fn spec_col_ok(c: JrCollection, i: int, depth: int) -> bool
    decreases c, c.data@.len() - i,
    via spec_col_ok_decreases
{
    if i < 0 || i >= c.data@.len() {
        true
    } else {
        &&& depth + 1 <= 255
        &&& encode_utf8(dec_chars(i + 1)).len() <= 255
        &&& 7 + encode_utf8(dec_chars(i + 1)).len() + spec_doc_content(
            c.data@[i],
            0,
            depth + 1,
        ).len() <= 0xFFFFFFFF
        &&& spec_doc_ok(c.data@[i], 0, depth + 1)
        &&& spec_col_ok(c, i + 1, depth)
    }
}

#[via_fn]
proof fn spec_col_ok_decreases(c: JrCollection, i: int, depth: int) {
    if 0 <= i < c.data@.len() {
        vstd::std_specs::vec::axiom_vec_index_decreases(c.data, i);
        assert(decreases_to!(c => c.data@[i]));
    }
}

/// Build the header bytes of a record from its raw key bytes.
pub fn build_header_bytes(data_type: u8, depth: u8, content_size: u32, key: &Vec<u8>) -> (r: Vec<
    u8,
>)
    requires
        key@.len() <= 255,
        spec_header_len(data_type) + key@.len() + content_size <= 0xFFFFFFFF,
    ensures
        r@ == spec_header(
            depth as int,
            data_type,
            key@,
            spec_header_len(data_type) + key@.len() + content_size,
            0,
        ),
{
    let klen = key.len() as u8;
    let hdr: u32 = if data_type == 1 {
        11
    } else {
        7
    };
    let total: u32 = hdr + klen as u32 + content_size;
    let mut r: Vec<u8> = Vec::new();
    r.push(depth);
    r.push(data_type);
    r.push(klen);
    let mut sz = u32_be_vec(total);
    r.append(&mut sz);
    if data_type == 1 {
        r.push(0);
        r.push(0);
        r.push(0);
        r.push(0);
    }
    let mut k2: Vec<u8> = Vec::new();
    let mut i: usize = 0;
    while i < key.len()
        invariant
            i <= key@.len(),
            k2@ == key@.subrange(0, i as int),
        decreases key@.len() - i,
    {
        k2.push(key[i]);
        proof {
            assert(k2@ =~= key@.subrange(0, i + 1));
        }
        i = i + 1;
    }
    proof {
        assert(k2@ =~= key@);
    }
    r.append(&mut k2);
    proof {
        reveal_with_fuel(crate::bytes::be_bytes, 5);
        assert(be_bytes(0, 4) =~= seq![0u8, 0u8, 0u8, 0u8]);
        assert(r@ =~= spec_header(
            depth as int,
            data_type,
            key@,
            spec_header_len(data_type) + key@.len() + content_size,
            0,
        ));
    }
    r
}

/// Build the header bytes of a record whose key is given as a string.
pub fn build_header(data_type: u8, depth: u8, content_size: u32, name: &str) -> (r: Vec<u8>)
    requires
        encode_utf8(name@).len() <= 255,
        spec_header_len(data_type) + encode_utf8(name@).len() + content_size <= 0xFFFFFFFF,
    ensures
        r@ == spec_header(
            depth as int,
            data_type,
            encode_utf8(name@),
            spec_header_len(data_type) + encode_utf8(name@).len() + content_size,
            0,
        ),
{
    let key = name.as_bytes_vec();
    build_header_bytes(data_type, depth, content_size, &key)
}

/// The type tag a value is stored under.
pub fn any_tag(a: &JrAny) -> (r: u8)
    ensures
        r == spec_tag(*a),
{
    match a {
        JrAny::JrI64(_) => 3,
        JrAny::JrString(_) => 2,
        JrAny::JrCollection(_) => 1,
        JrAny::JrDocument(_) => 0,
    }
}

fn any_bytes_checked(a: &JrAny, depth: u8) -> (r: Result<Vec<u8>, crate::err::JrError>)
    ensures
        match r {
            Ok(v) => spec_any_ok(*a, depth as int) && v@ == spec_any_content(*a, depth as int),
            Err(e) => !spec_any_ok(*a, depth as int) && e is CorruptStructure,
        },
    decreases *a, 0int,
{
    match a {
        JrAny::JrI64(x) => Ok(i64_be_vec(x.data)),
        JrAny::JrString(st) => Ok(st.data.as_str().as_bytes_vec()),
        JrAny::JrDocument(d) => {
            proof {
                assert(decreases_to!(*a => *d));
            }
            doc_bytes_checked(d, 0, depth)
        },
        JrAny::JrCollection(c) => {
            proof {
                assert(decreases_to!(*a => *c));
            }
            col_bytes_checked(c, 0, depth)
        },
    }
}

fn doc_bytes_checked(d: &JrDocument, i: usize, depth: u8) -> (r: Result<
    Vec<u8>,
    crate::err::JrError,
>)
    ensures
        match r {
            Ok(v) => spec_doc_ok(*d, i as int, depth as int) && v@ == spec_doc_content(
                *d,
                i as int,
                depth as int,
            ),
            Err(e) => !spec_doc_ok(*d, i as int, depth as int) && e is CorruptStructure,
        },
    decreases *d, d.data@.len() - i,
{
    if i >= d.data.len() {
        let out: Vec<u8> = Vec::new();
        proof {
            assert(out@ =~= spec_doc_content(*d, i as int, depth as int));
        }
        Ok(out)
    } else {
        if depth == 255 {
            return Err(crate::err::JrError::CorruptStructure);
        }
        proof {
            vstd::std_specs::vec::axiom_vec_index_decreases(d.data, i as int);
            assert(decreases_to!(*d => d.data@[i as int].1));
        }
        let pair = &d.data[i];
        let dp = depth + 1;
        let mut content = match any_bytes_checked(&pair.1, dp) {
            Ok(c) => c,
            Err(e) => {
                return Err(e);
            },
        };
        let kb = pair.0.as_str().as_bytes_vec();
        if kb.len() > 255 {
            return Err(crate::err::JrError::CorruptStructure);
        }
        if content.len() as u64 > 0xFFFFFFFF {
            return Err(crate::err::JrError::CorruptStructure);
        }
        let tag = any_tag(&pair.1);
        let hdr_len: u64 = if tag == 1 {
            11
        } else {
            7
        };
        if hdr_len + kb.len() as u64 + content.len() as u64 > 0xFFFFFFFF {
            return Err(crate::err::JrError::CorruptStructure);
        }
        let mut r = build_header_bytes(tag, dp, content.len() as u32, &kb);
        r.append(&mut content);
        let mut rest = match doc_bytes_checked(d, i + 1, depth) {
            Ok(v) => v,
            Err(e) => {
                return Err(e);
            },
        };
        r.append(&mut rest);
        proof {
            assert(r@ =~= spec_doc_content(*d, i as int, depth as int));
        }
        Ok(r)
    }
}

fn col_bytes_checked(c: &JrCollection, i: usize, depth: u8) -> (r: Result<
    Vec<u8>,
    crate::err::JrError,
>)
    ensures
        match r {
            Ok(v) => spec_col_ok(*c, i as int, depth as int) && v@ == spec_col_content(
                *c,
                i as int,
                depth as int,
            ),
            Err(e) => !spec_col_ok(*c, i as int, depth as int) && e is CorruptStructure,
        },
    decreases *c, c.data@.len() - i,
{
    if i >= c.data.len() {
        let out: Vec<u8> = Vec::new();
        proof {
            assert(out@ =~= spec_col_content(*c, i as int, depth as int));
        }
        Ok(out)
    } else {
        if depth == 255 {
            return Err(crate::err::JrError::CorruptStructure);
        }
        proof {
            vstd::std_specs::vec::axiom_vec_index_decreases(c.data, i as int);
            assert(decreases_to!(*c => c.data@[i as int]));
        }
        let doc = &c.data[i];
        let dp = depth + 1;
        let mut content = match doc_bytes_checked(doc, 0, dp) {
            Ok(v) => v,
            Err(e) => {
                return Err(e);
            },
        };
        if content.len() as u64 > 0xFFFFFFFF {
            return Err(crate::err::JrError::CorruptStructure);
        }
        let key = crate::dec::dec_u64_bytes((i + 1) as u64);
        proof {
            crate::dec::lemma_dec_chars_len_u64(i + 1);
        }
        if 7 + key.len() as u64 + content.len() as u64 > 0xFFFFFFFF {
            return Err(crate::err::JrError::CorruptStructure);
        }
        let mut r = build_header_bytes(0, dp, content.len() as u32, &key);
        r.append(&mut content);
        let mut rest = match col_bytes_checked(c, i + 1, depth) {
            Ok(v) => v,
            Err(e) => {
                return Err(e);
            },
        };
        r.append(&mut rest);
        proof {
            assert(r@ =~= spec_col_content(*c, i as int, depth as int));
        }
        Ok(r)
    }
}

/// The content bytes of a document record at `depth`, or an error when a key
/// or a size does not fit the record format.
pub fn doc_content_checked(d: &JrDocument, depth: u8) -> (r: Result<Vec<u8>, crate::err::JrError>)
    ensures
        match r {
            Ok(v) => spec_doc_ok(*d, 0, depth as int) && v@ == spec_doc_content(
                *d,
                0,
                depth as int,
            ),
            Err(e) => !spec_doc_ok(*d, 0, depth as int) && e is CorruptStructure,
        },
{
    doc_bytes_checked(d, 0, depth)
}

/// A value that can be written as record bytes.
pub trait JrType: Sized {
    /// Whether this value can be encoded with its record at `depth`.
    spec fn bytes_ok(&self, depth: int) -> bool;

    /// The content bytes this value encodes to at `depth`.
    spec fn spec_bytes(&self, depth: int) -> Seq<u8>;

    fn get_bytes(&mut self, depth: u8) -> (r: Vec<u8>)
        requires
            old(self).bytes_ok(depth as int),
        ensures
            r@ == old(self).spec_bytes(depth as int),
            *final(self) == *old(self),
    ;

    /// The header of a fresh record: size covers the header, the key and
    /// `content_size` bytes of content; a collection's count starts at zero.
    fn new_attr_header(data_type: u8, depth: u8, content_size: u32, name: String) -> (r: Vec<u8>)
        requires
            encode_utf8(name@).len() <= 255,
            spec_header_len(data_type) + encode_utf8(name@).len() + content_size <= 0xFFFFFFFF,
        ensures
            r@ == spec_header(
                depth as int,
                data_type,
                encode_utf8(name@),
                spec_header_len(data_type) + encode_utf8(name@).len() + content_size,
                0,
            ),
    {
        build_header(data_type, depth, content_size, name.as_str())
    }
}

impl JrType for JrI64 {
    open spec fn bytes_ok(&self, depth: int) -> bool {
        true
    }

    open spec fn spec_bytes(&self, depth: int) -> Seq<u8> {
        be_bytes(u64_rep(self.data as int), 8)
    }

    fn get_bytes(&mut self, depth: u8) -> (r: Vec<u8>) {
        i64_be_vec(self.data)
    }
}

impl JrType for JrString {
    open spec fn bytes_ok(&self, depth: int) -> bool {
        true
    }

    open spec fn spec_bytes(&self, depth: int) -> Seq<u8> {
        encode_utf8(self.data@)
    }

    fn get_bytes(&mut self, depth: u8) -> (r: Vec<u8>) {
        self.data.as_str().as_bytes_vec()
    }
}

impl JrType for JrDocument {
    open spec fn bytes_ok(&self, depth: int) -> bool {
        spec_doc_ok(*self, 0, depth)
    }

    open spec fn spec_bytes(&self, depth: int) -> Seq<u8> {
        spec_doc_content(*self, 0, depth)
    }

    fn get_bytes(&mut self, depth: u8) -> (r: Vec<u8>) {
        match doc_bytes_checked(self, 0, depth) {
            Ok(v) => v,
            Err(_) => {
                proof {
                    assert(false);
                }
                Vec::new()
            },
        }
    }
}

impl JrType for JrCollection {
    open spec fn bytes_ok(&self, depth: int) -> bool {
        spec_col_ok(*self, 0, depth)
    }

    open spec fn spec_bytes(&self, depth: int) -> Seq<u8> {
        spec_col_content(*self, 0, depth)
    }

    fn get_bytes(&mut self, depth: u8) -> (r: Vec<u8>) {
        match col_bytes_checked(self, 0, depth) {
            Ok(v) => v,
            Err(_) => {
                proof {
                    assert(false);
                }
                Vec::new()
            },
        }
    }
}

impl JrDocument {
    /// A whole record for `s`: header at `depth` followed by its content.
    pub fn get_content_bytes<T: JrType>(s: &mut T, content_type: u8, depth: u8, key: String) -> (r:
        Vec<u8>)
        requires
            old(s).bytes_ok(depth as int),
            encode_utf8(key@).len() <= 255,
            spec_header_len(content_type) + encode_utf8(key@).len() + old(s).spec_bytes(
                depth as int,
            ).len() <= 0xFFFFFFFF,
        ensures
            r@ == spec_record(
                depth as int,
                content_type,
                encode_utf8(key@),
                0,
                old(s).spec_bytes(depth as int),
            ),
    {
        let mut content_bytes = s.get_bytes(depth);
        let mut header = build_header(content_type, depth, content_bytes.len() as u32, key.as_str());
        header.append(&mut content_bytes);
        proof {
            assert(header@ =~= spec_record(
                depth as int,
                content_type,
                encode_utf8(key@),
                0,
                old(s).spec_bytes(depth as int),
            ));
        }
        header
    }
}

/// Typed field access on a container.
pub trait AddGet<T> where T: JrType {
    /// The container's field readings.
    spec fn fields_of(&self) -> Seq<(Seq<char>, ValV)>;

    /// The reading a stored value of this type gets.
    spec fn val_of(item: &T) -> ValV;

    /// Bind `key` to `item`: replace the existing field or append a new one.
    fn add(&mut self, key: &str, item: T)
        ensures
            final(self).fields_of() == spec_set_field(
                old(self).fields_of(),
                key@,
                Self::val_of(&item),
            ),
    ;

    /// The value stored under `key`, when present with this type.
    fn get<'a>(&'a self, key: &str) -> (r: Result<&'a T, &'a str>)
        ensures
            ({
                let j = spec_idx(self.fields_of(), key@);
                match r {
                    Ok(v) => j < self.fields_of().len() && self.fields_of()[j] == (
                        key@,
                        Self::val_of(v),
                    ),
                    Err(_) => j == self.fields_of().len() || (forall|v: T|
                        self.fields_of()[j].1 != Self::val_of(&v)),
                }
            }),
            ({
                let j = spec_idx(self.fields_of(), key@);
                (j < self.fields_of().len() && (exists|v: T|
                    self.fields_of()[j].1 == Self::val_of(&v))) ==> r is Ok
            }),
    ;
}

impl AddGet<JrDocument> for JrDocument {
    open spec fn fields_of(&self) -> Seq<(Seq<char>, ValV)> {
        doc_fields(*self, 0)
    }

    open spec fn val_of(item: &JrDocument) -> ValV {
        ValV::D(doc_fields(*item, 0))
    }

    fn add(&mut self, key: &str, item: JrDocument) {
        self.set_any(key, JrAny::JrDocument(item));
    }

    fn get<'a>(&'a self, key: &str) -> (r: Result<&'a JrDocument, &'a str>) {
        match self.get_any(key) {
            None => Err("Key not found"),
            Some(any) => match any {
                JrAny::JrDocument(d) => Ok(d),
                _ => Err("Not a JrDocument"),
            },
        }
    }
}

impl AddGet<JrCollection> for JrDocument {
    open spec fn fields_of(&self) -> Seq<(Seq<char>, ValV)> {
        doc_fields(*self, 0)
    }

    open spec fn val_of(item: &JrCollection) -> ValV {
        ValV::C(col_docs(*item, 0))
    }

    fn add(&mut self, key: &str, item: JrCollection) {
        self.set_any(key, JrAny::JrCollection(item));
    }

    fn get<'a>(&'a self, key: &str) -> (r: Result<&'a JrCollection, &'a str>) {
        match self.get_any(key) {
            None => Err("Key not found"),
            Some(any) => match any {
                JrAny::JrCollection(c) => Ok(c),
                _ => Err("Not a JrCollection"),
            },
        }
    }
}

impl AddGet<JrString> for JrDocument {
    open spec fn fields_of(&self) -> Seq<(Seq<char>, ValV)> {
        doc_fields(*self, 0)
    }

    open spec fn val_of(item: &JrString) -> ValV {
        ValV::S(item.data@)
    }

    fn add(&mut self, key: &str, item: JrString) {
        self.set_any(key, JrAny::JrString(item));
    }

    fn get<'a>(&'a self, key: &str) -> (r: Result<&'a JrString, &'a str>) {
        match self.get_any(key) {
            None => Err("Key not found"),
            Some(any) => match any {
                JrAny::JrString(st) => Ok(st),
                _ => Err("Not a JrString"),
            },
        }
    }
}

impl AddGet<JrI64> for JrDocument {
    open spec fn fields_of(&self) -> Seq<(Seq<char>, ValV)> {
        doc_fields(*self, 0)
    }

    open spec fn val_of(item: &JrI64) -> ValV {
        ValV::I(item.data)
    }

    fn add(&mut self, key: &str, item: JrI64) {
        self.set_any(key, JrAny::JrI64(item));
    }

    fn get<'a>(&'a self, key: &str) -> (r: Result<&'a JrI64, &'a str>) {
        match self.get_any(key) {
            None => Err("Key not found"),
            Some(any) => match any {
                JrAny::JrI64(x) => Ok(x),
                _ => Err("Not a JrString"),
            },
        }
    }
}

/// The kind of a condition node: two connectives and ten leaf comparisons.
#[derive(Clone, Copy)]
pub enum ConditionType {
    And,
    Or,
    Eq,
    NEq,
    Gt,
    NGt,
    GtE,
    NGtE,
    St,
    NSt,
    StE,
    NStE,
}

/// A condition tree: a connective over children, or a leaf comparing the two
/// operand strings of `expression`.
pub struct JrCondition {
    pub cond_type: ConditionType,
    pub conditions: Vec<JrCondition>,
    pub expression: (String, String),
}

/// Resolve a leaf operand against a document: a quoted string literal, a
/// signed decimal integer literal, or a field reference whose value must be
/// an integer or a string.
pub open spec fn spec_resolve(op: Seq<char>, fields: Seq<(Seq<char>, ValV)>) -> Option<ValV> {
    if op.len() >= 2 && op[0] == '\'' && op[op.len() - 1] == '\'' {
        Some(ValV::S(op.subrange(1, op.len() - 1)))
    } else {
        match spec_parse_i64(op) {
            Some(v) => Some(ValV::I(v as i64)),
            None => {
                let j = spec_idx(fields, op);
                if j < fields.len() {
                    match fields[j].1 {
                        ValV::I(x) => Some(ValV::I(x)),
                        ValV::S(t) => Some(ValV::S(t)),
                        _ => None,
                    }
                } else {
                    None
                }
            },
        }
    }
}

/// A resolved value as character text: integers are written in decimal.
pub open spec fn spec_chars_of(v: ValV) -> Seq<char> {
    match v {
        ValV::S(t) => t,
        ValV::I(x) => dec_i64_chars(x as int),
        _ => Seq::empty(),
    }
}

/// The leaf comparison on character strings named by a condition kind.
pub open spec fn spec_str_cmp(k: ConditionType, a: Seq<char>, b: Seq<char>) -> bool {
    match k {
        ConditionType::And => false,
        ConditionType::Or => false,
        ConditionType::Eq => a == b,
        ConditionType::NEq => !(a == b),
        ConditionType::Gt => lex_lt(b, a),
        ConditionType::NGt => !lex_lt(b, a),
        ConditionType::GtE => !lex_lt(a, b),
        ConditionType::NGtE => lex_lt(a, b),
        ConditionType::St => lex_lt(a, b),
        ConditionType::NSt => !lex_lt(a, b),
        ConditionType::StE => !lex_lt(b, a),
        ConditionType::NStE => lex_lt(b, a),
    }
}

/// The leaf comparison on signed integers named by a condition kind.
pub open spec fn spec_int_cmp(k: ConditionType, a: i64, b: i64) -> bool {
    match k {
        ConditionType::And => false,
        ConditionType::Or => false,
        ConditionType::Eq => a == b,
        ConditionType::NEq => a != b,
        ConditionType::Gt => a > b,
        ConditionType::NGt => !(a > b),
        ConditionType::GtE => a >= b,
        ConditionType::NGtE => !(a >= b),
        ConditionType::St => a < b,
        ConditionType::NSt => !(a < b),
        ConditionType::StE => a <= b,
        ConditionType::NStE => !(a <= b),
    }
}

/// Compare two resolved values: when either side is a string, both are
/// compared as strings; otherwise both must be integers.
pub open spec fn spec_leaf_cmp(k: ConditionType, a: ValV, b: ValV) -> bool {
    if a is S || b is S {
        spec_str_cmp(k, spec_chars_of(a), spec_chars_of(b))
    } else if a is I && b is I {
        spec_int_cmp(k, a->I_0, b->I_0)
    } else {
        false
    }
}

/// Whether a condition holds of a document, given as its field readings.
pub open spec fn spec_cond_holds(c: JrCondition, fields: Seq<(Seq<char>, ValV)>) -> bool
    decreases c, c.conditions@.len() + 1,
{
    match c.cond_type {
        ConditionType::And => spec_all_conds(c, 0, fields),
        ConditionType::Or => spec_any_cond(c, 0, fields),
        _ => {
            match (
                spec_resolve(c.expression.0@, fields),
                spec_resolve(c.expression.1@, fields),
            ) {
                (Some(a), Some(b)) => spec_leaf_cmp(c.cond_type, a, b),
                _ => false,
            }
        },
    }
}

/// Whether a condition holds of a document.
pub open spec fn spec_cond_result(c: JrCondition, doc: JrDocument) -> bool {
    spec_cond_holds(c, doc_fields(doc, 0))
}

/// The conjunction of the children of `c` from index `i` on.
pub open spec fn spec_all_conds(c: JrCondition, i: int, fields: Seq<(Seq<char>, ValV)>) -> bool
    decreases c, c.conditions@.len() - i,
    via spec_all_conds_decreases
{
    if i < 0 || i >= c.conditions@.len() {
        true
    } else {
        spec_cond_holds(c.conditions@[i], fields) && spec_all_conds(c, i + 1, fields)
    }
}

#[via_fn]
proof fn spec_all_conds_decreases(c: JrCondition, i: int, fields: Seq<(Seq<char>, ValV)>) {
    if 0 <= i < c.conditions@.len() {
        vstd::std_specs::vec::axiom_vec_index_decreases(c.conditions, i);
        assert(decreases_to!(c => c.conditions@[i]));
    }
}

/// The disjunction of the children of `c` from index `i` on.
pub open spec fn spec_any_cond(c: JrCondition, i: int, fields: Seq<(Seq<char>, ValV)>) -> bool
    decreases c, c.conditions@.len() - i,
    via spec_any_cond_decreases
{
    if i < 0 || i >= c.conditions@.len() {
        false
    } else {
        spec_cond_holds(c.conditions@[i], fields) || spec_any_cond(c, i + 1, fields)
    }
}

#[via_fn]
proof fn spec_any_cond_decreases(c: JrCondition, i: int, fields: Seq<(Seq<char>, ValV)>) {
    if 0 <= i < c.conditions@.len() {
        vstd::std_specs::vec::axiom_vec_index_decreases(c.conditions, i);
        assert(decreases_to!(c => c.conditions@[i]));
    }
}

/// Whether a condition is the identity-true default: an equality between two
/// empty quoted string literals.
pub open spec fn spec_true_cond(c: JrCondition) -> bool {
    &&& c.cond_type is Eq
    &&& c.expression.0@ =~= seq!['\'', '\'']
    &&& c.expression.1@ =~= seq!['\'', '\'']
}

/// The identity-true condition holds of every document.
pub proof fn lemma_true_cond(c: JrCondition, doc: JrDocument)
    requires
        spec_true_cond(c),
    ensures
        spec_cond_result(c, doc),
        spec_cond_holds(c, doc_fields(doc, 0)),
{
    let op = c.expression.0@;
    let op2 = c.expression.1@;
    assert(op[0] == '\'');
    assert(op[1] == '\'');
    assert(op.subrange(1, 1) =~= Seq::<char>::empty());
    assert(op2.subrange(1, 1) =~= Seq::<char>::empty());
}

impl JrCondition {
    /// An empty conjunction, which holds of every document.
    pub fn and() -> (r: Self)
        ensures
            r.cond_type is And,
            r.conditions@.len() == 0,
            r.expression.0@ == Seq::<char>::empty(),
            r.expression.1@ == Seq::<char>::empty(),
    {
        JrCondition {
            cond_type: ConditionType::And,
            conditions: Vec::new(),
            expression: (String::new(), String::new()),
        }
    }

    /// An empty disjunction, which holds of no document.
    pub fn or() -> (r: Self)
        ensures
            r.cond_type is Or,
            r.conditions@.len() == 0,
            r.expression.0@ == Seq::<char>::empty(),
            r.expression.1@ == Seq::<char>::empty(),
    {
        JrCondition {
            cond_type: ConditionType::Or,
            conditions: Vec::new(),
            expression: (String::new(), String::new()),
        }
    }

    /// A condition node from its parts.
    pub fn new_exp(
        cond_type: ConditionType,
        conditions: Vec<JrCondition>,
        expression: (String, String),
    ) -> (r: Self)
        ensures
            r.cond_type == cond_type,
            r.conditions == conditions,
            r.expression == expression,
    {
        JrCondition { cond_type, conditions, expression }
    }

    /// Append a child condition.
    pub fn add_cond(&mut self, cond: JrCondition)
        ensures
            final(self).conditions@ == old(self).conditions@.push(cond),
            final(self).cond_type == old(self).cond_type,
            final(self).expression == old(self).expression,
    {
        self.conditions.push(cond);
    }

    /// Compare two strings under this node's comparison kind.
    pub fn compare_string(&self, val1: &String, val2: &String) -> (r: bool)
        ensures
            r == spec_str_cmp(self.cond_type, val1@, val2@),
    {
        match self.cond_type {
            ConditionType::And => false,
            ConditionType::Or => false,
            ConditionType::Eq => val1.eq(val2),
            ConditionType::NEq => !val1.eq(val2),
            ConditionType::Gt => str_lex_lt(val2.as_str(), val1.as_str()),
            ConditionType::NGt => !str_lex_lt(val2.as_str(), val1.as_str()),
            ConditionType::GtE => !str_lex_lt(val1.as_str(), val2.as_str()),
            ConditionType::NGtE => str_lex_lt(val1.as_str(), val2.as_str()),
            ConditionType::St => str_lex_lt(val1.as_str(), val2.as_str()),
            ConditionType::NSt => !str_lex_lt(val1.as_str(), val2.as_str()),
            ConditionType::StE => !str_lex_lt(val2.as_str(), val1.as_str()),
            ConditionType::NStE => str_lex_lt(val2.as_str(), val1.as_str()),
        }
    }

    /// Compare two integers under this node's comparison kind.
    fn compare_i64(&self, val1: i64, val2: i64) -> (r: bool)
        ensures
            r == spec_int_cmp(self.cond_type, val1, val2),
    {
        match self.cond_type {
            ConditionType::And => false,
            ConditionType::Or => false,
            ConditionType::Eq => val1 == val2,
            ConditionType::NEq => val1 != val2,
            ConditionType::Gt => val1 > val2,
            ConditionType::NGt => !(val1 > val2),
            ConditionType::GtE => val1 >= val2,
            ConditionType::NGtE => !(val1 >= val2),
            ConditionType::St => val1 < val2,
            ConditionType::NSt => !(val1 < val2),
            ConditionType::StE => val1 <= val2,
            ConditionType::NStE => !(val1 <= val2),
        }
    }

    /// A resolved value as a string, with integers written in decimal.
    fn get_as_string(&self, val: &JrAny) -> (r: Option<String>)
        ensures
            match r {
                Some(t) => (val@ is S || val@ is I) && t@ == spec_chars_of(val@),
                None => !(val@ is S || val@ is I),
            },
    {
        match val {
            JrAny::JrString(st) => Some(st.data.clone()),
            JrAny::JrI64(x) => Some(i64_dec_string(x.data)),
            _ => None,
        }
    }

    /// Resolve one operand against a document.
    fn get_value(&self, value: &String, doc: &JrDocument) -> (r: Option<JrAny>)
        ensures
            match r {
                Some(a) => spec_resolve(value@, doc@) == Some(a@) && (a@ is S || a@ is I),
                None => spec_resolve(value@, doc@) is None,
            },
    {
        let n = value.as_str().unicode_len();
        if n >= 2 {
            let c0 = value.as_str().get_char(0);
            let cl = value.as_str().get_char(n - 1);
            if c0 == '\'' && cl == '\'' {
                let interior = value.as_str().substring_char(1, n - 1).to_owned();
                return Some(JrAny::JrString(JrString::new(interior)));
            }
        }
        match parse_i64_str(value.as_str()) {
            Some(v) => Some(JrAny::JrI64(JrI64::new(v))),
            None => {
                match doc.get_any(value.as_str()) {
                    Some(any) => match any {
                        JrAny::JrI64(x) => Some(JrAny::JrI64(JrI64::new(x.data))),
                        JrAny::JrString(st) => Some(
                            JrAny::JrString(JrString::new(st.data.clone())),
                        ),
                        _ => None,
                    },
                    None => None,
                }
            },
        }
    }

    /// Evaluate this condition against a document.
    pub fn result(&self, doc: &JrDocument) -> (r: bool)
        ensures
            r == spec_cond_result(*self, *doc),
        decreases *self,
    {
        match self.cond_type {
            ConditionType::And => {
                let n = self.conditions.len();
                let mut data = true;
                let mut i: usize = 0;
                while i < n
                    invariant
                        i <= n,
                        n == self.conditions@.len(),
                        data ==> spec_all_conds(*self, 0, doc@) == spec_all_conds(
                            *self,
                            i as int,
                            doc@,
                        ),
                        !data ==> !spec_all_conds(*self, 0, doc@),
                    decreases n - i,
                {
                    proof {
                        vstd::std_specs::vec::axiom_vec_index_decreases(self.conditions, i as int);
                        assert(decreases_to!(*self => self.conditions@[i as int]));
                    }
                    if data && !self.conditions[i].result(doc) {
                        data = false;
                    }
                    i = i + 1;
                }
                data
            },
            ConditionType::Or => {
                let n = self.conditions.len();
                let mut data = false;
                let mut i: usize = 0;
                while i < n
                    invariant
                        i <= n,
                        n == self.conditions@.len(),
                        !data ==> spec_any_cond(*self, 0, doc@) == spec_any_cond(
                            *self,
                            i as int,
                            doc@,
                        ),
                        data ==> spec_any_cond(*self, 0, doc@),
                    decreases n - i,
                {
                    proof {
                        vstd::std_specs::vec::axiom_vec_index_decreases(self.conditions, i as int);
                        assert(decreases_to!(*self => self.conditions@[i as int]));
                    }
                    if !data && self.conditions[i].result(doc) {
                        data = true;
                    }
                    i = i + 1;
                }
                data
            },
            _ => {
                let v1 = self.get_value(&self.expression.0, doc);
                let v2 = self.get_value(&self.expression.1, doc);
                let mut result = false;
                match (v1, v2) {
                    (Some(left), Some(right)) => {
                        if let JrAny::JrString(s1) = &left {
                            if let Some(s2) = self.get_as_string(&right) {
                                result = self.compare_string(s1.get(), &s2);
                            }
                        } else if let JrAny::JrString(s2) = &right {
                            if let Some(s1) = self.get_as_string(&left) {
                                result = self.compare_string(&s1, s2.get());
                            }
                        } else if let JrAny::JrI64(x) = &left {
                            if let JrAny::JrI64(y) = &right {
                                result = self.compare_i64(*x.get(), *y.get());
                            }
                        }
                    },
                    _ => {
                        result = false;
                    },
                }
                result
            },
        }
    }
}


/// Plain-value field access on a container, and loading a field straight
/// from a database's byte image.
pub trait AddGetValue<T> {
    /// The container's field readings.
    spec fn value_fields(&self) -> Seq<(Seq<char>, ValV)>;

    /// The reading a plain value of this type gets.
    spec fn plain_val(item: &T) -> ValV;

    /// The reading a raw stored payload of this type gets.
    spec fn stored_val(bytes: Seq<u8>) -> ValV;

    /// Bind `key` to `item`: replace the existing field or append a new one.
    fn add_value(&mut self, key: &str, item: T)
        ensures
            final(self).value_fields() == spec_set_field(
                old(self).value_fields(),
                key@,
                Self::plain_val(&item),
            ),
    ;

    /// The value stored under `key`, when present with this type.
    fn get_value<'a>(&'a self, key: &str) -> (r: Result<T, &'a str>)
        ensures
            ({
                let j = spec_idx(self.value_fields(), key@);
                match r {
                    Ok(v) => j < self.value_fields().len() && self.value_fields()[j] == (
                        key@,
                        Self::plain_val(&v),
                    ),
                    Err(_) => j == self.value_fields().len() || (forall|v: T|
                        self.value_fields()[j].1 != Self::plain_val(&v)),
                }
            }),
            ({
                let j = spec_idx(self.value_fields(), key@);
                (j < self.value_fields().len() && (exists|v: T|
                    self.value_fields()[j].1 == Self::plain_val(&v))) ==> r is Ok
            }),
    ;

    /// Read the payload of the record `header` describes out of `db`, bind
    /// it under the record's key, and return it.
    fn get_value_from_db(
        &mut self,
        db: &mut crate::db::Database,
        header: &mut crate::header::HeaderDetail,
    ) -> (r: T)
        ensures
            ({
                let content = if old(header).content_start <= old(header).content_end <= old(
                    db,
                ).spec_data().len() {
                    old(db).spec_data().subrange(
                        old(header).content_start as int,
                        old(header).content_end as int,
                    )
                } else {
                    Seq::empty()
                };
                &&& final(self).value_fields() == spec_set_field(
                    old(self).value_fields(),
                    old(header).key@,
                    Self::stored_val(content),
                )
                &&& Self::plain_val(&r) == Self::stored_val(content)
            }),
            final(db).spec_data() == old(db).spec_data(),
            final(db).spec_name() == old(db).spec_name(),
            final(db).spec_actions() == old(db).spec_actions(),
            *final(header) == *old(header),
    ;
}

impl AddGetValue<String> for JrDocument {
    open spec fn value_fields(&self) -> Seq<(Seq<char>, ValV)> {
        doc_fields(*self, 0)
    }

    open spec fn plain_val(item: &String) -> ValV {
        ValV::S(item@)
    }

    open spec fn stored_val(bytes: Seq<u8>) -> ValV {
        ValV::S(crate::db::spec_str_of(bytes))
    }

    fn add_value(&mut self, key: &str, item: String) {
        self.set_any(key, JrAny::JrString(JrString::new(item)));
    }

    fn get_value<'a>(&'a self, key: &str) -> (r: Result<String, &'a str>) {
        match self.get_any(key) {
            None => Err("Key not found"),
            Some(any) => match any {
                JrAny::JrString(st) => Ok(st.data.clone()),
                _ => Err("Not a String"),
            },
        }
    }

    fn get_value_from_db(
        &mut self,
        db: &mut crate::db::Database,
        header: &mut crate::header::HeaderDetail,
    ) -> (r: String) {
        let data = match crate::text::string_from_utf8(db.content_of(header)) {
            Some(d) => d,
            None => String::new(),
        };
        self.add_value(header.key.as_str(), data.clone());
        data
    }
}

impl AddGetValue<i64> for JrDocument {
    open spec fn value_fields(&self) -> Seq<(Seq<char>, ValV)> {
        doc_fields(*self, 0)
    }

    open spec fn plain_val(item: &i64) -> ValV {
        ValV::I(*item)
    }

    /// A payload longer than eight bytes cannot be a stored integer; it
    /// reads back as zero here, where the verified select path reports it
    /// as a corrupt header instead.
    open spec fn stored_val(bytes: Seq<u8>) -> ValV {
        ValV::I(
            if bytes.len() > 8 {
                0
            } else {
                crate::db::spec_i64_of(bytes)
            },
        )
    }

    fn add_value(&mut self, key: &str, item: i64) {
        self.set_any(key, JrAny::JrI64(JrI64::new(item)));
    }

    fn get_value<'a>(&'a self, key: &str) -> (r: Result<i64, &'a str>) {
        match self.get_any(key) {
            None => Err("Key not found"),
            Some(any) => match any {
                JrAny::JrI64(x) => Ok(x.data),
                _ => Err("Not a i64"),
            },
        }
    }

    fn get_value_from_db(
        &mut self,
        db: &mut crate::db::Database,
        header: &mut crate::header::HeaderDetail,
    ) -> (r: i64) {
        let bytes = db.content_of(header);
        if bytes.len() > 8 {
            self.add_value(header.key.as_str(), 0i64);
            return 0;
        }
        let mut data = bytes;
        let ghost orig = data@;
        while data.len() < 8
            invariant
                orig.len() <= 8,
                orig.len() <= data@.len() <= 8,
                data@ == orig + Seq::new((data@.len() - orig.len()) as nat, |i: int| 0u8),
            decreases 8 - data@.len(),
        {
            data.push(0);
            proof {
                assert(data@ =~= orig + Seq::new(
                    (data@.len() - orig.len()) as nat,
                    |i: int| 0u8,
                ));
            }
        }
        proof {
            assert(data@ =~= crate::db::pad8(orig));
            assert(data@.subrange(0, 8) =~= data@);
        }
        let v = crate::bytes::read_i64_at(&data, 0);
        self.add_value(header.key.as_str(), v);
        v
    }
}

fn clone_any(a: &JrAny) -> (r: JrAny)
    ensures
        any_view(r) == any_view(*a),
    decreases *a, 0int,
{
    match a {
        JrAny::JrI64(x) => JrAny::JrI64(JrI64 { data: x.data }),
        JrAny::JrString(st) => JrAny::JrString(JrString { data: st.data.clone() }),
        JrAny::JrDocument(d) => {
            proof {
                assert(decreases_to!(*a => *d));
            }
            let fields = clone_doc_fields(d, 0);
            let inner = JrDocument { data: fields };
            proof {
                lemma_doc_fields(*d, 0);
                lemma_doc_fields(inner, 0);
                assert(doc_fields(inner, 0) =~= doc_fields(*d, 0));
            }
            JrAny::JrDocument(inner)
        },
        JrAny::JrCollection(c) => {
            proof {
                assert(decreases_to!(*a => *c));
            }
            let docs = clone_col_docs(c, 0);
            let inner = JrCollection { data: docs };
            proof {
                lemma_col_docs(*c, 0);
                lemma_col_docs(inner, 0);
                assert(col_docs(inner, 0) =~= col_docs(*c, 0));
            }
            JrAny::JrCollection(inner)
        },
    }
}

fn clone_doc_fields(d: &JrDocument, i: usize) -> (r: Vec<(String, JrAny)>)
    requires
        i <= d.data@.len(),
    ensures
        r@.len() == d.data@.len() - i,
        forall|j: int|
            0 <= j < r@.len() ==> (#[trigger] r@[j]).0@ == d.data@[i + j].0@ && any_view(
                r@[j].1,
            ) == any_view(d.data@[i + j].1),
    decreases *d, d.data@.len() - i,
{
    if i >= d.data.len() {
        Vec::new()
    } else {
        proof {
            vstd::std_specs::vec::axiom_vec_index_decreases(d.data, i as int);
            assert(decreases_to!(*d => d.data@[i as int].1));
        }
        let pair = &d.data[i];
        let head = (pair.0.clone(), clone_any(&pair.1));
        let mut rest = clone_doc_fields(d, i + 1);
        rest.insert(0, head);
        rest
    }
}

fn clone_col_docs(c: &JrCollection, i: usize) -> (r: Vec<JrDocument>)
    requires
        i <= c.data@.len(),
    ensures
        r@.len() == c.data@.len() - i,
        forall|j: int|
            0 <= j < r@.len() ==> doc_fields(#[trigger] r@[j], 0) == doc_fields(
                c.data@[i + j],
                0,
            ),
    decreases *c, c.data@.len() - i,
{
    if i >= c.data.len() {
        Vec::new()
    } else {
        proof {
            vstd::std_specs::vec::axiom_vec_index_decreases(c.data, i as int);
            assert(decreases_to!(*c => c.data@[i as int]));
        }
        let doc = &c.data[i];
        let fields = clone_doc_fields(doc, 0);
        let head = JrDocument { data: fields };
        proof {
            lemma_doc_fields(head, 0);
            lemma_doc_fields(c.data@[i as int], 0);
            assert(doc_fields(head, 0) =~= doc_fields(c.data@[i as int], 0));
        }
        let mut rest = clone_col_docs(c, i + 1);
        rest.insert(0, head);
        rest
    }
}

impl Clone for JrAny {
    /// A clone reads back exactly as the original.
    fn clone(&self) -> (res: Self)
        ensures
            res@ == self@,
    {
        clone_any(self)
    }
}

impl Clone for JrDocument {
    /// A clone reads back exactly as the original.
    fn clone(&self) -> (res: Self)
        ensures
            res@ == self@,
    {
        let fields = clone_doc_fields(self, 0);
        let r = JrDocument { data: fields };
        proof {
            lemma_doc_fields(*self, 0);
            lemma_doc_fields(r, 0);
            assert(doc_fields(r, 0) =~= doc_fields(*self, 0));
        }
        r
    }
}

impl Clone for JrCollection {
    /// A clone reads back exactly as the original.
    fn clone(&self) -> (res: Self)
        ensures
            res@ == self@,
    {
        let docs = clone_col_docs(self, 0);
        let r = JrCollection { data: docs };
        proof {
            lemma_col_docs(*self, 0);
            lemma_col_docs(r, 0);
            assert(col_docs(r, 0) =~= col_docs(*self, 0));
        }
        r
    }
}

/// Structural equality of condition trees from child `i` on: same kinds,
/// same operand texts, and the same children throughout.
pub open spec fn conds_eqv(a: JrCondition, b: JrCondition, i: int) -> bool
    decreases a, a.conditions@.len() + 1 - i,
    via conds_eqv_decreases
{
    if i <= 0 {
        &&& a.cond_type == b.cond_type
        &&& a.expression.0@ == b.expression.0@
        &&& a.expression.1@ == b.expression.1@
        &&& a.conditions@.len() == b.conditions@.len()
        &&& (a.conditions@.len() > 0 ==> conds_eqv(a, b, 1))
    } else if i > a.conditions@.len() || i > b.conditions@.len() {
        true
    } else {
        &&& conds_eqv(a.conditions@[i - 1], b.conditions@[i - 1], 0)
        &&& conds_eqv(a, b, i + 1)
    }
}

#[via_fn]
proof fn conds_eqv_decreases(a: JrCondition, b: JrCondition, i: int) {
    if 0 < i <= a.conditions@.len() {
        vstd::std_specs::vec::axiom_vec_index_decreases(a.conditions, i - 1);
        assert(decreases_to!(a => a.conditions@[i - 1]));
    }
}

fn clone_cond(c: &JrCondition) -> (r: JrCondition)
    ensures
        conds_eqv(r, *c, 0),
    decreases *c, 0int,
{
    let mut children: Vec<JrCondition> = Vec::new();
    let n = c.conditions.len();
    let mut i: usize = 0;
    while i < n
        invariant
            i <= n,
            n == c.conditions@.len(),
            children@.len() == i,
            forall|j: int|
                0 <= j < i ==> conds_eqv(#[trigger] children@[j], c.conditions@[j], 0),
        decreases n - i,
    {
        proof {
            vstd::std_specs::vec::axiom_vec_index_decreases(c.conditions, i as int);
            assert(decreases_to!(*c => c.conditions@[i as int]));
        }
        let child = clone_cond(&c.conditions[i]);
        children.push(child);
        i = i + 1;
    }
    let r = JrCondition {
        cond_type: c.cond_type,
        conditions: children,
        expression: (c.expression.0.clone(), c.expression.1.clone()),
    };
    proof {
        lemma_conds_eqv_children(r, *c, 1);
    }
    r
}

/// Pointwise-equivalent children make the tail relation hold.
proof fn lemma_conds_eqv_children(a: JrCondition, b: JrCondition, i: int)
    requires
        i >= 1,
        a.conditions@.len() == b.conditions@.len(),
        forall|j: int|
            0 <= j < a.conditions@.len() ==> conds_eqv(
                #[trigger] a.conditions@[j],
                b.conditions@[j],
                0,
            ),
    ensures
        i <= a.conditions@.len() + 1 ==> conds_eqv(a, b, i),
    decreases a.conditions@.len() + 2 - i,
{
    if 1 <= i <= a.conditions@.len() {
        lemma_conds_eqv_children(a, b, i + 1);
    }
}

impl Clone for JrCondition {
    /// A clone is structurally the same condition tree: same kinds, operand
    /// texts and children throughout, so it selects the same documents.
    fn clone(&self) -> (res: Self)
        ensures
            conds_eqv(res, *self, 0),
    {
        clone_cond(self)
    }
}

/// Structurally equal condition trees accept exactly the same documents.
pub proof fn lemma_conds_eqv_holds(a: JrCondition, b: JrCondition, fields: Seq<(Seq<char>, ValV)>)
    requires
        conds_eqv(a, b, 0),
    ensures
        spec_cond_holds(a, fields) == spec_cond_holds(b, fields),
{
    lemma_conds_eqv_all(a, b, fields, 0);
}

proof fn lemma_conds_eqv_all(a: JrCondition, b: JrCondition, fields: Seq<(Seq<char>, ValV)>, i: int)
    requires
        conds_eqv(a, b, 0),
        0 <= i,
    ensures
        spec_all_conds(a, i, fields) == spec_all_conds(b, i, fields),
        spec_any_cond(a, i, fields) == spec_any_cond(b, i, fields),
        i == 0 ==> spec_cond_holds(a, fields) == spec_cond_holds(b, fields),
    decreases a, a.conditions@.len() - i,
{
    if a.conditions@.len() > 0 {
        lemma_conds_eqv_tail_rec(a, b, 1);
    }
    if i < a.conditions@.len() {
        vstd::std_specs::vec::axiom_vec_index_decreases(a.conditions, i);
        assert(decreases_to!(a => a.conditions@[i]));
        lemma_conds_eqv_all(a.conditions@[i], b.conditions@[i], fields, 0);
        lemma_conds_eqv_all(a, b, fields, i + 1);
    }
}

proof fn lemma_conds_eqv_tail_rec(a: JrCondition, b: JrCondition, i: int)
    requires
        1 <= i,
        conds_eqv(a, b, 0),
        conds_eqv(a, b, i),
    ensures
        forall|j: int|
            i - 1 <= j < a.conditions@.len() ==> conds_eqv(
                #[trigger] a.conditions@[j],
                b.conditions@[j],
                0,
            ),
    decreases a.conditions@.len() + 2 - i,
{
    if i <= a.conditions@.len() {
        lemma_conds_eqv_tail_rec(a, b, i + 1);
    }
}

} // verus!
