//! The storage engine: a database over one in-memory byte image, with
//! staged actions applied by byte-level splicing.

use vstd::prelude::*;
use vstd::utf8::encode_utf8;
use vstd::utf8::decode_utf8;
use vstd::utf8::valid_utf8;
use vstd::string::StrSliceExecFns;
use vstd::string::StringSliceAdditionalSpecFns;
use crate::bytes::be_bytes;
use crate::bytes::be_val;
use crate::bytes::spec_splice;
use crate::bytes::splice_bytes;
use crate::bytes::read_u32_at;
use crate::bytes::read_i64_at;
use crate::bytes::i64_val;
use crate::bytes::u32_be_vec;
use crate::bytes::lemma_be_val_bound;
use crate::dec::dec_chars;
use crate::dec::dec_u64_bytes;
use crate::dec::lemma_dec_chars_len_u64;
use crate::err::JrError;
use crate::header::HeaderDetail;
use crate::header::FindV;
use crate::header::spec_find;
use crate::header::decoded_at;
use crate::header::hd_wf;
use crate::header::hd_depth;
use crate::header::hd_type;
use crate::header::hd_size;
use crate::header::hd_count;
use crate::header::hd_key_bytes;
use crate::header::hd_content_start;
use crate::header::hd_content_end;
use crate::jrdb_type::JrDocument;
use crate::jrdb_type::JrAny;
use crate::jrdb_type::JrCollection;
use crate::jrdb_type::JrCondition;
use crate::jrdb_type::spec_header;
use crate::jrdb_type::spec_header_len;
use crate::jrdb_type::spec_record;
use crate::jrdb_type::spec_doc_content;
use crate::jrdb_type::spec_doc_ok;
use crate::jrdb_type::spec_true_cond;
use crate::jrdb_type::spec_cond_holds;
use crate::jrdb_type::spec_set_field;
use crate::jrdb_type::ValV;
use crate::jrdb_type::build_header;
use crate::jrdb_type::build_header_bytes;
use crate::jrdb_type::ConditionType;
use crate::text::string_from_utf8;

verus! {

/// What one staged operation does.
pub enum ActionType {
    Insert,
    Select,
    Update,
    Delete,
}

/// One staged operation: its kind, the collection it targets, the condition
/// that selects documents, and the documents it carries.
pub struct Action {
    pub action_type: ActionType,
    pub from: String,
    pub condition: JrCondition,
    pub data: Vec<JrDocument>,
}

/// Whether an action carries the documents its kind needs.
pub open spec fn action_ok(a: Action) -> bool {
    (a.action_type is Insert || a.action_type is Update) ==> a.data@.len() >= 1
}

/// `b` with the size field of the record at `hs` set to `v`.
pub open spec fn with_size(b: Seq<u8>, hs: int, v: int) -> Seq<u8> {
    spec_splice(b, hs + 3, hs + 7, be_bytes(v, 4))
}

/// `b` with the count field of the collection record at `hs` set to `v`.
pub open spec fn with_count(b: Seq<u8>, hs: int, v: int) -> Seq<u8> {
    spec_splice(b, hs + 7, hs + 11, be_bytes(v, 4))
}

/// `b` with `payload` inserted at offset `at`.
pub open spec fn inserted(b: Seq<u8>, at: int, payload: Seq<u8>) -> Seq<u8> {
    spec_splice(b, at, at, payload)
}

/// The bytes of a fresh database: an empty root document named `root`.
pub open spec fn root_init() -> Seq<u8> {
    seq![0u8, 0u8, 4u8, 0u8, 0u8, 0u8, 11u8, 114u8, 111u8, 111u8, 116u8]
}

/// An embedded document database: a named byte image and a queue of staged
/// actions.
pub struct Database {
    data: Vec<u8>,
    file_name: String,
    actions: Vec<Action>,
}

impl Database {
    /// The byte image.
    pub closed spec fn spec_data(&self) -> Seq<u8> {
        self.data@
    }

    /// The name the image should be persisted under.
    pub closed spec fn spec_name(&self) -> Seq<char> {
        self.file_name@
    }

    /// The staged actions, first to run first.
    pub closed spec fn spec_actions(&self) -> Seq<Action> {
        self.actions@
    }

    /// Every staged action carries the documents its kind needs.
    pub closed spec fn wf(&self) -> bool {
        forall|i: int|
            0 <= i < self.actions@.len() ==> action_ok(#[trigger] self.actions@[i])
    }

    /// A database over a fresh, empty root record.
    pub fn fresh(file_name: String) -> (r: Database)
        ensures
            r.spec_data() == root_init(),
            r.spec_name() == file_name@,
            r.spec_actions().len() == 0,
            r.wf(),
    {
        let mut data: Vec<u8> = Vec::new();
        data.push(0);
        data.push(0);
        data.push(4);
        data.push(0);
        data.push(0);
        data.push(0);
        data.push(11);
        data.push(114);
        data.push(111);
        data.push(111);
        data.push(116);
        proof {
            assert(data@ =~= root_init());
        }
        Database { data, file_name, actions: Vec::new() }
    }

    /// A database over an existing byte image.
    pub fn from_bytes(file_name: String, data: Vec<u8>) -> (r: Database)
        ensures
            r.spec_data() == data@,
            r.spec_name() == file_name@,
            r.spec_actions().len() == 0,
            r.wf(),
    {
        Database { data, file_name, actions: Vec::new() }
    }

    /// The byte image, for persisting.
    pub fn bytes(&self) -> (r: &Vec<u8>)
        ensures
            r@ == self.spec_data(),
    {
        &self.data
    }

    /// The name the image should be persisted under.
    pub fn name(&self) -> (r: &String)
        ensures
            r@ == self.spec_name(),
    {
        &self.file_name
    }

    /// Replace the byte range `[start_pos, end_pos)` of the image.
    fn append_data(&mut self, start_pos: usize, end_pos: usize, data: &Vec<u8>)
        requires
            start_pos <= end_pos <= old(self).spec_data().len(),
        ensures
            final(self).spec_data() == spec_splice(
                old(self).spec_data(),
                start_pos as int,
                end_pos as int,
                data@,
            ),
            final(self).file_name == old(self).file_name,
            final(self).actions == old(self).actions,
    {
        splice_bytes(&mut self.data, start_pos, end_pos, data);
    }

    /// Write `len_val` into the size field of the record at `start_pos`.
    fn update_size(&mut self, start_pos: usize, len_val: usize)
        requires
            start_pos + 7 <= old(self).spec_data().len(),
            len_val <= 0xFFFFFFFF,
        ensures
            final(self).spec_data() == with_size(
                old(self).spec_data(),
                start_pos as int,
                len_val as int,
            ),
            final(self).file_name == old(self).file_name,
            final(self).actions == old(self).actions,
    {
        let _image_len = self.data.len();
        let bytes_data = u32_be_vec(len_val as u32);
        self.append_data(start_pos + 3, start_pos + 7, &bytes_data)
    }

    /// Write `len_val` into the count field of the collection at `start_pos`.
    fn update_len(&mut self, start_pos: usize, len_val: usize)
        requires
            start_pos + 11 <= old(self).spec_data().len(),
            len_val <= 0xFFFFFFFF,
        ensures
            final(self).spec_data() == with_count(
                old(self).spec_data(),
                start_pos as int,
                len_val as int,
            ),
            final(self).file_name == old(self).file_name,
            final(self).actions == old(self).actions,
    {
        let _image_len = self.data.len();
        let bytes_data = u32_be_vec(len_val as u32);
        self.append_data(start_pos + 7, start_pos + 11, &bytes_data)
    }

    /// The content bytes of the record `from` describes, or empty bytes
    /// when its offsets do not lie within the image.
    pub fn content_of(&self, from: &HeaderDetail) -> (r: Vec<u8>)
        ensures
            (from.content_start <= from.content_end <= self.spec_data().len()) ==> r@
                == self.spec_data().subrange(from.content_start as int, from.content_end as int),
            !(from.content_start <= from.content_end <= self.spec_data().len()) ==> r@
                == Seq::<u8>::empty(),
    {
        if from.content_start <= from.content_end && from.content_end <= self.data.len() {
            self.get_bytes_content(from)
        } else {
            Vec::new()
        }
    }

    /// The content bytes of the record `from` describes.
    fn get_bytes_content(&self, from: &HeaderDetail) -> (r: Vec<u8>)
        requires
            from.content_start <= from.content_end <= self.spec_data().len(),
        ensures
            r@ == self.spec_data().subrange(from.content_start as int, from.content_end as int),
    {
        let mut out: Vec<u8> = Vec::new();
        let mut i: usize = from.content_start;
        while i < from.content_end
            invariant
                from.content_start <= i <= from.content_end,
                from.content_end <= self.spec_data().len(),
                self.spec_data() == self.data@,
                out@ == self.spec_data().subrange(from.content_start as int, i as int),
            decreases from.content_end - i,
        {
            out.push(self.data[i]);
            proof {
                assert(out@ =~= self.spec_data().subrange(from.content_start as int, i + 1));
            }
            i = i + 1;
        }
        out
    }

    /// Decode the record header at `start_pos`, checking that it lies within
    /// the image and carries a valid UTF-8 key.
    fn get_header_detail_by_pos(&self, start_pos: usize) -> (r: Result<HeaderDetail, JrError>)
        ensures
            match r {
                Ok(h) => hd_wf(self.spec_data(), start_pos as int) && decoded_at(
                    h,
                    self.spec_data(),
                    start_pos as int,
                ),
                Err(e) => !hd_wf(self.spec_data(), start_pos as int) && e is CorruptHeader,
            },
    {
        let ghost b = self.spec_data();
        let ghost p = start_pos as int;
        let n = self.data.len();
        if start_pos > n || n - start_pos < 7 {
            return Err(JrError::CorruptHeader);
        }
        let depth = self.data[start_pos];
        let content_type = self.data[start_pos + 1];
        let key_len = self.data[start_pos + 2] as usize;
        let key_start_pos = if content_type != 1 {
            start_pos + 7
        } else {
            if n - start_pos < 11 {
                return Err(JrError::CorruptHeader);
            }
            start_pos + 11
        };
        if n - key_start_pos < key_len {
            return Err(JrError::CorruptHeader);
        }
        let key_end_pos = key_start_pos + key_len;
        let size32 = read_u32_at(&self.data, start_pos + 3);
        let content_size = size32 as usize;
        if n - start_pos < content_size {
            return Err(JrError::CorruptHeader);
        }
        let content_end = start_pos + content_size;
        if content_end < key_end_pos {
            return Err(JrError::CorruptHeader);
        }
        let mut content_length: usize = 0;
        if content_type == 1 {
            content_length = read_u32_at(&self.data, start_pos + 7) as usize;
        }
        let mut key_utf8: Vec<u8> = Vec::new();
        let mut i: usize = key_start_pos;
        while i < key_end_pos
            invariant
                key_start_pos <= i <= key_end_pos,
                key_end_pos <= self.data@.len(),
                key_utf8@ == self.data@.subrange(key_start_pos as int, i as int),
            decreases key_end_pos - i,
        {
            key_utf8.push(self.data[i]);
            proof {
                assert(key_utf8@ =~= self.data@.subrange(key_start_pos as int, i + 1));
            }
            i = i + 1;
        }
        proof {
            assert(key_utf8@ =~= hd_key_bytes(b, p));
        }
        let key = match string_from_utf8(key_utf8) {
            Some(s) => s,
            None => {
                return Err(JrError::CorruptHeader);
            },
        };
        Ok(
            HeaderDetail {
                found: true,
                key,
                header_start: start_pos,
                content_start: key_end_pos,
                content_end,
                content_length,
                content_size,
                content_type,
                depth,
            },
        )
    }

    /// Scan sibling records in `[start_pos, limit)` for `target_key` with
    /// type `target_type` (255 accepts any type).  A miss is not an error:
    /// the returned header then has `found` false and carries the key.
    fn get_pos_by_key(
        &self,
        start_pos: usize,
        limit: usize,
        target_key: &str,
        target_type: u8,
    ) -> (r: Result<HeaderDetail, JrError>)
        requires
            limit <= self.spec_data().len(),
        ensures
            match r {
                Ok(h) => {
                    if h.found {
                        &&& spec_find(
                            self.spec_data(),
                            start_pos as int,
                            limit as int,
                            target_key@,
                            target_type,
                        ) == FindV::Found(h.header_start as int)
                        &&& decoded_at(h, self.spec_data(), h.header_start as int)
                        &&& hd_wf(self.spec_data(), h.header_start as int)
                        &&& h.content_end <= limit
                        &&& start_pos <= h.header_start
                        &&& (target_type == 255 || h.content_type == target_type)
                        &&& h.key@ == target_key@
                    } else {
                        &&& spec_find(
                            self.spec_data(),
                            start_pos as int,
                            limit as int,
                            target_key@,
                            target_type,
                        ) is Missing
                        &&& h.key@ == target_key@
                        &&& h.content_type == target_type
                        &&& h.header_start == 0
                        &&& h.content_start == 0
                        &&& h.content_end == 0
                        &&& h.content_size == 0
                        &&& h.content_length == 0
                        &&& h.depth == 0
                    }
                },
                Err(e) => match spec_find(
                    self.spec_data(),
                    start_pos as int,
                    limit as int,
                    target_key@,
                    target_type,
                ) {
                    FindV::BadHeader => e is CorruptHeader,
                    FindV::BadStruct => e is CorruptStructure,
                    _ => false,
                },
            },
    {
        let ghost b = self.spec_data();
        let mut cur: usize = start_pos;
        loop
            invariant
                limit <= b.len(),
                b == self.spec_data(),
                start_pos <= cur,
                spec_find(b, start_pos as int, limit as int, target_key@, target_type)
                    == spec_find(b, cur as int, limit as int, target_key@, target_type),
            decreases limit - cur,
        {
            if cur == limit {
                return Ok(
                    HeaderDetail {
                        found: false,
                        key: target_key.to_owned(),
                        header_start: 0,
                        content_start: 0,
                        content_end: 0,
                        content_length: 0,
                        content_size: 0,
                        content_type: target_type,
                        depth: 0,
                    },
                );
            }
            if cur > limit {
                return Err(JrError::CorruptStructure);
            }
            let h = match self.get_header_detail_by_pos(cur) {
                Ok(h) => h,
                Err(_) => {
                    return Err(JrError::CorruptHeader);
                },
            };
            if h.content_end > limit {
                return Err(JrError::CorruptStructure);
            }
            if (target_type == 255 || h.content_type == target_type) && crate::text::str_eq(
                h.key.as_str(),
                target_key,
            ) {
                return Ok(h);
            }
            cur = h.content_end;
        }
    }
}

/// The record bytes of one document inserted into a collection: a document
/// record keyed by the decimal sequence number `id`.
pub open spec fn spec_child_record(doc: JrDocument, depth: int, id: int) -> Seq<u8> {
    spec_record(depth, 0, encode_utf8(dec_chars(id)), 0, spec_doc_content(doc, 0, depth))
}

pub proof fn lemma_record_len(depth: int, ty: u8, key: Seq<u8>, count: int, content: Seq<u8>)
    ensures
        spec_record(depth, ty, key, count, content).len() == spec_header_len(ty) + key.len()
            + content.len(),
        spec_header(depth, ty, key, spec_header_len(ty) + key.len() + content.len(), count).len()
            == spec_header_len(ty) + key.len(),
{
    crate::bytes::lemma_be_bytes_len(spec_header_len(ty) + key.len() + content.len(), 4);
    crate::bytes::lemma_be_bytes_len(count, 4);
}

/// The byte image after inserting `doc` into the collection `name`: the
/// encoded document is appended at the collection's end under the next
/// sequence number, and the collection's size and count and the root's size
/// are rewritten.  A missing collection is first created empty at the root's
/// end.  Values that do not fit the format's fields are refused.
#[verifier::opaque]
pub open spec fn spec_insert(b: Seq<u8>, name: Seq<char>, doc: JrDocument) -> Result<
    Seq<u8>,
    JrError,
> {
    if !hd_wf(b, 0) {
        Err(JrError::CorruptHeader)
    } else {
        match spec_find(b, hd_content_start(b, 0), hd_content_end(b, 0), name, 1) {
            FindV::BadHeader => Err(JrError::CorruptHeader),
            FindV::BadStruct => Err(JrError::CorruptStructure),
            FindV::Missing => {
                let key = encode_utf8(name);
                let dp = hd_depth(b, 0) + 1;
                let ch = spec_header(dp, 1, key, 11 + key.len() as int, 0);
                let re = hd_content_end(b, 0);
                let child = spec_child_record(doc, dp + 1, 1);
                if key.len() <= 255 && hd_depth(b, 0) + 2 <= 255 && spec_doc_ok(doc, 0, dp + 1)
                    && hd_size(b, 0) + ch.len() <= 0xFFFFFFFF && 11 + key.len() + child.len()
                    <= 0xFFFFFFFF && hd_size(b, 0) + ch.len() + child.len() <= 0xFFFFFFFF {
                    let b1 = inserted(b, re, ch);
                    let b2 = with_size(b1, 0, hd_size(b, 0) + ch.len());
                    let b3 = inserted(b2, re + ch.len(), child);
                    let b4 = with_size(b3, re, 11 + key.len() as int + child.len() as int);
                    let b5 = with_count(b4, re, 1);
                    let b6 = with_size(b5, 0, hd_size(b, 0) + ch.len() + child.len());
                    Ok(b6)
                } else {
                    Err(JrError::CorruptStructure)
                }
            },
            FindV::Found(c) => {
                let dp = hd_depth(b, c) + 1;
                let child = spec_child_record(doc, dp, hd_count(b, c) + 1);
                if hd_depth(b, c) < 255 && spec_doc_ok(doc, 0, dp) && hd_count(b, c) + 1
                    <= 0xFFFFFFFF && hd_size(b, c) + child.len() <= 0xFFFFFFFF && hd_size(b, 0)
                    + child.len() <= 0xFFFFFFFF {
                    let b1 = inserted(b, hd_content_end(b, c), child);
                    let b2 = with_size(b1, c, hd_size(b, c) + child.len());
                    let b3 = with_count(b2, c, hd_count(b, c) + 1);
                    let b4 = with_size(b3, 0, hd_size(b, 0) + child.len());
                    Ok(b4)
                } else {
                    Err(JrError::CorruptStructure)
                }
            },
        }
    }
}

impl Database {
    /// Append `data` at the end of the record `pos` describes and grow its
    /// size field; `pos` is updated in step.
    fn append_to_doc_bytes_end(&mut self, pos: &mut HeaderDetail, data: &Vec<u8>) -> (r: usize)
        requires
            old(pos).content_end <= old(self).spec_data().len(),
            old(pos).header_start + 7 <= old(pos).content_end,
            old(pos).content_size + data@.len() <= 0xFFFFFFFF,
        ensures
            final(self).spec_data() == with_size(
                inserted(old(self).spec_data(), old(pos).content_end as int, data@),
                old(pos).header_start as int,
                old(pos).content_size + data@.len(),
            ),
            final(self).file_name == old(self).file_name,
            final(self).actions == old(self).actions,
            final(pos).content_size == old(pos).content_size + data@.len(),
            final(pos).content_end == old(pos).content_end + data@.len(),
            final(pos).header_start == old(pos).header_start,
            final(pos).content_start == old(pos).content_start,
            final(pos).content_length == old(pos).content_length,
            final(pos).content_type == old(pos).content_type,
            final(pos).depth == old(pos).depth,
            final(pos).found == old(pos).found,
            final(pos).key == old(pos).key,
            r == data@.len(),
    {
        let data_len = data.len();
        self.append_data(pos.content_end, pos.content_end, data);
        let _image_len = self.data.len();
        self.update_size(pos.header_start, pos.content_size + data_len);
        pos.content_size = pos.content_size + data_len;
        pos.content_end = pos.content_end + data_len;
        data_len
    }

    /// Append `doc` as the next numbered child of the collection at
    /// `collection_pos`, growing the collection's size and count and the
    /// parent's size; both snapshots are updated in step.
    fn append_to_collec_bytes_end(
        &mut self,
        collection_pos: &mut HeaderDetail,
        parent_pos: &mut HeaderDetail,
        doc: &JrDocument,
    ) -> (r: usize)
        requires
            spec_doc_ok(*doc, 0, old(collection_pos).depth as int + 1),
            old(collection_pos).depth < 255,
            old(collection_pos).content_end <= old(self).spec_data().len(),
            old(collection_pos).header_start + 11 <= old(collection_pos).content_end,
            old(parent_pos).header_start + 7 <= old(self).spec_data().len(),
            old(parent_pos).content_end <= old(self).spec_data().len(),
            old(collection_pos).content_length + 1 <= 0xFFFFFFFF,
            old(collection_pos).content_size + spec_child_record(
                *doc,
                old(collection_pos).depth as int + 1,
                old(collection_pos).content_length as int + 1,
            ).len() <= 0xFFFFFFFF,
            old(parent_pos).content_size + spec_child_record(
                *doc,
                old(collection_pos).depth as int + 1,
                old(collection_pos).content_length as int + 1,
            ).len() <= 0xFFFFFFFF,
        ensures
            ({
                let child = spec_child_record(
                    *doc,
                    old(collection_pos).depth as int + 1,
                    old(collection_pos).content_length as int + 1,
                );
                let b1 = inserted(
                    old(self).spec_data(),
                    old(collection_pos).content_end as int,
                    child,
                );
                let b2 = with_size(
                    b1,
                    old(collection_pos).header_start as int,
                    old(collection_pos).content_size + child.len(),
                );
                let b3 = with_count(
                    b2,
                    old(collection_pos).header_start as int,
                    old(collection_pos).content_length + 1,
                );
                let b4 = with_size(
                    b3,
                    old(parent_pos).header_start as int,
                    old(parent_pos).content_size + child.len(),
                );
                &&& final(self).spec_data() == b4
                &&& r == child.len()
                &&& final(collection_pos).content_size == old(collection_pos).content_size
                    + child.len()
                &&& final(collection_pos).content_end == old(collection_pos).content_end
                    + child.len()
                &&& final(collection_pos).content_length == old(collection_pos).content_length + 1
                &&& final(parent_pos).content_size == old(parent_pos).content_size + child.len()
                &&& final(parent_pos).content_end == old(parent_pos).content_end + child.len()
            }),
            final(self).file_name == old(self).file_name,
            final(self).actions == old(self).actions,
            final(collection_pos).header_start == old(collection_pos).header_start,
            final(collection_pos).content_start == old(collection_pos).content_start,
            final(collection_pos).content_type == old(collection_pos).content_type,
            final(collection_pos).depth == old(collection_pos).depth,
            final(collection_pos).found == old(collection_pos).found,
            final(collection_pos).key == old(collection_pos).key,
            final(parent_pos).header_start == old(parent_pos).header_start,
            final(parent_pos).content_start == old(parent_pos).content_start,
            final(parent_pos).content_length == old(parent_pos).content_length,
            final(parent_pos).content_type == old(parent_pos).content_type,
            final(parent_pos).depth == old(parent_pos).depth,
            final(parent_pos).found == old(parent_pos).found,
            final(parent_pos).key == old(parent_pos).key,
    {
        let ghost child = spec_child_record(
            *doc,
            collection_pos.depth as int + 1,
            collection_pos.content_length as int + 1,
        );
        let id = collection_pos.content_length + 1;
        let dp = collection_pos.depth + 1;
        let mut content = match crate::jrdb_type::doc_content_checked(doc, dp) {
            Ok(v) => v,
            Err(_) => {
                proof {
                    assert(false);
                }
                Vec::new()
            },
        };
        let key_bytes = dec_u64_bytes(id as u64);
        proof {
            lemma_dec_chars_len_u64(id as int);
            lemma_record_len(
                dp as int,
                0,
                encode_utf8(dec_chars(id as int)),
                0,
                spec_doc_content(*doc, 0, dp as int),
            );
        }
        let mut header = build_header_bytes(0, dp, content.len() as u32, &key_bytes);
        header.append(&mut content);
        proof {
            assert(header@ =~= child);
        }
        let len = header.len();
        self.append_data(collection_pos.content_end, collection_pos.content_end, &header);
        let _image_len = self.data.len();
        self.update_size(collection_pos.header_start, collection_pos.content_size + len);
        self.update_len(collection_pos.header_start, collection_pos.content_length + 1);
        collection_pos.content_size = collection_pos.content_size + len;
        collection_pos.content_end = collection_pos.content_end + len;
        collection_pos.content_length = collection_pos.content_length + 1;
        self.update_size(parent_pos.header_start, parent_pos.content_size + len);
        parent_pos.content_size = parent_pos.content_size + len;
        parent_pos.content_end = parent_pos.content_end + len;
        len
    }

    /// Locate the collection `from` among the children of the root record
    /// `pos` and append `doc` to it; a missing collection is first created
    /// empty at the root's end.  Returns the number of bytes added.
    #[verifier::rlimit(100)]
    #[verifier::spinoff_prover]
    fn find_and_insert(&mut self, from: &str, pos: &mut HeaderDetail, doc: &JrDocument) -> (r:
        Result<usize, JrError>)
        requires
            hd_wf(old(self).spec_data(), 0),
            decoded_at(*old(pos), old(self).spec_data(), 0),
        ensures
            match r {
                Ok(n) => spec_insert(old(self).spec_data(), from@, *doc) == Ok::<
                    Seq<u8>,
                    JrError,
                >(final(self).spec_data()) && old(self).spec_data().len() + n
                    == final(self).spec_data().len(),
                Err(e) => spec_insert(old(self).spec_data(), from@, *doc) == Err::<
                    Seq<u8>,
                    JrError,
                >(e) && final(self).spec_data() == old(self).spec_data(),
            },
            final(self).file_name == old(self).file_name,
            final(self).actions == old(self).actions,
    {
        proof {
            reveal(spec_insert);
        }
        let ghost b = self.spec_data();
        let collection_header = match self.get_pos_by_key(
            pos.content_start,
            pos.content_end,
            from,
            1,
        ) {
            Ok(h) => h,
            Err(e) => {
                return Err(e);
            },
        };
        if collection_header.found {
            let mut ch = collection_header;
            let ghost c = ch.header_start as int;
            if ch.depth == 255 {
                return Err(JrError::CorruptStructure);
            }
            let dp = ch.depth + 1;
            let content = match crate::jrdb_type::doc_content_checked(doc, dp) {
                Ok(v) => v,
                Err(_) => {
                    return Err(JrError::CorruptStructure);
                },
            };
            if ch.content_length >= 0xFFFFFFFF {
                return Err(JrError::CorruptStructure);
            }
            let key_bytes = dec_u64_bytes((ch.content_length + 1) as u64);
            proof {
                lemma_dec_chars_len_u64(ch.content_length + 1);
                lemma_record_len(
                    dp as int,
                    0,
                    encode_utf8(dec_chars(ch.content_length as int + 1)),
                    0,
                    spec_doc_content(*doc, 0, dp as int),
                );
            }
            if content.len() as u64 > 0xFFFFFFFF {
                return Err(JrError::CorruptStructure);
            }
            proof {
                lemma_be_val_bound(b.subrange(c + 3, c + 7));
                lemma_be_val_bound(b.subrange(3, 7));
                reveal_with_fuel(crate::bytes::pow256, 5);
                assert(crate::bytes::pow256(4nat) == 0x100000000);
            }
            let total: u64 = 7 + key_bytes.len() as u64 + content.len() as u64;
            if ch.content_size as u64 + total > 0xFFFFFFFF {
                return Err(JrError::CorruptStructure);
            }
            if pos.content_size as u64 + total > 0xFFFFFFFF {
                return Err(JrError::CorruptStructure);
            }
            let ghost ch_pre = ch;
            let ghost pos_pre = *pos;
            let added = self.append_to_collec_bytes_end(&mut ch, pos, doc);
            proof {
                let child = spec_child_record(
                    *doc,
                    ch_pre.depth as int + 1,
                    ch_pre.content_length as int + 1,
                );
                crate::bytes::lemma_be_bytes_len(ch_pre.content_size + child.len(), 4);
                crate::bytes::lemma_be_bytes_len(ch_pre.content_length + 1, 4);
                crate::bytes::lemma_be_bytes_len(pos_pre.content_size + child.len(), 4);
                assert(self.spec_data().len() == b.len() + child.len());
            }
            Ok(added)
        } else {
            let name_bytes = from.as_bytes_vec();
            if name_bytes.len() > 255 {
                return Err(JrError::CorruptStructure);
            }
            if pos.depth >= 254 {
                return Err(JrError::CorruptStructure);
            }
            let dp = pos.depth + 1;
            let content = match crate::jrdb_type::doc_content_checked(doc, dp + 1) {
                Ok(v) => v,
                Err(_) => {
                    return Err(JrError::CorruptStructure);
                },
            };
            let key_one = dec_u64_bytes(1);
            proof {
                lemma_dec_chars_len_u64(1);
                lemma_record_len(
                    dp as int + 1,
                    0,
                    encode_utf8(dec_chars(1)),
                    0,
                    spec_doc_content(*doc, 0, dp as int + 1),
                );
                lemma_record_len(dp as int, 1, encode_utf8(from@), 0, Seq::<u8>::empty());
            }
            if content.len() as u64 > 0xFFFFFFFF {
                return Err(JrError::CorruptStructure);
            }
            proof {
                lemma_be_val_bound(b.subrange(3, 7));
                reveal_with_fuel(crate::bytes::pow256, 5);
                assert(crate::bytes::pow256(4nat) == 0x100000000);
            }
            let total: u64 = 7 + key_one.len() as u64 + content.len() as u64;
            let hlen: u64 = 11 + name_bytes.len() as u64;
            if pos.content_size as u64 + hlen > 0xFFFFFFFF {
                return Err(JrError::CorruptStructure);
            }
            if hlen + total > 0xFFFFFFFF {
                return Err(JrError::CorruptStructure);
            }
            if pos.content_size as u64 + hlen + total > 0xFFFFFFFF {
                return Err(JrError::CorruptStructure);
            }
            let header = build_header(1, dp, 0, from);
            proof {
                assert(header@.len() == 11 + encode_utf8(from@).len());
            }
            let new_arr_start = pos.content_end;
            let ghost pre = *pos;
            let _ = self.append_to_doc_bytes_end(pos, &header);
            proof {
                crate::bytes::lemma_be_bytes_len(pre.content_size + header@.len(), 4);
                assert(self.spec_data().len() == b.len() + header@.len());
            }
            let _image_len = self.data.len();
            let mut collection_pos = HeaderDetail {
                found: true,
                key: from.to_owned(),
                header_start: new_arr_start,
                content_start: new_arr_start + 11 + name_bytes.len(),
                content_end: new_arr_start + header.len(),
                content_size: header.len(),
                content_length: 0,
                content_type: 1,
                depth: dp,
            };
            let ghost col_pre = collection_pos;
            let ghost pos_pre2 = *pos;
            let ghost mid = self.spec_data();
            let added = self.append_to_collec_bytes_end(&mut collection_pos, pos, doc);
            proof {
                let child = spec_child_record(
                    *doc,
                    col_pre.depth as int + 1,
                    col_pre.content_length as int + 1,
                );
                crate::bytes::lemma_be_bytes_len(col_pre.content_size + child.len(), 4);
                crate::bytes::lemma_be_bytes_len(col_pre.content_length + 1, 4);
                crate::bytes::lemma_be_bytes_len(pos_pre2.content_size + child.len(), 4);
                assert(self.spec_data().len() == mid.len() + child.len());
            }
            Ok(header.len() + added)
        }
    }

    /// Apply one staged insert to the byte image.
    fn insert_action(&mut self, action: &Action) -> (r: Result<(), JrError>)
        requires
            action.data@.len() >= 1,
        ensures
            match r {
                Ok(_) => spec_insert(
                    old(self).spec_data(),
                    action.from@,
                    action.data@[0],
                ) == Ok::<Seq<u8>, JrError>(final(self).spec_data()),
                Err(e) => spec_insert(old(self).spec_data(), action.from@, action.data@[0])
                    == Err::<Seq<u8>, JrError>(e) && final(self).spec_data() == old(
                    self,
                ).spec_data(),
            },
            (r is Ok && hd_size(old(self).spec_data(), 0) == old(self).spec_data().len())
                ==> hd_size(final(self).spec_data(), 0) == final(self).spec_data().len(),
            final(self).file_name == old(self).file_name,
            final(self).actions == old(self).actions,
    {
        proof {
            reveal(spec_insert);
        }
        let mut header_detail = match self.get_header_detail_by_pos(0) {
            Ok(h) => h,
            Err(e) => {
                return Err(e);
            },
        };
        match self.find_and_insert(action.from.as_str(), &mut header_detail, &action.data[0]) {
            Ok(_) => {
                proof {
                    if hd_size(old(self).spec_data(), 0) == old(self).spec_data().len() {
                        crate::laws::lemma_insert_balanced(
                            old(self).spec_data(),
                            action.from@,
                            action.data@[0],
                            self.spec_data(),
                        );
                    }
                }
                Ok(())
            },
            Err(e) => Err(e),
        }
    }
}

/// The outcome of walking records: a value, or one of the two corruption
/// failures.
pub enum WalkV<T> {
    Done(T),
    BadHeader,
    BadStruct,
}

/// A string payload as characters: decoded when valid UTF-8, empty otherwise.
pub open spec fn spec_str_of(bytes: Seq<u8>) -> Seq<char> {
    if valid_utf8(bytes) {
        decode_utf8(bytes)
    } else {
        Seq::empty()
    }
}

/// `s` padded with trailing zero bytes to length eight.
pub open spec fn pad8(s: Seq<u8>) -> Seq<u8> {
    s + Seq::new((8 - s.len()) as nat, |i: int| 0u8)
}

/// An integer payload of at most eight bytes, read as big-endian
/// two's-complement with trailing zero padding.
pub open spec fn spec_i64_of(bytes: Seq<u8>) -> i64 {
    i64_val(be_val(pad8(bytes))) as i64
}

/// Read the fields of the document record content `[q, end)` into `acc`:
/// strings and integers become fields, other record types are passed over.
pub open spec fn spec_read_doc(
    b: Seq<u8>,
    q: int,
    end: int,
    acc: Seq<(Seq<char>, ValV)>,
) -> WalkV<Seq<(Seq<char>, ValV)>>
    decreases end - q,
{
    if q == end {
        WalkV::Done(acc)
    } else if q > end || q < 0 {
        WalkV::BadStruct
    } else if !hd_wf(b, q) {
        WalkV::BadHeader
    } else if hd_content_end(b, q) > end {
        WalkV::BadStruct
    } else if hd_type(b, q) == 3 && hd_content_end(b, q) - hd_content_start(b, q) > 8 {
        WalkV::BadHeader
    } else {
        let key = decode_utf8(hd_key_bytes(b, q));
        let content = b.subrange(hd_content_start(b, q), hd_content_end(b, q));
        let acc2 = if hd_type(b, q) == 2 {
            spec_set_field(acc, key, ValV::S(spec_str_of(content)))
        } else if hd_type(b, q) == 3 {
            spec_set_field(acc, key, ValV::I(spec_i64_of(content)))
        } else {
            acc
        };
        spec_read_doc(b, hd_content_end(b, q), end, acc2)
    }
}

/// Walk the documents of the collection content `[q, end)`, keeping the
/// field readings of those the condition accepts, each opened with its
/// sequence-number key under `_id`.
pub open spec fn spec_select_walk(
    b: Seq<u8>,
    q: int,
    end: int,
    cond: JrCondition,
    acc: Seq<Seq<(Seq<char>, ValV)>>,
) -> WalkV<Seq<Seq<(Seq<char>, ValV)>>>
    decreases end - q,
{
    if q == end {
        WalkV::Done(acc)
    } else if q > end || q < 0 {
        WalkV::BadStruct
    } else if !hd_wf(b, q) {
        WalkV::BadHeader
    } else if hd_content_end(b, q) > end {
        WalkV::BadStruct
    } else {
        let base = spec_set_field(
            Seq::empty(),
            "_id"@,
            ValV::S(decode_utf8(hd_key_bytes(b, q))),
        );
        match spec_read_doc(b, hd_content_start(b, q), hd_content_end(b, q), base) {
            WalkV::Done(fields) => {
                let acc2 = if spec_cond_holds(cond, fields) {
                    acc.push(fields)
                } else {
                    acc
                };
                spec_select_walk(b, hd_content_end(b, q), end, cond, acc2)
            },
            WalkV::BadHeader => WalkV::BadHeader,
            WalkV::BadStruct => WalkV::BadStruct,
        }
    }
}

/// The documents selected from collection `name` under `cond`: empty when
/// the collection does not exist.
#[verifier::opaque]
pub open spec fn spec_select(b: Seq<u8>, name: Seq<char>, cond: JrCondition) -> WalkV<
    Seq<Seq<(Seq<char>, ValV)>>,
> {
    if !hd_wf(b, 0) {
        WalkV::BadHeader
    } else {
        match spec_find(b, hd_content_start(b, 0), hd_content_end(b, 0), name, 1) {
            FindV::BadHeader => WalkV::BadHeader,
            FindV::BadStruct => WalkV::BadStruct,
            FindV::Missing => WalkV::Done(Seq::empty()),
            FindV::Found(c) => spec_select_walk(
                b,
                hd_content_start(b, c),
                hd_content_end(b, c),
                cond,
                Seq::empty(),
            ),
        }
    }
}


/// When reading a document inside a collection walk fails, the walk as a
/// whole fails the same way.
proof fn walk_err(
    b: Seq<u8>,
    start0: int,
    end: int,
    q: int,
    cond: JrCondition,
    acc: Seq<Seq<(Seq<char>, ValV)>>,
)
    requires
        spec_select_walk(b, q, end, cond, acc) == spec_select_walk(
            b,
            start0,
            end,
            cond,
            Seq::<Seq<(Seq<char>, ValV)>>::empty(),
        ),
    ensures
        spec_select_walk(b, start0, end, cond, Seq::<Seq<(Seq<char>, ValV)>>::empty())
            == spec_select_walk(b, q, end, cond, acc),
{
}


/// Walk the documents of the collection content `[q, end)` under a delete:
/// the bytes of the documents the condition rejects survive, in order; the
/// accepted ones vanish.
pub open spec fn spec_delete_walk(b: Seq<u8>, q: int, end: int, cond: JrCondition) -> WalkV<
    Seq<u8>,
>
    decreases end - q,
{
    if q == end {
        WalkV::Done(Seq::empty())
    } else if q > end || q < 0 {
        WalkV::BadStruct
    } else if !hd_wf(b, q) {
        WalkV::BadHeader
    } else if hd_content_end(b, q) > end {
        WalkV::BadStruct
    } else {
        let base = spec_set_field(
            Seq::empty(),
            "_id"@,
            ValV::S(decode_utf8(hd_key_bytes(b, q))),
        );
        match spec_read_doc(b, hd_content_start(b, q), hd_content_end(b, q), base) {
            WalkV::Done(fields) => {
                match spec_delete_walk(b, hd_content_end(b, q), end, cond) {
                    WalkV::Done(rest) => WalkV::Done(
                        if spec_cond_holds(cond, fields) {
                            rest
                        } else {
                            b.subrange(q, hd_content_end(b, q)) + rest
                        },
                    ),
                    WalkV::BadHeader => WalkV::BadHeader,
                    WalkV::BadStruct => WalkV::BadStruct,
                }
            },
            WalkV::BadHeader => WalkV::BadHeader,
            WalkV::BadStruct => WalkV::BadStruct,
        }
    }
}


/// The tail of a three-part concatenation, from the end of the first two
/// parts on, is the third part.
proof fn lemma_concat_suffix(x: Seq<u8>, y: Seq<u8>, z: Seq<u8>)
    ensures
        (x + y + z).subrange(x.len() + y.len() as int, (x + y + z).len() as int) =~= z,
{
}

/// One step of the delete walk: what holds of the walk from a record's end
/// carries back to the walk from the record itself.
proof fn lemma_delete_walk_step(
    b0: Seq<u8>,
    cs_t: int,
    ce_t: int,
    orig_old: int,
    cond: JrCondition,
    kept_old: Seq<u8>,
    keep_doc: bool,
    fields: Seq<(Seq<char>, ValV)>,
)
    requires
        0 <= orig_old,
        hd_wf(b0, orig_old),
        orig_old < ce_t,
        hd_content_end(b0, orig_old) <= ce_t,
        spec_read_doc(
            b0,
            hd_content_start(b0, orig_old),
            hd_content_end(b0, orig_old),
            spec_set_field(Seq::empty(), "_id"@, ValV::S(decode_utf8(hd_key_bytes(b0, orig_old)))),
        ) == WalkV::Done(fields),
        spec_cond_holds(cond, fields) == !keep_doc,
        match spec_delete_walk(b0, orig_old, ce_t, cond) {
            WalkV::Done(rest) => spec_delete_walk(b0, cs_t, ce_t, cond) == WalkV::Done(
                kept_old + rest,
            ),
            WalkV::BadHeader => spec_delete_walk(b0, cs_t, ce_t, cond) is BadHeader,
            WalkV::BadStruct => spec_delete_walk(b0, cs_t, ce_t, cond) is BadStruct,
        },
    ensures
        ({
            let oce = hd_content_end(b0, orig_old);
            let kept2 = if keep_doc {
                kept_old + b0.subrange(orig_old, oce)
            } else {
                kept_old
            };
            match spec_delete_walk(b0, oce, ce_t, cond) {
                WalkV::Done(rest) => spec_delete_walk(b0, cs_t, ce_t, cond) == WalkV::Done(
                    kept2 + rest,
                ),
                WalkV::BadHeader => spec_delete_walk(b0, cs_t, ce_t, cond) is BadHeader,
                WalkV::BadStruct => spec_delete_walk(b0, cs_t, ce_t, cond) is BadStruct,
            }
        }),
{
    let oce = hd_content_end(b0, orig_old);
    match spec_delete_walk(b0, oce, ce_t, cond) {
        WalkV::Done(rest) => {
            if keep_doc {
                assert(spec_delete_walk(b0, orig_old, ce_t, cond) == WalkV::Done(b0.subrange(
                    orig_old,
                    oce,
                ) + rest));
                assert(kept_old + (b0.subrange(orig_old, oce) + rest) =~= (kept_old
                    + b0.subrange(orig_old, oce)) + rest);
            } else {
                assert(spec_delete_walk(b0, orig_old, ce_t, cond) == WalkV::Done(rest));
            }
        },
        WalkV::BadHeader => {
            assert(spec_delete_walk(b0, orig_old, ce_t, cond) is BadHeader);
        },
        WalkV::BadStruct => {
            assert(spec_delete_walk(b0, orig_old, ce_t, cond) is BadStruct);
        },
    }
}

impl Database {
    /// Add the field the record `doc_target` holds to `jr_doc`: strings and
    /// integers are decoded, other record types are passed over.
    fn add_content_by_header(&self, jr_doc: &mut JrDocument, doc_target: &HeaderDetail)
        requires
            doc_target.content_start <= doc_target.content_end <= self.spec_data().len(),
            doc_target.content_type == 3 ==> doc_target.content_end - doc_target.content_start
                <= 8,
        ensures
            final(jr_doc)@ == ({
                let content = self.spec_data().subrange(
                    doc_target.content_start as int,
                    doc_target.content_end as int,
                );
                if doc_target.content_type == 2 {
                    spec_set_field(old(jr_doc)@, doc_target.key@, ValV::S(spec_str_of(content)))
                } else if doc_target.content_type == 3 {
                    spec_set_field(old(jr_doc)@, doc_target.key@, ValV::I(spec_i64_of(content)))
                } else {
                    old(jr_doc)@
                }
            }),
    {
        let ghost content = self.spec_data().subrange(
            doc_target.content_start as int,
            doc_target.content_end as int,
        );
        if doc_target.content_type == 2 {
            let data = match string_from_utf8(self.get_bytes_content(doc_target)) {
                Some(d) => d,
                None => String::new(),
            };
            jr_doc.set_any(doc_target.key.as_str(), crate::jrdb_type::JrAny::JrString(
                crate::jrdb_type::JrString::new(data),
            ));
        } else if doc_target.content_type == 3 {
            let mut data = self.get_bytes_content(doc_target);
            let ghost orig = data@;
            while data.len() < 8
                invariant
                    orig.len() <= 8,
                    orig.len() <= data@.len() <= 8,
                    data@ == orig + Seq::new((data@.len() - orig.len()) as nat, |i: int| 0u8),
                decreases 8 - data@.len(),
            {
                data.push(0);
                proof {
                    assert(data@ =~= orig + Seq::new(
                        (data@.len() - orig.len()) as nat,
                        |i: int| 0u8,
                    ));
                }
            }
            proof {
                assert(data@ =~= pad8(orig));
                assert(data@.subrange(0, 8) =~= data@);
            }
            let v = read_i64_at(&data, 0);
            jr_doc.set_any(doc_target.key.as_str(), crate::jrdb_type::JrAny::JrI64(
                crate::jrdb_type::JrI64::new(v),
            ));
        }
    }

    /// Collect the documents of the collection `target` that `condition`
    /// accepts, each carrying its sequence-number key as `_id`.
    #[verifier::loop_isolation(false)]
    #[verifier::rlimit(100)]
    #[verifier::spinoff_prover]
    fn select_with_condition(
        &self,
        _parent: &HeaderDetail,
        target: &HeaderDetail,
        condition: &JrCondition,
    ) -> (r: Result<JrCollection, JrError>)
        requires
            target.found ==> target.content_start <= target.content_end <= self.spec_data().len(),
        ensures
            match r {
                Ok(col) => {
                    if target.found {
                        spec_select_walk(
                            self.spec_data(),
                            target.content_start as int,
                            target.content_end as int,
                            *condition,
                            Seq::empty(),
                        ) == WalkV::Done(col@)
                    } else {
                        col@.len() == 0
                    }
                },
                Err(e) => target.found && match spec_select_walk(
                    self.spec_data(),
                    target.content_start as int,
                    target.content_end as int,
                    *condition,
                    Seq::empty(),
                ) {
                    WalkV::BadHeader => e is CorruptHeader,
                    WalkV::BadStruct => e is CorruptStructure,
                    WalkV::Done(_) => false,
                },
            },
    {
        let ghost b = self.spec_data();
        let mut jr_collec = JrCollection::new();
        if target.found {
            let ghost start0 = target.content_start as int;
            let ghost end = target.content_end as int;
            let mut curr_pos = target.content_start;
            while curr_pos != target.content_end
                invariant
                    b == self.spec_data(),
                    target.content_end <= b.len(),
                    end == target.content_end as int,
                    start0 == target.content_start as int,
                    spec_select_walk(b, curr_pos as int, end, *condition, jr_collec@)
                        == spec_select_walk(b, start0, end, *condition, Seq::empty()),
                decreases end - curr_pos,
            {
                if curr_pos > target.content_end {
                    return Err(JrError::CorruptStructure);
                }
                let document_header = match self.get_header_detail_by_pos(curr_pos) {
                    Ok(h) => h,
                    Err(_) => {
                        return Err(JrError::CorruptHeader);
                    },
                };
                if document_header.content_end > target.content_end {
                    return Err(JrError::CorruptStructure);
                }
                let mut jr_doc = JrDocument::new();
                let id = crate::jrdb_type::JrString::new(document_header.key.clone());
                jr_doc.set_any("_id", crate::jrdb_type::JrAny::JrString(id));
                proof {
                    assert(jr_doc@ =~= spec_set_field(
                        Seq::empty(),
                        "_id"@,
                        ValV::S(decode_utf8(hd_key_bytes(b, curr_pos as int))),
                    ));
                }
                let ghost base = jr_doc@;
                let ghost dcs = document_header.content_start as int;
                let ghost dend = document_header.content_end as int;
                let mut q = document_header.content_start;
                while q != document_header.content_end
                    invariant
                        b == self.spec_data(),
                        document_header.content_end <= b.len(),
                        dend == document_header.content_end as int,
                        dcs == document_header.content_start as int,
                        spec_read_doc(b, q as int, dend, jr_doc@) == spec_read_doc(
                            b,
                            dcs,
                            dend,
                            base,
                        ),
                    decreases dend - q,
                {
                    if q > document_header.content_end {
                        proof {
                            walk_err(b, start0, end, curr_pos as int, *condition, jr_collec@);
                        }
                        return Err(JrError::CorruptStructure);
                    }
                    let h = match self.get_header_detail_by_pos(q) {
                        Ok(h) => h,
                        Err(_) => {
                            proof {
                                walk_err(b, start0, end, curr_pos as int, *condition, jr_collec@);
                            }
                            return Err(JrError::CorruptHeader);
                        },
                    };
                    if h.content_end > document_header.content_end {
                        proof {
                            walk_err(b, start0, end, curr_pos as int, *condition, jr_collec@);
                        }
                        return Err(JrError::CorruptStructure);
                    }
                    if h.content_type == 3 && h.content_end - h.content_start > 8 {
                        proof {
                            walk_err(b, start0, end, curr_pos as int, *condition, jr_collec@);
                        }
                        return Err(JrError::CorruptHeader);
                    }
                    self.add_content_by_header(&mut jr_doc, &h);
                    q = h.content_end;
                }
                proof {
                    assert(spec_read_doc(b, dcs, dend, base) == WalkV::Done(jr_doc@));
                }
                let keep = condition.result(&jr_doc);
                if keep {
                    jr_collec.add(jr_doc);
                }
                curr_pos = document_header.content_end;
            }
        }
        Ok(jr_collec)
    }

    /// Apply one staged select: walk the named collection and return the
    /// documents its condition accepts.  The byte image is not touched.
    fn select_action(&self, action: &Action) -> (r: Result<JrCollection, JrError>)
        ensures
            match r {
                Ok(col) => spec_select(self.spec_data(), action.from@, action.condition)
                    == WalkV::Done(col@),
                Err(e) => match spec_select(self.spec_data(), action.from@, action.condition) {
                    WalkV::BadHeader => e is CorruptHeader,
                    WalkV::BadStruct => e is CorruptStructure,
                    WalkV::Done(_) => false,
                },
            },
    {
        proof {
            reveal(spec_select);
        }
        let header_detail = match self.get_header_detail_by_pos(0) {
            Ok(h) => h,
            Err(e) => {
                return Err(e);
            },
        };
        let collection_header = match self.get_pos_by_key(
            header_detail.content_start,
            header_detail.content_end,
            action.from.as_str(),
            1,
        ) {
            Ok(h) => h,
            Err(e) => {
                return Err(e);
            },
        };
        self.select_with_condition(&header_detail, &collection_header, &action.condition)
    }
}

impl Database {
    /// Materialize the document record `dh` describes: its sequence key as
    /// `_id` plus its string and integer fields.
    #[verifier::loop_isolation(false)]
    fn read_document(&self, dh: &HeaderDetail) -> (r: Result<JrDocument, JrError>)
        requires
            dh.content_start <= dh.content_end <= self.spec_data().len(),
        ensures
            ({
                let base = spec_set_field(
                    Seq::empty(),
                    "_id"@,
                    ValV::S(dh.key@),
                );
                match r {
                    Ok(d) => spec_read_doc(
                        self.spec_data(),
                        dh.content_start as int,
                        dh.content_end as int,
                        base,
                    ) == WalkV::Done(d@),
                    Err(e) => match spec_read_doc(
                        self.spec_data(),
                        dh.content_start as int,
                        dh.content_end as int,
                        base,
                    ) {
                        WalkV::BadHeader => e is CorruptHeader,
                        WalkV::BadStruct => e is CorruptStructure,
                        WalkV::Done(_) => false,
                    },
                }
            }),
    {
        let ghost b = self.spec_data();
        let mut jr_doc = JrDocument::new();
        let id = crate::jrdb_type::JrString::new(dh.key.clone());
        jr_doc.set_any("_id", crate::jrdb_type::JrAny::JrString(id));
        proof {
            assert(jr_doc@ =~= spec_set_field(Seq::empty(), "_id"@, ValV::S(dh.key@)));
        }
        let ghost base = jr_doc@;
        let ghost dend = dh.content_end as int;
        let mut q = dh.content_start;
        while q != dh.content_end
            invariant
                spec_read_doc(b, q as int, dend, jr_doc@) == spec_read_doc(
                    b,
                    dh.content_start as int,
                    dend,
                    base,
                ),
            decreases dend - q,
        {
            if q > dh.content_end {
                return Err(JrError::CorruptStructure);
            }
            let h = match self.get_header_detail_by_pos(q) {
                Ok(h) => h,
                Err(_) => {
                    return Err(JrError::CorruptHeader);
                },
            };
            if h.content_end > dh.content_end {
                return Err(JrError::CorruptStructure);
            }
            if h.content_type == 3 && h.content_end - h.content_start > 8 {
                return Err(JrError::CorruptHeader);
            }
            self.add_content_by_header(&mut jr_doc, &h);
            q = h.content_end;
        }
        Ok(jr_doc)
    }

    /// Splice out every document of the collection `target` that
    /// `condition` accepts, then rewrite the collection's and the root's
    /// size fields.  The collection's count field is left as it was: it
    /// keeps numbering later inserts.
    #[verifier::loop_isolation(false)]
    #[verifier::rlimit(100)]
    #[verifier::spinoff_prover]
    fn delete_with_condition(
        &mut self,
        _from: &str,
        parent: &mut HeaderDetail,
        target: &mut HeaderDetail,
        condition: &JrCondition,
    ) -> (r: Result<(), JrError>)
        requires
            old(target).found,
            old(target).header_start + 11 <= old(target).content_start,
            old(target).content_start <= old(target).content_end <= old(self).spec_data().len(),
            old(target).content_end - old(target).content_start <= old(target).content_size,
            old(target).content_size <= 0xFFFFFFFF,
            old(parent).header_start == 0,
            old(parent).header_start + 7 <= old(target).header_start,
            old(parent).content_size <= 0xFFFFFFFF,
            old(parent).content_end == old(parent).header_start + old(parent).content_size,
        ensures
            final(self).file_name == old(self).file_name,
            final(self).actions == old(self).actions,
            r is Ok ==> final(self).spec_data().subrange(
                old(target).header_start as int + 7,
                old(target).header_start as int + 11,
            ) == old(self).spec_data().subrange(
                old(target).header_start as int + 7,
                old(target).header_start as int + 11,
            ),
            r is Ok ==> be_val(final(self).spec_data().subrange(3, 7)) + old(
                self,
            ).spec_data().len() == old(parent).content_size + final(self).spec_data().len(),
            r is Ok ==> ({
                let b = old(self).spec_data();
                let cs = old(target).content_start as int;
                let ce = old(target).content_end as int;
                match spec_delete_walk(b, cs, ce, *condition) {
                    WalkV::Done(kept) => old(parent).content_size >= (ce - cs) - kept.len()
                        && final(self).spec_data() == with_size(
                        with_size(
                            spec_splice(b, cs, ce, kept),
                            old(target).header_start as int,
                            old(target).content_size - ((ce - cs) - kept.len()),
                        ),
                        0,
                        old(parent).content_size - ((ce - cs) - kept.len()),
                    ),
                    _ => false,
                }
            }),
            r matches Err(e) ==> ({
                let b = old(self).spec_data();
                let cs = old(target).content_start as int;
                let ce = old(target).content_end as int;
                match spec_delete_walk(b, cs, ce, *condition) {
                    WalkV::BadHeader => e is CorruptHeader,
                    WalkV::BadStruct => e is CorruptStructure,
                    WalkV::Done(kept) => e is CorruptStructure && old(parent).content_size < (
                    ce - cs) - kept.len(),
                }
            }),
            r is Err ==> final(self).spec_data().subrange(
                0,
                old(target).content_start as int,
            ) == old(self).spec_data().subrange(0, old(target).content_start as int),
    {
        let ghost b0 = self.spec_data();
        let ghost hs_t = target.header_start as int;
        let ghost cs_t = target.content_start as int;
        let ghost ce_t = target.content_end as int;
        let mut curr = target.content_start;
        let mut cend = target.content_end;
        let mut deleted: usize = 0;
        let ghost mut orig_cur: int = cs_t;
        let ghost mut kept: Seq<u8> = Seq::empty();
        while curr != cend
            invariant
                cs_t <= orig_cur <= ce_t <= b0.len(),
                curr as int == cs_t + kept.len(),
                deleted == (orig_cur - cs_t) - kept.len(),
                cend as int == ce_t - deleted,
                self.spec_data() == b0.subrange(0, cs_t) + kept + b0.subrange(
                    orig_cur,
                    b0.len() as int,
                ),
                self.spec_data().len() == b0.len() - deleted,
                deleted <= ce_t - cs_t,
                curr <= cend,
                match spec_delete_walk(b0, orig_cur, ce_t, *condition) {
                    WalkV::Done(rest) => spec_delete_walk(b0, cs_t, ce_t, *condition)
                        == WalkV::Done(kept + rest),
                    WalkV::BadHeader => spec_delete_walk(b0, cs_t, ce_t, *condition)
                        is BadHeader,
                    WalkV::BadStruct => spec_delete_walk(b0, cs_t, ce_t, *condition)
                        is BadStruct,
                },
                self.file_name == old(self).file_name,
                self.actions == old(self).actions,
            decreases ce_t - orig_cur,
        {
            let ghost cur_buf = self.spec_data();
            proof {
                lemma_concat_suffix(
                    b0.subrange(0, cs_t),
                    kept,
                    b0.subrange(orig_cur, b0.len() as int),
                );
                assert(cur_buf.subrange(curr as int, cur_buf.len() as int) =~= b0.subrange(
                    orig_cur,
                    b0.len() as int,
                ));
                crate::laws::lemma_hd_translate(cur_buf, curr as int, b0, orig_cur, curr as int);
            }
            let dh = match self.get_header_detail_by_pos(curr) {
                Ok(h) => h,
                Err(_) => {
                    return Err(JrError::CorruptHeader);
                },
            };
            if dh.content_end > cend {
                return Err(JrError::CorruptStructure);
            }
            proof {
                crate::laws::lemma_read_doc_translate(
                    cur_buf,
                    curr as int,
                    b0,
                    orig_cur,
                    dh.content_start as int,
                    dh.content_end as int,
                    spec_set_field(Seq::empty(), "_id"@, ValV::S(dh.key@)),
                );
            }
            let jr_doc = match self.read_document(&dh) {
                Ok(d) => d,
                Err(e) => {
                    return Err(e);
                },
            };
            let ghost orig_old = orig_cur;
            let ghost osize = hd_size(b0, orig_old);
            let ghost oce = orig_old + osize;
            let ghost base_b0 = spec_set_field(
                Seq::empty(),
                "_id"@,
                ValV::S(decode_utf8(hd_key_bytes(b0, orig_old))),
            );
            proof {
                assert(dh.key@ == decode_utf8(hd_key_bytes(b0, orig_old)));
                assert(spec_read_doc(
                    b0,
                    hd_content_start(b0, orig_old),
                    hd_content_end(b0, orig_old),
                    base_b0,
                ) == WalkV::Done(jr_doc@));
            }
            let keep_doc = !condition.result(&jr_doc);
            let ghost kept_old = kept;
            if !keep_doc {
                let mut dh2 = dh;
                let removed = self.delete_key_by_header(&mut dh2);
                proof {
                    orig_cur = oce;
                    assert(self.spec_data() =~= b0.subrange(0, cs_t) + kept + b0.subrange(
                        orig_cur,
                        b0.len() as int,
                    ));
                }
                deleted = deleted + removed;
                cend = cend - removed;
            } else {
                proof {
                    kept = kept + b0.subrange(orig_old, oce);
                    orig_cur = oce;
                    assert(self.spec_data() =~= b0.subrange(0, cs_t) + kept + b0.subrange(
                        orig_cur,
                        b0.len() as int,
                    ));
                }
                curr = dh.content_end;
            }
            proof {
                assert(hd_wf(b0, orig_old));
                assert(hd_content_end(b0, orig_old) == oce);
                assert(oce <= ce_t);
                assert(spec_cond_holds(*condition, jr_doc@) == !keep_doc);
                lemma_delete_walk_step(
                    b0,
                    cs_t,
                    ce_t,
                    orig_old,
                    *condition,
                    kept_old,
                    keep_doc,
                    jr_doc@,
                );
            }
        }
        proof {
            assert(orig_cur == ce_t);
            assert(spec_delete_walk(b0, ce_t, ce_t, *condition) == WalkV::Done(
                Seq::<u8>::empty(),
            ));
            assert(kept + Seq::<u8>::empty() =~= kept);
            assert(spec_delete_walk(b0, cs_t, ce_t, *condition) == WalkV::Done(kept));
            assert(self.spec_data() =~= spec_splice(b0, cs_t, ce_t, kept));
        }
        if parent.content_size < deleted {
            return Err(JrError::CorruptStructure);
        }
        let ghost pre1 = self.spec_data();
        self.update_size(target.header_start, target.content_size - deleted);
        proof {
            crate::bytes::lemma_be_bytes_len(target.content_size - deleted, 4);
            assert(self.spec_data().subrange(hs_t + 7, hs_t + 11) =~= pre1.subrange(
                hs_t + 7,
                hs_t + 11,
            ));
        }
        target.content_size = target.content_size - deleted;
        target.content_end = target.content_end - deleted;
        let ghost pre2 = self.spec_data();
        self.update_size(parent.header_start, parent.content_size - deleted);
        proof {
            crate::bytes::lemma_be_bytes_len(parent.content_size - deleted, 4);
            assert(self.spec_data().subrange(hs_t + 7, hs_t + 11) =~= pre2.subrange(
                hs_t + 7,
                hs_t + 11,
            ));
            assert forall|i: int| hs_t + 7 <= i < hs_t + 11 implies pre1[i] == b0[i] by {
                assert(pre1[i] == (b0.subrange(0, cs_t) + kept + b0.subrange(
                    ce_t,
                    b0.len() as int,
                ))[i]);
                assert(b0.subrange(0, cs_t)[i] == b0[i]);
            }
            assert(pre1.subrange(hs_t + 7, hs_t + 11) =~= b0.subrange(hs_t + 7, hs_t + 11));
            assert(self.spec_data().subrange(3, 7) =~= be_bytes(
                parent.content_size - deleted,
                4,
            ));
            reveal_with_fuel(crate::bytes::pow256, 5);
            crate::bytes::lemma_be_round_trip(parent.content_size - deleted, 4);
        }
        parent.content_size = parent.content_size - deleted;
        parent.content_end = parent.content_end - deleted;
        Ok(())
    }

    /// Splice out the whole record `header` describes and return the number
    /// of bytes removed; the stale snapshot's size is zeroed.
    fn delete_key_by_header(&mut self, header: &mut HeaderDetail) -> (r: usize)
        requires
            old(header).header_start <= old(header).content_end <= old(self).spec_data().len(),
        ensures
            final(self).spec_data() == spec_splice(
                old(self).spec_data(),
                old(header).header_start as int,
                old(header).content_end as int,
                Seq::empty(),
            ),
            final(self).file_name == old(self).file_name,
            final(self).actions == old(self).actions,
            final(header).content_size == 0,
            final(header).header_start == old(header).header_start,
            final(header).content_end == old(header).content_end,
            r == old(header).content_end - old(header).header_start,
    {
        let data: Vec<u8> = Vec::new();
        self.append_data(header.header_start, header.content_end, &data);
        header.content_size = 0;
        header.content_end - header.header_start
    }

    /// Apply one staged delete: remove the matching documents of the named
    /// collection.  A missing collection leaves the image untouched.
    fn delete_action(&mut self, action: &Action) -> (r: Result<(), JrError>)
        ensures
            final(self).file_name == old(self).file_name,
            final(self).actions == old(self).actions,
            (r is Ok && hd_size(old(self).spec_data(), 0) == old(self).spec_data().len())
                ==> hd_size(final(self).spec_data(), 0) == final(self).spec_data().len(),
            match r {
                Ok(_) => spec_delete(old(self).spec_data(), action.from@, action.condition)
                    == Ok::<Seq<u8>, JrError>(final(self).spec_data()),
                Err(e) => spec_delete(old(self).spec_data(), action.from@, action.condition)
                    == Err::<Seq<u8>, JrError>(e),
            },
            r is Ok ==> ({
                let b = old(self).spec_data();
                !hd_wf(b, 0) || match spec_find(
                    b,
                    hd_content_start(b, 0),
                    hd_content_end(b, 0),
                    action.from@,
                    1,
                ) {
                    FindV::Found(c) => final(self).spec_data().subrange(c + 7, c + 11)
                        == b.subrange(c + 7, c + 11),
                    FindV::Missing => final(self).spec_data() == b,
                    _ => true,
                }
            }),
    {
        let mut header_detail = match self.get_header_detail_by_pos(0) {
            Ok(h) => h,
            Err(e) => {
                return Err(e);
            },
        };
        let mut collection_header = match self.get_pos_by_key(
            header_detail.content_start,
            header_detail.content_end,
            action.from.as_str(),
            1,
        ) {
            Ok(h) => h,
            Err(e) => {
                return Err(e);
            },
        };
        if !collection_header.found {
            return Ok(());
        }
        proof {
            lemma_be_val_bound(
                self.spec_data().subrange(
                    collection_header.header_start as int + 3,
                    collection_header.header_start as int + 7,
                ),
            );
            lemma_be_val_bound(self.spec_data().subrange(3, 7));
            reveal_with_fuel(crate::bytes::pow256, 5);
            assert(crate::bytes::pow256(4nat) == 0x100000000);
        }
        self.delete_with_condition(
            action.from.as_str(),
            &mut header_detail,
            &mut collection_header,
            &action.condition,
        )
    }

    /// Write `data` over the field `key` of the document `target_header`
    /// (or append it when absent), rewrite the document's size field, and
    /// return the next search position and the signed size delta.
    #[verifier::loop_isolation(false)]
    #[verifier::rlimit(100)]
    #[verifier::spinoff_prover]
    fn update_key_by_pos(
        &mut self,
        key: &str,
        data: &crate::jrdb_type::JrAny,
        start: usize,
        target_header: &mut HeaderDetail,
    ) -> (r: Result<(usize, i64), JrError>)
        requires
            old(target_header).content_end <= old(self).spec_data().len(),
            old(target_header).header_start + 7 <= old(target_header).content_start,
            old(target_header).content_start <= old(target_header).content_end,
            old(target_header).content_size <= 0xFFFFFFFF,
            old(target_header).content_end == old(target_header).header_start + old(
                target_header,
            ).content_size,
            start >= old(target_header).content_start,
        ensures
            final(self).file_name == old(self).file_name,
            final(self).actions == old(self).actions,
            match r {
                Ok(v) => {
                    &&& final(target_header).header_start == old(target_header).header_start
                    &&& final(target_header).content_start == old(target_header).content_start
                    &&& final(target_header).depth == old(target_header).depth
                    &&& final(target_header).content_size <= 0xFFFFFFFF
                    &&& final(target_header).content_end == final(target_header).header_start
                        + final(target_header).content_size
                    &&& final(target_header).content_end <= final(self).spec_data().len()
                    &&& final(target_header).content_start <= final(target_header).content_end
                    &&& final(self).spec_data().len() + old(target_header).content_size == old(
                        self,
                    ).spec_data().len() + final(target_header).content_size
                    &&& final(self).spec_data().subrange(
                        0,
                        old(target_header).header_start as int,
                    ) == old(self).spec_data().subrange(
                        0,
                        old(target_header).header_start as int,
                    )
                    &&& v.1 as int == final(target_header).content_size - old(
                        target_header,
                    ).content_size
                    &&& v.0 >= old(target_header).content_start
                },
                Err(_) => {
                    &&& final(self).spec_data() == old(self).spec_data()
                    &&& *final(target_header) == *old(target_header)
                },
            },
            ({
                let sp = spec_update_key(
                    old(self).spec_data(),
                    old(target_header).header_start as int,
                    old(target_header).content_end as int,
                    old(target_header).content_size as int,
                    old(target_header).depth,
                    start as int,
                    key@,
                    *data,
                );
                match r {
                    Ok(v) => sp == Ok::<(Seq<u8>, int, int), JrError>(
                        (
                            final(self).spec_data(),
                            v.0 as int,
                            final(target_header).content_size as int,
                        ),
                    ),
                    Err(e) => sp == Err::<(Seq<u8>, int, int), JrError>(e),
                }
            }),
    {
        let ghost b0 = self.spec_data();
        let ghost hs = target_header.header_start as int;
        if start > target_header.content_end {
            return Err(JrError::CorruptStructure);
        }
        let header = match self.get_pos_by_key(start, target_header.content_end, key, 255) {
            Ok(h) => h,
            Err(e) => {
                return Err(e);
            },
        };
        if target_header.depth == 255 {
            return Err(JrError::CorruptStructure);
        }
        let (data_type, mut bytes_data) = match data {
            crate::jrdb_type::JrAny::JrI64(v) => (3u8, crate::bytes::i64_be_vec(v.data)),
            crate::jrdb_type::JrAny::JrString(v) => (2u8, v.data.as_str().as_bytes_vec()),
            _ => {
                return Err(JrError::UnsupportedPatchType);
            },
        };
        let key_bytes = key.as_bytes_vec();
        if key_bytes.len() > 255 {
            return Err(JrError::CorruptStructure);
        }
        if bytes_data.len() as u64 > 0xFFFFFFFF - 266 {
            return Err(JrError::CorruptStructure);
        }
        let ghost blen = bytes_data@.len() as int;
        let mut attr_header = crate::jrdb_type::build_header_bytes(
            data_type,
            target_header.depth + 1,
            bytes_data.len() as u32,
            &key_bytes,
        );
        attr_header.append(&mut bytes_data);
        let alen = attr_header.len();
        proof {
            crate::bytes::lemma_be_bytes_len(
                crate::jrdb_type::spec_header_len(data_type) + key_bytes@.len() + blen,
                4,
            );
            assert(attr_header@ =~= spec_record(
                target_header.depth as int + 1,
                crate::jrdb_type::spec_tag(*data),
                encode_utf8(key@),
                0,
                crate::jrdb_type::spec_any_content(*data, target_header.depth as int + 1),
            ));
        }
        let old_len: usize = if header.found {
            header.content_end - header.header_start
        } else {
            0
        };
        let delta: i64 = alen as i64 - old_len as i64;
        let new_content_size_i: i64 = target_header.content_size as i64 + delta;
        if new_content_size_i < 0 || new_content_size_i > 0xFFFFFFFF {
            return Err(JrError::CorruptStructure);
        }
        let new_content_size = new_content_size_i as usize;
        let val: (usize, i64) = if header.found {
            let ghost pre = self.spec_data();
            self.append_data(header.header_start, header.content_end, &attr_header);
            let _image_len = self.data.len();
            proof {
                assert(self.spec_data().subrange(0, hs) =~= pre.subrange(0, hs));
            }
            (header.header_start + alen, delta)
        } else {
            let ghost pre = self.spec_data();
            self.append_data(target_header.content_end, target_header.content_end, &attr_header);
            proof {
                assert(self.spec_data().subrange(0, hs) =~= pre.subrange(0, hs));
            }
            (start, delta)
        };
        let ghost pre3 = self.spec_data();
        let _image_len = self.data.len();
        self.update_size(target_header.header_start, new_content_size);
        proof {
            crate::bytes::lemma_be_bytes_len(new_content_size as int, 4);
            assert(self.spec_data().subrange(0, hs) =~= pre3.subrange(0, hs));
        }
        target_header.content_size = new_content_size;
        target_header.content_end = target_header.header_start + new_content_size;
        Ok(val)
    }
}


/// The byte image and bookkeeping after writing one patch field into a
/// document record: the next search position and the document's new size
/// accompany the new image.
pub open spec fn spec_update_key(
    b: Seq<u8>,
    hs: int,
    doc_ce: int,
    doc_size: int,
    depth: u8,
    start: int,
    key: Seq<char>,
    val: JrAny,
) -> Result<(Seq<u8>, int, int), JrError> {
    match spec_find(b, start, doc_ce, key, 255) {
        FindV::BadHeader => Err(JrError::CorruptHeader),
        FindV::BadStruct => Err(JrError::CorruptStructure),
        found => {
            if depth == 255 {
                Err(JrError::CorruptStructure)
            } else {
                match val {
                    JrAny::JrDocument(_) => Err(JrError::UnsupportedPatchType),
                    JrAny::JrCollection(_) => Err(JrError::UnsupportedPatchType),
                    _ => {
                        let payload = crate::jrdb_type::spec_any_content(val, depth as int + 1);
                        let kb = encode_utf8(key);
                        if kb.len() > 255 {
                            Err(JrError::CorruptStructure)
                        } else if payload.len() > 0xFFFFFFFF - 266 {
                            Err(JrError::CorruptStructure)
                        } else {
                            let attr = spec_record(
                                depth as int + 1,
                                crate::jrdb_type::spec_tag(val),
                                kb,
                                0,
                                payload,
                            );
                            match found {
                                FindV::Found(fhs) => {
                                    let old_len = hd_content_end(b, fhs) - fhs;
                                    let newsize = doc_size + attr.len() - old_len;
                                    if newsize < 0 || newsize > 0xFFFFFFFF {
                                        Err(JrError::CorruptStructure)
                                    } else {
                                        Ok(
                                            (
                                                with_size(
                                                    spec_splice(b, fhs, fhs + old_len, attr),
                                                    hs,
                                                    newsize,
                                                ),
                                                fhs + attr.len(),
                                                newsize,
                                            ),
                                        )
                                    }
                                },
                                _ => {
                                    let newsize = doc_size + attr.len();
                                    if newsize > 0xFFFFFFFF {
                                        Err(JrError::CorruptStructure)
                                    } else {
                                        Ok(
                                            (
                                                with_size(inserted(b, doc_ce, attr), hs, newsize),
                                                start,
                                                newsize,
                                            ),
                                        )
                                    }
                                },
                            }
                        }
                    },
                }
            }
        },
    }
}


/// Replay the patching of one document: apply every field of `patch` in
/// order through [`spec_update_key`], threading the evolving image, the
/// search position and the document's size.
#[verifier::opaque]
pub open spec fn spec_patch_fields(
    b: Seq<u8>,
    hs: int,
    doc_size: int,
    depth: u8,
    start: int,
    patch: JrDocument,
    k: int,
) -> Result<(Seq<u8>, int, int), JrError>
    decreases patch.data@.len() - k,
{
    if k < 0 || k >= patch.data@.len() {
        Ok((b, start, doc_size))
    } else {
        match spec_update_key(
            b,
            hs,
            hs + doc_size,
            doc_size,
            depth,
            start,
            patch.data@[k].0@,
            patch.data@[k].1,
        ) {
            Ok((b2, next, newsize)) => spec_patch_fields(b2, hs, newsize, depth, next, patch, k + 1),
            Err(e) => Err(e),
        }
    }
}

/// Walk the documents of the collection content `[q, end)` under an update:
/// each document the condition accepts is patched in place per
/// [`spec_patch_fields`]; the image, the content end and the collection's
/// size evolve together.
#[verifier::opaque]
pub open spec fn spec_update_walk(
    b: Seq<u8>,
    q: int,
    end: int,
    csize: int,
    cond: JrCondition,
    patch: JrDocument,
) -> Result<(Seq<u8>, int, int), JrError>
    decreases end - q,
{
    if q == end {
        Ok((b, end, csize))
    } else if q > end || q < 0 {
        Err(JrError::CorruptStructure)
    } else if !hd_wf(b, q) {
        Err(JrError::CorruptHeader)
    } else if hd_content_end(b, q) > end {
        Err(JrError::CorruptStructure)
    } else {
        let base = spec_set_field(
            Seq::empty(),
            "_id"@,
            ValV::S(decode_utf8(hd_key_bytes(b, q))),
        );
        match spec_read_doc(b, hd_content_start(b, q), hd_content_end(b, q), base) {
            WalkV::Done(fields) => {
                if spec_cond_holds(cond, fields) {
                    match spec_patch_fields(
                        b,
                        q,
                        hd_size(b, q),
                        hd_depth(b, q),
                        hd_content_start(b, q),
                        patch,
                        0,
                    ) {
                        Ok((b2, next, dsz2)) => {
                            let di = dsz2 - hd_size(b, q);
                            let csize2 = csize + di;
                            if csize2 < 0 || csize2 > 0xFFFFFFFF {
                                Err(JrError::CorruptStructure)
                            } else {
                                spec_update_walk(b2, q + dsz2, end + di, csize2, cond, patch)
                            }
                        },
                        Err(e) => Err(e),
                    }
                } else {
                    spec_update_walk(b, hd_content_end(b, q), end, csize, cond, patch)
                }
            },
            WalkV::BadHeader => Err(JrError::CorruptHeader),
            WalkV::BadStruct => Err(JrError::CorruptStructure),
        }
    }
}


/// The byte image after deleting the matching documents of collection
/// `name`: the survivors of [`spec_delete_walk`] spliced over the
/// collection's content, with its and the root's size fields reduced.  A
/// missing collection leaves the image as it is.
pub open spec fn spec_delete(b: Seq<u8>, name: Seq<char>, cond: JrCondition) -> Result<
    Seq<u8>,
    JrError,
> {
    if !hd_wf(b, 0) {
        Err(JrError::CorruptHeader)
    } else {
        match spec_find(b, hd_content_start(b, 0), hd_content_end(b, 0), name, 1) {
            FindV::BadHeader => Err(JrError::CorruptHeader),
            FindV::BadStruct => Err(JrError::CorruptStructure),
            FindV::Missing => Ok(b),
            FindV::Found(c) => {
                let cs = hd_content_start(b, c);
                let ce = hd_content_end(b, c);
                match spec_delete_walk(b, cs, ce, cond) {
                    WalkV::Done(kept) => {
                        let deleted = (ce - cs) - kept.len();
                        if hd_size(b, 0) < deleted {
                            Err(JrError::CorruptStructure)
                        } else {
                            Ok(
                                with_size(
                                    with_size(
                                        spec_splice(b, cs, ce, kept),
                                        c,
                                        hd_size(b, c) - deleted,
                                    ),
                                    0,
                                    hd_size(b, 0) - deleted,
                                ),
                            )
                        }
                    },
                    WalkV::BadHeader => Err(JrError::CorruptHeader),
                    WalkV::BadStruct => Err(JrError::CorruptStructure),
                }
            },
        }
    }
}

/// The byte image after patching the matching documents of collection
/// `name` with `patch`: the walk of [`spec_update_walk`] with its and the
/// root's size fields rewritten.  A missing collection leaves the image as
/// it is.
pub open spec fn spec_update(
    b: Seq<u8>,
    name: Seq<char>,
    cond: JrCondition,
    patch: JrDocument,
) -> Result<Seq<u8>, JrError> {
    if !hd_wf(b, 0) {
        Err(JrError::CorruptHeader)
    } else {
        match spec_find(b, hd_content_start(b, 0), hd_content_end(b, 0), name, 1) {
            FindV::BadHeader => Err(JrError::CorruptHeader),
            FindV::BadStruct => Err(JrError::CorruptStructure),
            FindV::Missing => Ok(b),
            FindV::Found(c) => {
                let cs = hd_content_start(b, c);
                let ce = hd_content_end(b, c);
                match spec_update_walk(b, cs, ce, hd_size(b, c), cond, patch) {
                    Ok((b2, end2, csize2)) => {
                        let proot = hd_size(b, 0) + csize2 - hd_size(b, c);
                        if !(0 <= proot <= 0xFFFFFFFF) {
                            Err(JrError::CorruptStructure)
                        } else {
                            Ok(with_size(with_size(b2, c, csize2), 0, proot))
                        }
                    },
                    Err(e) => Err(e),
                }
            },
        }
    }
}

/// An exhausted patch leaves the image, position and size as they are.
proof fn lemma_patch_fields_base(
    b: Seq<u8>,
    hs: int,
    doc_size: int,
    depth: u8,
    start: int,
    patch: JrDocument,
    k: int,
)
    requires
        k >= patch.data@.len(),
    ensures
        spec_patch_fields(b, hs, doc_size, depth, start, patch, k) == Ok::<
            (Seq<u8>, int, int),
            JrError,
        >((b, start, doc_size)),
{
    reveal(spec_patch_fields);
}

/// One applied patch field advances the replay.
proof fn lemma_patch_fields_step(
    b: Seq<u8>,
    hs: int,
    doc_size: int,
    depth: u8,
    start: int,
    patch: JrDocument,
    k: int,
    b2: Seq<u8>,
    next: int,
    newsize: int,
)
    requires
        0 <= k < patch.data@.len(),
        spec_update_key(
            b,
            hs,
            hs + doc_size,
            doc_size,
            depth,
            start,
            patch.data@[k].0@,
            patch.data@[k].1,
        ) == Ok::<(Seq<u8>, int, int), JrError>((b2, next, newsize)),
    ensures
        spec_patch_fields(b, hs, doc_size, depth, start, patch, k) == spec_patch_fields(
            b2,
            hs,
            newsize,
            depth,
            next,
            patch,
            k + 1,
        ),
{
    reveal(spec_patch_fields);
}

/// A failing patch field fails the whole replay the same way.
proof fn lemma_patch_fields_step_err(
    b: Seq<u8>,
    hs: int,
    doc_size: int,
    depth: u8,
    start: int,
    patch: JrDocument,
    k: int,
    e: JrError,
)
    requires
        0 <= k < patch.data@.len(),
        spec_update_key(
            b,
            hs,
            hs + doc_size,
            doc_size,
            depth,
            start,
            patch.data@[k].0@,
            patch.data@[k].1,
        ) == Err::<(Seq<u8>, int, int), JrError>(e),
    ensures
        spec_patch_fields(b, hs, doc_size, depth, start, patch, k) == Err::<
            (Seq<u8>, int, int),
            JrError,
        >(e),
{
    reveal(spec_patch_fields);
}

/// The update walk of an empty range returns the image unchanged.
proof fn lemma_update_walk_base(b: Seq<u8>, end: int, csize: int, cond: JrCondition, patch: JrDocument)
    ensures
        spec_update_walk(b, end, end, csize, cond, patch) == Ok::<
            (Seq<u8>, int, int),
            JrError,
        >((b, end, csize)),
{
    reveal(spec_update_walk);
}

/// The corruption cases at the head of the update walk.
proof fn lemma_update_walk_head(
    b: Seq<u8>,
    q: int,
    end: int,
    csize: int,
    cond: JrCondition,
    patch: JrDocument,
)
    requires
        0 <= q < end,
    ensures
        !hd_wf(b, q) ==> spec_update_walk(b, q, end, csize, cond, patch) == Err::<
            (Seq<u8>, int, int),
            JrError,
        >(JrError::CorruptHeader),
        (hd_wf(b, q) && hd_content_end(b, q) > end) ==> spec_update_walk(
            b,
            q,
            end,
            csize,
            cond,
            patch,
        ) == Err::<(Seq<u8>, int, int), JrError>(JrError::CorruptStructure),
        (hd_wf(b, q) && hd_content_end(b, q) <= end) ==> ({
            let rd = spec_read_doc(
                b,
                hd_content_start(b, q),
                hd_content_end(b, q),
                spec_set_field(Seq::empty(), "_id"@, ValV::S(decode_utf8(hd_key_bytes(b, q)))),
            );
            &&& (rd is BadHeader ==> spec_update_walk(b, q, end, csize, cond, patch) == Err::<
                (Seq<u8>, int, int),
                JrError,
            >(JrError::CorruptHeader))
            &&& (rd is BadStruct ==> spec_update_walk(b, q, end, csize, cond, patch) == Err::<
                (Seq<u8>, int, int),
                JrError,
            >(JrError::CorruptStructure))
        }),
{
    reveal(spec_update_walk);
}

/// One matched step of the update walk: patching the document at `q` and
/// continuing equals the walk from `q`.
proof fn lemma_update_walk_matched(
    b: Seq<u8>,
    q: int,
    end: int,
    csize: int,
    cond: JrCondition,
    patch: JrDocument,
    fields: Seq<(Seq<char>, ValV)>,
    b2: Seq<u8>,
    next: int,
    dsz2: int,
)
    requires
        0 <= q < end,
        hd_wf(b, q),
        hd_content_end(b, q) <= end,
        spec_read_doc(
            b,
            hd_content_start(b, q),
            hd_content_end(b, q),
            spec_set_field(Seq::empty(), "_id"@, ValV::S(decode_utf8(hd_key_bytes(b, q)))),
        ) == WalkV::Done(fields),
        spec_cond_holds(cond, fields),
        spec_patch_fields(b, q, hd_size(b, q), hd_depth(b, q), hd_content_start(b, q), patch, 0)
            == Ok::<(Seq<u8>, int, int), JrError>((b2, next, dsz2)),
        0 <= csize + dsz2 - hd_size(b, q) <= 0xFFFFFFFF,
    ensures
        spec_update_walk(b, q, end, csize, cond, patch) == spec_update_walk(
            b2,
            q + dsz2,
            end + (dsz2 - hd_size(b, q)),
            csize + (dsz2 - hd_size(b, q)),
            cond,
            patch,
        ),
{
    reveal(spec_update_walk);
}

/// One skipped step of the update walk: a document the condition rejects is
/// passed over unchanged.
proof fn lemma_update_walk_skipped(
    b: Seq<u8>,
    q: int,
    end: int,
    csize: int,
    cond: JrCondition,
    patch: JrDocument,
    fields: Seq<(Seq<char>, ValV)>,
)
    requires
        0 <= q < end,
        hd_wf(b, q),
        hd_content_end(b, q) <= end,
        spec_read_doc(
            b,
            hd_content_start(b, q),
            hd_content_end(b, q),
            spec_set_field(Seq::empty(), "_id"@, ValV::S(decode_utf8(hd_key_bytes(b, q)))),
        ) == WalkV::Done(fields),
        !spec_cond_holds(cond, fields),
    ensures
        spec_update_walk(b, q, end, csize, cond, patch) == spec_update_walk(
            b,
            hd_content_end(b, q),
            end,
            csize,
            cond,
            patch,
        ),
{
    reveal(spec_update_walk);
}

/// A matched step whose patching or size bookkeeping fails makes the walk
/// from `q` fail the same way.
proof fn lemma_update_walk_matched_err(
    b: Seq<u8>,
    q: int,
    end: int,
    csize: int,
    cond: JrCondition,
    patch: JrDocument,
    fields: Seq<(Seq<char>, ValV)>,
)
    requires
        0 <= q < end,
        hd_wf(b, q),
        hd_content_end(b, q) <= end,
        spec_read_doc(
            b,
            hd_content_start(b, q),
            hd_content_end(b, q),
            spec_set_field(Seq::empty(), "_id"@, ValV::S(decode_utf8(hd_key_bytes(b, q)))),
        ) == WalkV::Done(fields),
        spec_cond_holds(cond, fields),
    ensures
        ({
            let pf = spec_patch_fields(
                b,
                q,
                hd_size(b, q),
                hd_depth(b, q),
                hd_content_start(b, q),
                patch,
                0,
            );
            match pf {
                Ok((b2, next, dsz2)) => !(0 <= csize + dsz2 - hd_size(b, q) <= 0xFFFFFFFF)
                    ==> spec_update_walk(b, q, end, csize, cond, patch) == Err::<
                    (Seq<u8>, int, int),
                    JrError,
                >(JrError::CorruptStructure),
                Err(e) => spec_update_walk(b, q, end, csize, cond, patch) == Err::<
                    (Seq<u8>, int, int),
                    JrError,
                >(e),
            }
        }),
{
    reveal(spec_update_walk);
}

impl Database {
    /// Patch every document of the collection `target` that `condition`
    /// accepts with the fields of `doc`, splicing replacement field records
    /// in place, then rewrite the collection's and the root's size fields.
    #[verifier::loop_isolation(false)]
    #[verifier::rlimit(100)]
    #[verifier::spinoff_prover]
    fn update_with_condition(
        &mut self,
        _from: &str,
        parent: &mut HeaderDetail,
        target: &mut HeaderDetail,
        condition: &JrCondition,
        doc: &JrDocument,
    ) -> (r: Result<(), JrError>)
        requires
            old(target).found,
            old(target).header_start + 11 <= old(target).content_start,
            old(target).content_start <= old(target).content_end <= old(self).spec_data().len(),
            old(target).content_end == old(target).header_start + old(target).content_size,
            old(target).content_size <= 0xFFFFFFFF,
            old(parent).header_start == 0,
            old(parent).header_start + 7 <= old(target).header_start,
            old(parent).content_size <= 0xFFFFFFFF,
        ensures
            final(self).file_name == old(self).file_name,
            final(self).actions == old(self).actions,
            r is Ok ==> final(self).spec_data().subrange(
                old(target).header_start as int + 7,
                old(target).header_start as int + 11,
            ) == old(self).spec_data().subrange(
                old(target).header_start as int + 7,
                old(target).header_start as int + 11,
            ),
            r is Ok ==> be_val(final(self).spec_data().subrange(3, 7)) + old(
                self,
            ).spec_data().len() == old(parent).content_size + final(self).spec_data().len(),
            ({
                let walk = spec_update_walk(
                    old(self).spec_data(),
                    old(target).content_start as int,
                    old(target).content_end as int,
                    old(target).content_size as int,
                    *condition,
                    *doc,
                );
                match r {
                    Ok(_) => match walk {
                        Ok((b2, end2, csize2)) => 0 <= old(parent).content_size + csize2 - old(
                            target,
                        ).content_size <= 0xFFFFFFFF && final(self).spec_data() == with_size(
                            with_size(b2, old(target).header_start as int, csize2),
                            0,
                            old(parent).content_size + csize2 - old(target).content_size,
                        ),
                        Err(_) => false,
                    },
                    Err(e) => match walk {
                        Ok((b2, end2, csize2)) => e is CorruptStructure && !(0 <= old(
                            parent,
                        ).content_size + csize2 - old(target).content_size <= 0xFFFFFFFF),
                        Err(e2) => e == e2,
                    },
                }
            }),
    {
        let ghost b0 = self.spec_data();
        let ghost hs_t = target.header_start as int;
        let ghost cs_t = target.content_start as int;
        let ghost ce_t0 = target.content_end as int;
        let ghost cs0 = target.content_size as int;
        let cs0_x: usize = target.content_size;
        let mut curr = target.content_start;
        let mut cend = target.content_end;
        let mut csize = target.content_size;
        proof {
            crate::jrdb_type::lemma_doc_fields(*doc, 0);
        }
        let n = doc.field_count();
        while curr != cend
            invariant
                csize <= 0xFFFFFFFF,
                self.spec_data().len() + cs0 == b0.len() + csize,
                cend + cs0 == ce_t0 + csize,
                cs_t <= curr as int,
                curr <= cend,
                cend <= self.spec_data().len(),
                self.spec_data().subrange(0, cs_t) == b0.subrange(0, cs_t),
                spec_update_walk(b0, cs_t, ce_t0, cs0, *condition, *doc) == spec_update_walk(
                    self.spec_data(),
                    curr as int,
                    cend as int,
                    csize as int,
                    *condition,
                    *doc,
                ),
                self.file_name == old(self).file_name,
                self.actions == old(self).actions,
                n == doc.data@.len(),
            decreases cend as int - curr as int,
        {
            let ghost bentry = self.spec_data();
            let ghost centry = cend as int;
            let ghost csentry = csize as int;
            proof {
                lemma_update_walk_head(
                    bentry,
                    curr as int,
                    centry,
                    csentry,
                    *condition,
                    *doc,
                );
            }
            let mut dh = match self.get_header_detail_by_pos(curr) {
                Ok(h) => h,
                Err(_) => {
                    return Err(JrError::CorruptHeader);
                },
            };
            if dh.content_end > cend {
                return Err(JrError::CorruptStructure);
            }
            let jr_doc = match self.read_document(&dh) {
                Ok(d) => d,
                Err(e) => {
                    return Err(e);
                },
            };
            if condition.result(&jr_doc) {
                let dh0size: usize = dh.content_size;
                let ghost dcs_entry = dh.content_start as int;
                let ghost ddepth = dh.depth;
                proof {
                    assert(hd_size(bentry, curr as int) == dh0size);
                    assert(hd_depth(bentry, curr as int) == ddepth);
                    assert(hd_content_start(bentry, curr as int) == dcs_entry);
                }
                let mut start_pos = dh.content_start;
                let mut k: usize = 0;
                proof {
                    assert(spec_patch_fields(
                        bentry,
                        curr as int,
                        dh0size as int,
                        dh.depth,
                        dcs_entry,
                        *doc,
                        0,
                    ) == spec_patch_fields(
                        self.spec_data(),
                        curr as int,
                        dh.content_size as int,
                        dh.depth,
                        start_pos as int,
                        *doc,
                        0,
                    ));
                }
                while k < n
                    invariant
                        k <= n,
                        n == doc.data@.len(),
                        dh.header_start == curr,
                        dh.content_end == dh.header_start + dh.content_size,
                        dh.content_size <= 0xFFFFFFFF,
                        dh.content_end <= self.spec_data().len(),
                        dh.content_start <= dh.content_end,
                        dh.header_start + 7 <= dh.content_start,
                        dh.depth == ddepth,
                        start_pos >= dh.content_start,
                        self.spec_data().len() + dh0size == bentry.len() + dh.content_size,
                        self.spec_data().subrange(0, curr as int) == bentry.subrange(
                            0,
                            curr as int,
                        ),
                        spec_patch_fields(
                            bentry,
                            curr as int,
                            dh0size as int,
                            dh.depth,
                            dcs_entry,
                            *doc,
                            0,
                        ) == spec_patch_fields(
                            self.spec_data(),
                            curr as int,
                            dh.content_size as int,
                            dh.depth,
                            start_pos as int,
                            *doc,
                            k as int,
                        ),
                        self.file_name == old(self).file_name,
                        self.actions == old(self).actions,
                    decreases n - k,
                {
                    let ghost bk = self.spec_data();
                    let ghost size_k = dh.content_size as int;
                    let ghost start_k = start_pos as int;
                    let pair = doc.loop_key(k);
                    let res = self.update_key_by_pos(pair.0.as_str(), pair.1, start_pos, &mut dh);
                    match res {
                        Ok(v) => {
                            proof {
                                lemma_patch_fields_step(
                                    bk,
                                    curr as int,
                                    size_k,
                                    dh.depth,
                                    start_k,
                                    *doc,
                                    k as int,
                                    self.spec_data(),
                                    v.0 as int,
                                    dh.content_size as int,
                                );
                            }
                            start_pos = v.0;
                        },
                        Err(e) => {
                            proof {
                                lemma_patch_fields_step_err(
                                    bk,
                                    curr as int,
                                    size_k,
                                    dh.depth,
                                    start_k,
                                    *doc,
                                    k as int,
                                    e,
                                );
                                lemma_update_walk_matched_err(
                                    bentry,
                                    curr as int,
                                    centry,
                                    csentry,
                                    *condition,
                                    *doc,
                                    jr_doc@,
                                );
                            }
                            return Err(e);
                        },
                    }
                    k = k + 1;
                }
                proof {
                    lemma_patch_fields_base(
                        self.spec_data(),
                        curr as int,
                        dh.content_size as int,
                        dh.depth,
                        start_pos as int,
                        *doc,
                        n as int,
                    );
                }
                let di: i128 = dh.content_size as i128 - dh0size as i128;
                let csize_i: i128 = csize as i128 + di;
                if csize_i < 0 || csize_i > 0xFFFFFFFF {
                    proof {
                        lemma_update_walk_matched_err(
                            bentry,
                            curr as int,
                            centry,
                            csentry,
                            *condition,
                            *doc,
                            jr_doc@,
                        );
                    }
                    return Err(JrError::CorruptStructure);
                }
                let grown_len = self.data.len();
                let cend_i: i128 = cend as i128 + di;
                proof {
                    assert(self.spec_data().len() + dh0size == bentry.len() + dh.content_size);
                    assert(grown_len as int == bentry.len() + di);
                    assert(cend <= bentry.len());
                    assert(cend_i <= grown_len as i128);
                    assert(curr + dh0size <= centry);
                    assert(cend_i >= dh.content_end);
                }
                csize = csize_i as usize;
                cend = cend_i as usize;
                proof {
                    assert(self.spec_data().subrange(0, cs_t) =~= b0.subrange(0, cs_t));
                    lemma_update_walk_matched(
                        bentry,
                        curr as int,
                        centry,
                        csentry,
                        *condition,
                        *doc,
                        jr_doc@,
                        self.spec_data(),
                        start_pos as int,
                        dh.content_size as int,
                    );
                }
            } else {
                proof {
                    lemma_update_walk_skipped(
                        bentry,
                        curr as int,
                        centry,
                        csentry,
                        *condition,
                        *doc,
                        jr_doc@,
                    );
                }
            }
            curr = dh.content_end;
        }
        proof {
            lemma_update_walk_base(self.spec_data(), cend as int, csize as int, *condition, *doc);
            assert(spec_update_walk(b0, cs_t, ce_t0, cs0, *condition, *doc) == Ok::<
                (Seq<u8>, int, int),
                JrError,
            >((self.spec_data(), cend as int, csize as int)));
        }
        let ghost pre1 = self.spec_data();
        let di_total: i128 = csize as i128 - cs0_x as i128;
        let proot_i: i128 = parent.content_size as i128 + di_total;
        if proot_i < 0 || proot_i > 0xFFFFFFFF {
            return Err(JrError::CorruptStructure);
        }
        self.update_size(target.header_start, csize);
        proof {
            crate::bytes::lemma_be_bytes_len(csize as int, 4);
            assert(self.spec_data().subrange(hs_t + 7, hs_t + 11) =~= pre1.subrange(
                hs_t + 7,
                hs_t + 11,
            ));
        }
        target.content_size = csize;
        target.content_end = cend;
        let ghost pre2 = self.spec_data();
        self.update_size(parent.header_start, proot_i as usize);
        proof {
            crate::bytes::lemma_be_bytes_len(proot_i as int, 4);
            assert(self.spec_data().subrange(hs_t + 7, hs_t + 11) =~= pre2.subrange(
                hs_t + 7,
                hs_t + 11,
            ));
            assert forall|i: int| hs_t + 7 <= i < hs_t + 11 implies pre1[i] == b0[i] by {
                assert(pre1.subrange(0, cs_t)[i] == b0.subrange(0, cs_t)[i]);
            }
            assert(pre1.subrange(hs_t + 7, hs_t + 11) =~= b0.subrange(hs_t + 7, hs_t + 11));
            assert(self.spec_data().subrange(3, 7) =~= be_bytes(proot_i as int, 4));
            reveal_with_fuel(crate::bytes::pow256, 5);
            crate::bytes::lemma_be_round_trip(proot_i as int, 4);
        }
        parent.content_size = proot_i as usize;
        Ok(())
    }


    /// Apply one staged update: patch the matching documents of the named
    /// collection.  A missing collection leaves the image untouched.
    fn update_action(&mut self, action: &Action) -> (r: Result<(), JrError>)
        requires
            action.data@.len() >= 1,
        ensures
            final(self).file_name == old(self).file_name,
            final(self).actions == old(self).actions,
            (r is Ok && hd_size(old(self).spec_data(), 0) == old(self).spec_data().len())
                ==> hd_size(final(self).spec_data(), 0) == final(self).spec_data().len(),
            match r {
                Ok(_) => spec_update(
                    old(self).spec_data(),
                    action.from@,
                    action.condition,
                    action.data@[0],
                ) == Ok::<Seq<u8>, JrError>(final(self).spec_data()),
                Err(e) => spec_update(
                    old(self).spec_data(),
                    action.from@,
                    action.condition,
                    action.data@[0],
                ) == Err::<Seq<u8>, JrError>(e),
            },
            r is Ok ==> ({
                let b = old(self).spec_data();
                !hd_wf(b, 0) || match spec_find(
                    b,
                    hd_content_start(b, 0),
                    hd_content_end(b, 0),
                    action.from@,
                    1,
                ) {
                    FindV::Found(c) => final(self).spec_data().subrange(c + 7, c + 11)
                        == b.subrange(c + 7, c + 11),
                    FindV::Missing => final(self).spec_data() == b,
                    _ => true,
                }
            }),
    {
        let mut header_detail = match self.get_header_detail_by_pos(0) {
            Ok(h) => h,
            Err(e) => {
                return Err(e);
            },
        };
        let mut collection_header = match self.get_pos_by_key(
            header_detail.content_start,
            header_detail.content_end,
            action.from.as_str(),
            1,
        ) {
            Ok(h) => h,
            Err(e) => {
                return Err(e);
            },
        };
        if !collection_header.found {
            return Ok(());
        }
        proof {
            lemma_be_val_bound(
                self.spec_data().subrange(
                    collection_header.header_start as int + 3,
                    collection_header.header_start as int + 7,
                ),
            );
            lemma_be_val_bound(self.spec_data().subrange(3, 7));
            reveal_with_fuel(crate::bytes::pow256, 5);
            assert(crate::bytes::pow256(4nat) == 0x100000000);
        }
        self.update_with_condition(
            action.from.as_str(),
            &mut header_detail,
            &mut collection_header,
            &action.condition,
            &action.data[0],
        )
    }

    /// Stage an insert of `doc` into the collection `from`, with the
    /// identity-true condition.
    pub fn insert(&mut self, from: &str, doc: JrDocument)
        ensures
            final(self).spec_data() == old(self).spec_data(),
            final(self).spec_name() == old(self).spec_name(),
            final(self).spec_actions().len() == old(self).spec_actions().len() + 1,
            final(self).spec_actions().subrange(0, old(self).spec_actions().len() as int) == old(
                self,
            ).spec_actions(),
            ({
                let a = final(self).spec_actions().last();
                &&& a.action_type is Insert
                &&& a.from@ == from@
                &&& spec_true_cond(a.condition)
                &&& a.data@.len() == 1
                &&& a.data@[0] == doc
            }),
            old(self).wf() ==> final(self).wf(),
    {
        let mut docs: Vec<JrDocument> = Vec::new();
        docs.push(doc);
        let action = Action {
            action_type: ActionType::Insert,
            from: from.to_owned(),
            condition: cond_true(),
            data: docs,
        };
        self.actions.push(action);
        proof {
            assert(final(self).spec_actions().subrange(0, old(self).spec_actions().len() as int)
                =~= old(self).spec_actions());
        }
    }

    /// Stage a select of the collection `from`, with the identity-true
    /// condition.
    pub fn select(&mut self, from: &str)
        ensures
            final(self).spec_data() == old(self).spec_data(),
            final(self).spec_name() == old(self).spec_name(),
            final(self).spec_actions().len() == old(self).spec_actions().len() + 1,
            final(self).spec_actions().subrange(0, old(self).spec_actions().len() as int) == old(
                self,
            ).spec_actions(),
            ({
                let a = final(self).spec_actions().last();
                &&& a.action_type is Select
                &&& a.from@ == from@
                &&& spec_true_cond(a.condition)
            }),
            old(self).wf() ==> final(self).wf(),
    {
        let action = Action {
            action_type: ActionType::Select,
            from: from.to_owned(),
            condition: cond_true(),
            data: Vec::new(),
        };
        self.actions.push(action);
        proof {
            assert(final(self).spec_actions().subrange(0, old(self).spec_actions().len() as int)
                =~= old(self).spec_actions());
        }
    }

    /// Stage an update of the collection `from` with the patch `doc`, with
    /// the identity-true condition.
    pub fn update(&mut self, from: &str, doc: JrDocument)
        ensures
            final(self).spec_data() == old(self).spec_data(),
            final(self).spec_name() == old(self).spec_name(),
            final(self).spec_actions().len() == old(self).spec_actions().len() + 1,
            final(self).spec_actions().subrange(0, old(self).spec_actions().len() as int) == old(
                self,
            ).spec_actions(),
            ({
                let a = final(self).spec_actions().last();
                &&& a.action_type is Update
                &&& a.from@ == from@
                &&& spec_true_cond(a.condition)
                &&& a.data@.len() == 1
                &&& a.data@[0] == doc
            }),
            old(self).wf() ==> final(self).wf(),
    {
        let mut docs: Vec<JrDocument> = Vec::new();
        docs.push(doc);
        let action = Action {
            action_type: ActionType::Update,
            from: from.to_owned(),
            condition: cond_true(),
            data: docs,
        };
        self.actions.push(action);
        proof {
            assert(final(self).spec_actions().subrange(0, old(self).spec_actions().len() as int)
                =~= old(self).spec_actions());
        }
    }

    /// Stage a delete from the collection `from`, with the identity-true
    /// condition.
    pub fn delete(&mut self, from: &str)
        ensures
            final(self).spec_data() == old(self).spec_data(),
            final(self).spec_name() == old(self).spec_name(),
            final(self).spec_actions().len() == old(self).spec_actions().len() + 1,
            final(self).spec_actions().subrange(0, old(self).spec_actions().len() as int) == old(
                self,
            ).spec_actions(),
            ({
                let a = final(self).spec_actions().last();
                &&& a.action_type is Delete
                &&& a.from@ == from@
                &&& spec_true_cond(a.condition)
            }),
            old(self).wf() ==> final(self).wf(),
    {
        let action = Action {
            action_type: ActionType::Delete,
            from: from.to_owned(),
            condition: cond_true(),
            data: Vec::new(),
        };
        self.actions.push(action);
        proof {
            assert(final(self).spec_actions().subrange(0, old(self).spec_actions().len() as int)
                =~= old(self).spec_actions());
        }
    }

    /// Attach `cond` to the most recently staged action, replacing its
    /// default.
    pub fn condition(&mut self, cond: JrCondition)
        requires
            old(self).spec_actions().len() > 0,
        ensures
            final(self).spec_data() == old(self).spec_data(),
            final(self).spec_name() == old(self).spec_name(),
            final(self).spec_actions().len() == old(self).spec_actions().len(),
            final(self).spec_actions().subrange(
                0,
                old(self).spec_actions().len() as int - 1,
            ) == old(self).spec_actions().subrange(0, old(self).spec_actions().len() as int - 1),
            ({
                let a = final(self).spec_actions().last();
                let b = old(self).spec_actions().last();
                &&& a.action_type == b.action_type
                &&& a.from == b.from
                &&& a.data == b.data
                &&& a.condition == cond
            }),
            old(self).wf() ==> final(self).wf(),
    {
        let mut a = match self.actions.pop() {
            Some(a) => a,
            None => {
                proof {
                    assert(false);
                }
                return ;
            },
        };
        a.condition = cond;
        self.actions.push(a);
        proof {
            assert(final(self).spec_actions().subrange(
                0,
                old(self).spec_actions().len() as int - 1,
            ) =~= old(self).spec_actions().subrange(
                0,
                old(self).spec_actions().len() as int - 1,
            ));
        }
    }

}

/// The effect of one staged action on the byte image, together with the
/// rows a select produces.
pub open spec fn spec_apply(b: Seq<u8>, a: Action) -> Result<
    (Seq<u8>, Option<Seq<Seq<(Seq<char>, ValV)>>>),
    JrError,
> {
    match a.action_type {
        ActionType::Insert => match spec_insert(b, a.from@, a.data@[0]) {
            Ok(b2) => Ok((b2, None)),
            Err(e) => Err(e),
        },
        ActionType::Select => match spec_select(b, a.from@, a.condition) {
            WalkV::Done(rows) => Ok((b, Some(rows))),
            WalkV::BadHeader => Err(JrError::CorruptHeader),
            WalkV::BadStruct => Err(JrError::CorruptStructure),
        },
        ActionType::Update => match spec_update(b, a.from@, a.condition, a.data@[0]) {
            Ok(b2) => Ok((b2, None)),
            Err(e) => Err(e),
        },
        ActionType::Delete => match spec_delete(b, a.from@, a.condition) {
            Ok(b2) => Ok((b2, None)),
            Err(e) => Err(e),
        },
    }
}

/// Fold the staged actions over the byte image in queue order: the image
/// evolves through every action's effect, `last` carries the most recent
/// select's rows, and the first failing action's error stops the run.
pub open spec fn spec_execute(
    b: Seq<u8>,
    acts: Seq<Action>,
    i: int,
    last: Seq<Seq<(Seq<char>, ValV)>>,
) -> Result<(Seq<u8>, Seq<Seq<(Seq<char>, ValV)>>), JrError>
    decreases acts.len() - i,
{
    if i < 0 || i >= acts.len() {
        Ok((b, last))
    } else {
        match spec_apply(b, acts[i]) {
            Ok((b2, opt)) => spec_execute(
                b2,
                acts,
                i + 1,
                match opt {
                    Some(rows) => rows,
                    None => last,
                },
            ),
            Err(e) => Err(e),
        }
    }
}

impl Database {
    /// Run the staged actions in order against the byte image, clear the
    /// queue, and return the last select's result.  A corruption error
    /// stops the run; the image then holds the effects of the actions that
    /// completed.
    #[verifier::rlimit(100)]
    #[verifier::spinoff_prover]
    pub fn execute(&mut self) -> (r: Result<JrCollection, JrError>)
        requires
            old(self).wf(),
        ensures
            final(self).spec_name() == old(self).spec_name(),
            final(self).spec_actions().len() == 0,
            final(self).wf(),
            match r {
                Ok(col) => spec_execute(
                    old(self).spec_data(),
                    old(self).spec_actions(),
                    0,
                    Seq::empty(),
                ) == Ok::<(Seq<u8>, Seq<Seq<(Seq<char>, ValV)>>), JrError>(
                    (final(self).spec_data(), col@),
                ),
                Err(e) => spec_execute(
                    old(self).spec_data(),
                    old(self).spec_actions(),
                    0,
                    Seq::empty(),
                ) == Err::<(Seq<u8>, Seq<Seq<(Seq<char>, ValV)>>), JrError>(e),
            },
            (r is Ok && crate::header::hd_size(old(self).spec_data(), 0) == old(
                self,
            ).spec_data().len()) ==> crate::header::hd_size(final(self).spec_data(), 0)
                == final(self).spec_data().len(),
    {
        let ghost acts0 = self.spec_actions();
        let mut actions: Vec<Action> = Vec::new();
        core::mem::swap(&mut actions, &mut self.actions);
        let mut data = JrCollection::new();
        let mut i: usize = 0;
        let n = actions.len();
        proof {
            assert(data@ =~= Seq::<Seq<(Seq<char>, ValV)>>::empty());
        }
        while i < n
            invariant
                n == actions@.len(),
                actions@ == acts0,
                acts0 == old(self).spec_actions(),
                i <= n,
                old(self).wf(),
                self.actions@.len() == 0,
                self.file_name == old(self).file_name,
                spec_execute(old(self).spec_data(), acts0, 0, Seq::empty()) == spec_execute(
                    self.spec_data(),
                    acts0,
                    i as int,
                    data@,
                ),
                crate::header::hd_size(old(self).spec_data(), 0) == old(
                    self,
                ).spec_data().len() ==> crate::header::hd_size(self.spec_data(), 0)
                    == self.spec_data().len(),
            decreases n - i,
        {
            let action = &actions[i];
            proof {
                assert(action_ok(acts0[i as int]));
            }
            match action.action_type {
                ActionType::Insert => {
                    match self.insert_action(action) {
                        Ok(_) => {},
                        Err(e) => {
                            return Err(e);
                        },
                    }
                },
                ActionType::Select => {
                    match self.select_action(action) {
                        Ok(col) => {
                            data = col;
                        },
                        Err(e) => {
                            return Err(e);
                        },
                    }
                },
                ActionType::Update => {
                    match self.update_action(action) {
                        Ok(_) => {},
                        Err(e) => {
                            return Err(e);
                        },
                    }
                },
                ActionType::Delete => {
                    match self.delete_action(action) {
                        Ok(_) => {},
                        Err(e) => {
                            return Err(e);
                        },
                    }
                },
            }
            i = i + 1;
        }
        Ok(data)
    }
}


/// The identity-true condition: an equality between two empty quoted string
/// literals, which holds of every document.
pub fn cond_true() -> (r: JrCondition)
    ensures
        spec_true_cond(r),
{
    let left = "''".to_owned();
    let right = "''".to_owned();
    proof {
        reveal_strlit("''");
        assert(("''")@ =~= seq!['\'', '\'']);
    }
    JrCondition::new_exp(ConditionType::Eq, Vec::new(), (left, right))
}

} // verus!
