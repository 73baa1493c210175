//! Objects (blobs, trees and commits), their canonical bytes
//! `"<type> <size>\0<body>"`, decoding, and compression.

use vstd::prelude::*;
use vstd::utf8::*;
use crate::bytes::{all_digits, decimal, digits_value, octal, parse_digits, push_all, push_decimal, push_octal};
use crate::commit::{CommitObject, CommitView, commit_bytes, parse_commit};
use crate::hash::digest_of;
use crate::text::{find, find_byte, utf8_text};

verus! {

/// A zlib stream of `data` at compression level `level`, as miniz_oxide
/// writes it.
pub uninterp spec fn zlib_of(data: Seq<u8>, level: u8) -> Seq<u8>;

/// What inflating the zlib stream `data` yields, if it is one.
pub uninterp spec fn zlib_inflated(data: Seq<u8>) -> Option<Seq<u8>>;

/// The first `limit` bytes of what the zlib stream `data` inflates to, read
/// incrementally.
pub uninterp spec fn zlib_inflated_prefix(data: Seq<u8>, limit: u64) -> Option<Seq<u8>>;

/// Relies on miniz_oxide::deflate::compress_to_vec_zlib: the data
/// compressed into a zlib stream at the given level.
#[verifier::external_body]
fn zlib_compress(data: &[u8], level: u8) -> (r: Vec<u8>)
    ensures
        r@ == zlib_of(data@, level),
{
    miniz_oxide::deflate::compress_to_vec_zlib(data, level)
}

/// Relies on miniz_oxide::inflate::decompress_to_vec_zlib: it inflates a
/// zlib stream, so a stream that compress_to_vec_zlib made gives back its
/// data.
#[verifier::external_body]
fn zlib_decompress(data: &[u8]) -> (r: Option<Vec<u8>>)
    ensures
        match r {
            Some(v) => zlib_inflated(data@) == Some(v@),
            None => zlib_inflated(data@) is None,
        },
        forall|d: Seq<u8>, level: u8|
            data@ == #[trigger] zlib_of(d, level) ==> r is Some && r->0@ == d,
{
    miniz_oxide::inflate::decompress_to_vec_zlib(data).ok()
}

/// Relies on flate2::read::ZlibDecoder read through std::io::Read::take: it
/// inflates the stream incrementally and stops after `limit` bytes, so on a
/// stream that compress_to_vec_zlib made it gives the start of its data.
#[verifier::external_body]
fn zlib_prefix(data: &[u8], limit: u64) -> (r: Option<Vec<u8>>)
    ensures
        match r {
            Some(v) => zlib_inflated_prefix(data@, limit) == Some(v@),
            None => zlib_inflated_prefix(data@, limit) is None,
        },
        forall|d: Seq<u8>, level: u8|
            data@ == #[trigger] zlib_of(d, level) ==> r is Some && r->0@ == d.take(
                if d.len() < limit {
                    d.len() as int
                } else {
                    limit as int
                },
            ),
{
    let mut out = Vec::new();
    let mut reader = std::io::Read::take(flate2::read::ZlibDecoder::new(data), limit);
    match std::io::Read::read_to_end(&mut reader, &mut out) {
        Ok(_) => Some(out),
        Err(_) => None,
    }
}

/// The level at which objects are compressed.
pub const COMPRESSION_LEVEL: u8 = 1;

#[derive(Clone, Copy, PartialEq, Eq, Structural, Debug)]
pub enum ObjectType {
    Blob,
    Tree,
    Commit,
}

/// The name of a type, as it stands in a header.
pub open spec fn type_text(t: ObjectType) -> Seq<char> {
    match t {
        ObjectType::Blob => seq!['b', 'l', 'o', 'b'],
        ObjectType::Tree => seq!['t', 'r', 'e', 'e'],
        ObjectType::Commit => seq!['c', 'o', 'm', 'm', 'i', 't'],
    }
}

/// The ASCII bytes of a type's name.
pub open spec fn type_bytes(t: ObjectType) -> Seq<u8> {
    type_text(t).map_values(|c: char| c as u8)
}

/// The type whose name is `s`.
pub open spec fn type_of(s: Seq<u8>) -> Option<ObjectType> {
    if s == type_bytes(ObjectType::Blob) {
        Some(ObjectType::Blob)
    } else if s == type_bytes(ObjectType::Tree) {
        Some(ObjectType::Tree)
    } else if s == type_bytes(ObjectType::Commit) {
        Some(ObjectType::Commit)
    } else {
        None
    }
}

impl ObjectType {
    /// The name of the type.
    pub fn to_str(&self) -> (r: &str)
        ensures
            r@ == type_text(*self),
    {
        match self {
            ObjectType::Blob => {
                proof {
                    reveal_strlit("blob");
                }
                "blob"
            },
            ObjectType::Tree => {
                proof {
                    reveal_strlit("tree");
                }
                "tree"
            },
            ObjectType::Commit => {
                proof {
                    reveal_strlit("commit");
                }
                "commit"
            },
        }
    }

    fn push_name(&self, out: &mut Vec<u8>)
        ensures
            final(out)@ == old(out)@ + type_bytes(*self),
    {
        match self {
            ObjectType::Blob => {
                out.push(98);
                out.push(108);
                out.push(111);
                out.push(98);
            },
            ObjectType::Tree => {
                out.push(116);
                out.push(114);
                out.push(101);
                out.push(101);
            },
            ObjectType::Commit => {
                out.push(99);
                out.push(111);
                out.push(109);
                out.push(109);
                out.push(105);
                out.push(116);
            },
        }
        proof {
            assert(final(out)@ =~= old(out)@ + type_bytes(*self));
        }
    }

    /// The type named by `s[from..to]`.
    fn from_bytes(s: &[u8], from: usize, to: usize) -> (r: Option<ObjectType>)
        requires
            from <= to <= s@.len(),
        ensures
            r == type_of(s@.subrange(from as int, to as int)),
    {
        let ghost t = s@.subrange(from as int, to as int);
        let n = to - from;
        proof {
            assert(type_bytes(ObjectType::Blob) =~= seq![98u8, 108, 111, 98]);
            assert(type_bytes(ObjectType::Tree) =~= seq![116u8, 114, 101, 101]);
            assert(type_bytes(ObjectType::Commit) =~= seq![99u8, 111, 109, 109, 105, 116]);
        }
        if n == 4 && s[from] == 98 && s[from + 1] == 108 && s[from + 2] == 111 && s[from + 3]
            == 98 {
            proof {
                assert(t =~= type_bytes(ObjectType::Blob));
            }
            Some(ObjectType::Blob)
        } else if n == 4 && s[from] == 116 && s[from + 1] == 114 && s[from + 2] == 101 && s[from
            + 3] == 101 {
            proof {
                assert(t =~= type_bytes(ObjectType::Tree));
            }
            Some(ObjectType::Tree)
        } else if n == 6 && s[from] == 99 && s[from + 1] == 111 && s[from + 2] == 109 && s[from
            + 3] == 109 && s[from + 4] == 105 && s[from + 5] == 116 {
            proof {
                assert(t =~= type_bytes(ObjectType::Commit));
            }
            Some(ObjectType::Commit)
        } else {
            proof {
                if n == 4 {
                    assert(t[0] == s@[from as int] && t[1] == s@[from + 1] && t[2] == s@[from
                        + 2] && t[3] == s@[from + 3]);
                }
                if n == 6 {
                    assert(t[0] == s@[from as int] && t[1] == s@[from + 1] && t[2] == s@[from
                        + 2] && t[3] == s@[from + 3] && t[4] == s@[from + 4] && t[5] == s@[from
                        + 5]);
                }
            }
            None
        }
    }
}

/// One named child of a tree: a file mode, a name and the child's hash.
pub struct TreeEntry {
    pub filename: String,
    pub mode: u32,
    pub hash: crate::hash::Hash,
}

pub ghost struct TreeEntryView {
    pub filename: Seq<char>,
    pub mode: u32,
    pub hash: Seq<u8>,
}

impl View for TreeEntry {
    type V = TreeEntryView;

    open spec fn view(&self) -> TreeEntryView {
        TreeEntryView { filename: self.filename@, mode: self.mode, hash: self.hash@ }
    }
}

/// The record of one tree entry: octal mode, a space, the name, a NUL, and
/// the twenty hash bytes.
#[verifier::opaque]
pub open spec fn entry_bytes(e: TreeEntryView) -> Seq<u8> {
    octal(e.mode as nat) + seq![32u8] + encode_utf8(e.filename) + seq![0u8] + e.hash
}

/// The body of a tree: its entries' records one after another.
pub open spec fn tree_body(es: Seq<TreeEntryView>) -> Seq<u8>
    decreases es.len(),
{
    if es.len() == 0 {
        Seq::empty()
    } else {
        tree_body(es.drop_last()) + entry_bytes(es.last())
    }
}

/// The entries whose records fill `s[from..to]`: each an octal mode of five
/// or six digits, a space, a UTF-8 name up to a NUL, and twenty hash bytes.
pub open spec fn parse_tree(s: Seq<u8>, from: int, to: int) -> Option<Seq<TreeEntryView>>
    decreases to - from
    via parse_tree_decreases
{
    if from >= to {
        Some(Seq::empty())
    } else {
        let sp = find(s, 32, from, to);
        let nul = find(s, 0, sp + 1, to);
        let mode = s.subrange(from, sp);
        let name = s.subrange(sp + 1, nul);
        if sp < to && nul < to && nul + 21 <= to && 5 <= sp - from <= 6 && all_digits(mode, 8)
            && valid_utf8(name) {
            match parse_tree(s, nul + 21, to) {
                Some(rest) => Some(
                    seq![
                        TreeEntryView {
                            filename: decode_utf8(name),
                            mode: digits_value(mode, 8) as u32,
                            hash: s.subrange(nul + 1, nul + 21),
                        },
                    ] + rest,
                ),
                None => None,
            }
        } else {
            None
        }
    }
}

#[via_fn]
proof fn parse_tree_decreases(s: Seq<u8>, from: int, to: int) {
    crate::text::lemma_find_ge(s, 32, from, to);
    crate::text::lemma_find_ge(s, 0, find(s, 32, from, to) + 1, to);
}

impl TreeEntry {
    pub fn new(filename: String, mode: u32, hash: crate::hash::Hash) -> (r: TreeEntry)
        ensures
            r@ == (TreeEntryView { filename: filename@, mode, hash: hash@ }),
    {
        TreeEntry { filename, mode, hash }
    }

    /// The entry's record in a tree body.
    pub fn store(&self) -> (r: Vec<u8>)
        ensures
            r@ == entry_bytes(self@),
    {
        let mut out: Vec<u8> = Vec::new();
        self.push_record(&mut out);
        out
    }

    fn push_record(&self, out: &mut Vec<u8>)
        ensures
            final(out)@ == old(out)@ + entry_bytes(self@),
    {
        push_octal(out, self.mode);
        out.push(32);
        push_all(out, self.filename.as_str().as_bytes());
        out.push(0);
        push_all(out, self.hash.as_bytes());
        proof {
            reveal(entry_bytes);
            assert(final(out)@ =~= old(out)@ + entry_bytes(self@));
        }
    }

    /// A copy of the entry.
    pub fn copy(&self) -> (r: TreeEntry)
        ensures
            r@ == self@,
    {
        TreeEntry { filename: self.filename.clone(), mode: self.mode, hash: self.hash.copy() }
    }
}

pub enum Object {
    Blob(Vec<u8>),
    Tree(Vec<TreeEntry>),
    Commit(CommitObject),
}

pub ghost enum ObjectView {
    Blob(Seq<u8>),
    Tree(Seq<TreeEntryView>),
    Commit(CommitView),
}

impl View for Object {
    type V = ObjectView;

    open spec fn view(&self) -> ObjectView {
        match self {
            Object::Blob(b) => ObjectView::Blob(b@),
            Object::Tree(es) => ObjectView::Tree(es@.map_values(|e: TreeEntry| e@)),
            Object::Commit(c) => ObjectView::Commit(c@),
        }
    }
}

pub open spec fn kind(o: ObjectView) -> ObjectType {
    match o {
        ObjectView::Blob(_) => ObjectType::Blob,
        ObjectView::Tree(_) => ObjectType::Tree,
        ObjectView::Commit(_) => ObjectType::Commit,
    }
}

pub open spec fn body(o: ObjectView) -> Seq<u8> {
    match o {
        ObjectView::Blob(b) => b,
        ObjectView::Tree(es) => tree_body(es),
        ObjectView::Commit(c) => commit_bytes(c),
    }
}

/// The header `"<type> <size>"`, without its NUL.
pub open spec fn header_bytes(t: ObjectType, size: nat) -> Seq<u8> {
    type_bytes(t) + seq![32u8] + decimal(size)
}

/// The canonical bytes of an object, `"<type> <size>\0<body>"`; its hash is
/// their digest.
pub open spec fn canonical(o: ObjectView) -> Seq<u8> {
    header_bytes(kind(o), body(o).len()) + seq![0u8] + body(o)
}

#[derive(Clone, Copy, PartialEq, Eq, Structural, Debug)]
pub enum ObjectError {
    /// The header has no NUL after it, or is not two space-separated words.
    MalformedHeader,
    /// The header names no known type.
    BadObjectType,
    /// The header's size is not a number.
    BadSize,
    /// The header's size is not the length of the body.
    SizeMismatch,
    /// The tree body does not split into entry records.
    MalformedTree,
    /// The commit body is not a valid commit text.
    MalformedCommit,
    /// The bytes are not a zlib stream.
    Decompression,
}

/// What the header text `s[from..to]` states.
pub open spec fn header_of(s: Seq<u8>, from: int, to: int) -> Result<(ObjectType, nat), ObjectError> {
    let sp = find(s, 32, from, to);
    let size = s.subrange(sp + 1, to);
    if sp >= to || find(s, 32, sp + 1, to) < to {
        Err(ObjectError::MalformedHeader)
    } else if type_of(s.subrange(from, sp)) is None {
        Err(ObjectError::BadObjectType)
    } else if size.len() == 0 || !all_digits(size, 10) || digits_value(size, 10) > usize::MAX {
        Err(ObjectError::BadSize)
    } else {
        Ok((type_of(s.subrange(from, sp))->0, digits_value(size, 10)))
    }
}

/// The object whose canonical bytes are `s`, or why there is none.
pub open spec fn decode(s: Seq<u8>) -> Result<ObjectView, ObjectError> {
    let z = find(s, 0, 0, s.len() as int);
    let content = s.subrange(z + 1, s.len() as int);
    if z >= s.len() {
        Err(ObjectError::MalformedHeader)
    } else {
        match header_of(s, 0, z) {
            Err(e) => Err(e),
            Ok((t, size)) => if size != content.len() {
                Err(ObjectError::SizeMismatch)
            } else {
                match t {
                    ObjectType::Blob => Ok(ObjectView::Blob(content)),
                    ObjectType::Tree => match parse_tree(s, z + 1, s.len() as int) {
                        Some(es) => Ok(ObjectView::Tree(es)),
                        None => Err(ObjectError::MalformedTree),
                    },
                    ObjectType::Commit => match parse_commit(content) {
                        Some(c) => Ok(ObjectView::Commit(c)),
                        None => Err(ObjectError::MalformedCommit),
                    },
                }
            },
        }
    }
}

/// The type and size that a header states.
#[derive(Clone, Copy, PartialEq, Eq, Structural, Debug)]
pub struct ObjectHeader {
    pub tipe: ObjectType,
    /// Size of the body, in bytes.
    pub size: usize,
}

/// How many inflated bytes are read in search of the header's end: more
/// than the longest valid header.
pub const HEADER_READ_LIMIT: u64 = 64;

/// The header at the start of the object whose zlib stream is `file`.
pub open spec fn file_header(file: Seq<u8>) -> Result<ObjectHeader, ObjectError> {
    match zlib_inflated_prefix(file, HEADER_READ_LIMIT) {
        None => Err(ObjectError::Decompression),
        Some(p) => {
            let z = find(p, 0, 0, p.len() as int);
            if z >= p.len() {
                Err(ObjectError::MalformedHeader)
            } else {
                match header_of(p, 0, z) {
                    Err(e) => Err(e),
                    Ok((t, size)) => Ok(ObjectHeader { tipe: t, size: size as usize }),
                }
            }
        },
    }
}

impl ObjectHeader {
    /// Reads the header text `s[from..to]`, e.g. `blob 1234`.
    fn from_bytes(s: &[u8], from: usize, to: usize) -> (r: Result<ObjectHeader, ObjectError>)
        requires
            from <= to <= s@.len(),
        ensures
            match header_of(s@, from as int, to as int) {
                Err(e) => r == Err::<ObjectHeader, ObjectError>(e),
                Ok((t, size)) => r == Ok::<ObjectHeader, ObjectError>(
                    ObjectHeader { tipe: t, size: size as usize },
                ),
            },
    {
        let sp = find_byte(s, 32, from, to);
        if sp >= to || find_byte(s, 32, sp + 1, to) < to {
            return Err(ObjectError::MalformedHeader);
        }
        let tipe = match ObjectType::from_bytes(s, from, sp) {
            Some(t) => t,
            None => return Err(ObjectError::BadObjectType),
        };
        match parse_digits(s, sp + 1, to, 10) {
            Some(v) => {
                if v > usize::MAX as u64 {
                    Err(ObjectError::BadSize)
                } else {
                    Ok(ObjectHeader { tipe, size: v as usize })
                }
            },
            None => Err(ObjectError::BadSize),
        }
    }

    /// Reads the header of the object whose zlib stream is `file`, inflating
    /// only the start of the stream.
    pub fn extract_from_file(file: &[u8]) -> (r: Result<ObjectHeader, ObjectError>)
        ensures
            r == file_header(file@),
            forall|d: Seq<u8>, level: u8|
                file@ == #[trigger] zlib_of(d, level) ==> zlib_inflated_prefix(file@, HEADER_READ_LIMIT)
                    == Some(d.take(if d.len() < HEADER_READ_LIMIT { d.len() as int } else { HEADER_READ_LIMIT as int })),
    {
        let prefix = match zlib_prefix(file, HEADER_READ_LIMIT) {
            Some(p) => p,
            None => return Err(ObjectError::Decompression),
        };
        let z = find_byte(prefix.as_slice(), 0, 0, prefix.len());
        if z >= prefix.len() {
            return Err(ObjectError::MalformedHeader);
        }
        ObjectHeader::from_bytes(prefix.as_slice(), 0, z)
    }
}

fn parse_tree_entries(s: &[u8], from: usize) -> (r: Option<Vec<TreeEntry>>)
    requires
        from <= s@.len(),
    ensures
        match parse_tree(s@, from as int, s@.len() as int) {
            Some(es) => r is Some && r->0@.map_values(|e: TreeEntry| e@) == es,
            None => r is None,
        },
{
    let mut entries: Vec<TreeEntry> = Vec::new();
    let mut pos = from;
    let ghost n = s@.len() as int;
    while pos < s.len()
        invariant
            from <= pos <= s@.len(),
            n == s@.len(),
            match parse_tree(s@, from as int, n) {
                Some(es) => parse_tree(s@, pos as int, n) is Some && es == entries@.map_values(
                    |e: TreeEntry| e@,
                ) + parse_tree(s@, pos as int, n)->0,
                None => parse_tree(s@, pos as int, n) is None,
            },
        decreases s@.len() - pos,
    {
        let to = s.len();
        let sp = find_byte(s, 32, pos, to);
        if sp >= to {
            return None;
        }
        let nul = find_byte(s, 0, sp + 1, to);
        if nul >= to || to - nul < 21 || sp - pos < 5 || sp - pos > 6 {
            return None;
        }
        proof {
            if all_digits(s@.subrange(pos as int, sp as int), 8) {
                crate::bytes::lemma_digits_len_bound(s@.subrange(pos as int, sp as int), 8);
            }
        }
        let mode = match parse_digits(s, pos, sp, 8) {
            Some(m) => m,
            None => return None,
        };
        let filename = match utf8_text(s, sp + 1, nul) {
            Some(f) => f,
            None => return None,
        };
        let mut hash_bytes: Vec<u8> = Vec::new();
        push_range(&mut hash_bytes, s, nul + 1, nul + 21);
        let hash = crate::hash::Hash::from_digest(hash_bytes);
        proof {
            assert(digits_value(s@.subrange(pos as int, sp as int), 8) < 262144) by {
                crate::bytes::lemma_digits_len_bound(s@.subrange(pos as int, sp as int), 8);
            }
        }
        let entry = TreeEntry { filename, mode: mode as u32, hash };
        let ghost before = entries@.map_values(|e: TreeEntry| e@);
        entries.push(entry);
        proof {
            assert(entries@.map_values(|e: TreeEntry| e@) =~= before.push(entry@));
            match parse_tree(s@, from as int, n) {
                Some(es) => {
                    let rest = parse_tree(s@, (nul + 21) as int, n)->0;
                    assert(es =~= entries@.map_values(|e: TreeEntry| e@) + rest);
                },
                None => {},
            }
        }
        pos = nul + 21;
    }
    proof {
        assert(entries@.map_values(|e: TreeEntry| e@) + Seq::<TreeEntryView>::empty()
            =~= entries@.map_values(|e: TreeEntry| e@));
    }
    Some(entries)
}

fn push_range(out: &mut Vec<u8>, s: &[u8], from: usize, to: usize)
    requires
        from <= to <= s@.len(),
    ensures
        final(out)@ == old(out)@ + s@.subrange(from as int, to as int),
{
    let mut i = from;
    while i < to
        invariant
            from <= i <= to <= s@.len(),
            out@ == old(out)@ + s@.subrange(from as int, i as int),
        decreases to - i,
    {
        out.push(s[i]);
        i = i + 1;
        proof {
            assert(out@ =~= old(out)@ + s@.subrange(from as int, i as int));
        }
    }
}

impl Object {
    /// The object's body.
    fn body(&self) -> (r: Vec<u8>)
        ensures
            r@ == body(self@),
    {
        match self {
            Object::Blob(b) => b.clone(),
            Object::Tree(entries) => {
                let mut out: Vec<u8> = Vec::new();
                let mut i: usize = 0;
                while i < entries.len()
                    invariant
                        0 <= i <= entries@.len(),
                        out@ == tree_body(entries@.map_values(|e: TreeEntry| e@).subrange(0, i as int)),
                    decreases entries@.len() - i,
                {
                    entries[i].push_record(&mut out);
                    proof {
                        let es = entries@.map_values(|e: TreeEntry| e@);
                        assert(es.subrange(0, i as int + 1).drop_last() =~= es.subrange(0, i as int));
                    }
                    i = i + 1;
                }
                proof {
                    let es = entries@.map_values(|e: TreeEntry| e@);
                    assert(es.subrange(0, i as int) =~= es);
                }
                out
            },
            Object::Commit(c) => c.to_bytes(),
        }
    }

    /// The type of the object.
    pub fn kind(&self) -> (r: ObjectType)
        ensures
            r == kind(self@),
    {
        match self {
            Object::Blob(_) => ObjectType::Blob,
            Object::Tree(_) => ObjectType::Tree,
            Object::Commit(_) => ObjectType::Commit,
        }
    }

    /// The canonical bytes `"<type> <size>\0<body>"`.
    pub fn store(&self) -> (r: Vec<u8>)
        ensures
            r@ == canonical(self@),
    {
        let b = self.body();
        let mut out: Vec<u8> = Vec::new();
        self.kind().push_name(&mut out);
        out.push(32);
        push_decimal(&mut out, b.len() as u64);
        out.push(0);
        push_all(&mut out, b.as_slice());
        proof {
            assert(out@ =~= canonical(self@));
        }
        out
    }

    /// The hash of the object: the digest of its canonical bytes.
    pub fn hash(&self) -> (r: crate::hash::Hash)
        ensures
            r@ == digest_of(canonical(self@)),
    {
        let bytes = self.store();
        crate::hash::Hash::digest(bytes.as_slice())
    }

    /// The stored form: the canonical bytes, compressed.
    pub fn compressed(&self) -> (r: Vec<u8>)
        ensures
            r@ == zlib_of(canonical(self@), COMPRESSION_LEVEL),
    {
        let bytes = self.store();
        zlib_compress(bytes.as_slice(), COMPRESSION_LEVEL)
    }

    /// Decodes canonical bytes.
    fn unstore(s: &[u8]) -> (r: Result<Object, ObjectError>)
        ensures
            match decode(s@) {
                Ok(o) => r is Ok && r->Ok_0@ == o,
                Err(e) => r == Err::<Object, ObjectError>(e),
            },
    {
        let z = find_byte(s, 0, 0, s.len());
        if z >= s.len() {
            return Err(ObjectError::MalformedHeader);
        }
        let header = match ObjectHeader::from_bytes(s, 0, z) {
            Ok(h) => h,
            Err(e) => return Err(e),
        };
        if header.size != s.len() - z - 1 {
            return Err(ObjectError::SizeMismatch);
        }
        match header.tipe {
            ObjectType::Blob => {
                let mut content: Vec<u8> = Vec::new();
                push_range(&mut content, s, z + 1, s.len());
                proof {
                    assert(content@ =~= s@.subrange(z + 1, s@.len() as int));
                }
                Ok(Object::Blob(content))
            },
            ObjectType::Tree => match parse_tree_entries(s, z + 1) {
                Some(entries) => Ok(Object::Tree(entries)),
                None => Err(ObjectError::MalformedTree),
            },
            ObjectType::Commit => {
                let mut content: Vec<u8> = Vec::new();
                push_range(&mut content, s, z + 1, s.len());
                proof {
                    assert(content@ =~= s@.subrange(z + 1, s@.len() as int));
                }
                match CommitObject::from_bytes(content.as_slice()) {
                    Ok(c) => Ok(Object::Commit(c)),
                    Err(_) => Err(ObjectError::MalformedCommit),
                }
            },
        }
    }

    /// Inflates a stored object and decodes its canonical bytes.
    pub fn from_compressed_bytes(bytes: &[u8]) -> (r: Result<Object, ObjectError>)
        ensures
            forall|d: Seq<u8>, level: u8|
                bytes@ == #[trigger] zlib_of(d, level) ==> zlib_inflated(bytes@) == Some(d),
            match zlib_inflated(bytes@) {
                None => r == Err::<Object, ObjectError>(ObjectError::Decompression),
                Some(s) => match decode(s) {
                    Ok(o) => r is Ok && r->Ok_0@ == o,
                    Err(e) => r == Err::<Object, ObjectError>(e),
                },
            },
    {
        match zlib_decompress(bytes) {
            Some(s) => Object::unstore(s.as_slice()),
            None => Err(ObjectError::Decompression),
        }
    }
}

/// The octal text of a mode, right-aligned in six columns.
pub open spec fn octal_column(m: u32) -> Seq<u8> {
    let o = octal(m as nat);
    if o.len() < 6 {
        Seq::new((6 - o.len()) as nat, |i: int| 32u8) + o
    } else {
        o
    }
}

/// One line of a tree listing: mode, type, hash and name.
pub open spec fn tree_line(e: TreeEntryView, t: ObjectType) -> Seq<u8> {
    octal_column(e.mode) + seq![32u8] + type_bytes(t) + seq![32u8] + crate::commit::hex_text(e.hash)
        + seq![9u8] + encode_utf8(e.filename) + seq![10u8]
}

pub open spec fn tree_listing(es: Seq<TreeEntryView>, ts: Seq<ObjectType>) -> Seq<u8>
    decreases es.len(),
{
    if es.len() == 0 || ts.len() < es.len() {
        Seq::empty()
    } else {
        tree_listing(es.drop_last(), ts.subrange(0, es.len() - 1)) + tree_line(es.last(), ts[es.len() - 1])
    }
}

/// What showing an object prints: a blob's content, a line per tree entry
/// (with the type of the entry's object, `ts[i]` for the `i`-th), or a
/// commit's text.
pub open spec fn pretty(o: ObjectView, ts: Seq<ObjectType>) -> Seq<u8> {
    match o {
        ObjectView::Blob(b) => b,
        ObjectView::Tree(es) => tree_listing(es, ts),
        ObjectView::Commit(c) => commit_bytes(c),
    }
}

fn push_octal_column(out: &mut Vec<u8>, m: u32)
    ensures
        final(out)@ == old(out)@ + octal_column(m),
{
    let mut digits: Vec<u8> = Vec::new();
    push_octal(&mut digits, m);
    let ghost before = out@;
    let mut k = digits.len();
    while k < 6
        invariant
            digits@ == octal(m as nat),
            digits@.len() <= k <= 6 || (k == digits@.len() && k >= 6),
            out@ == before + Seq::new((k - digits@.len()) as nat, |i: int| 32u8),
        decreases 6 - k,
    {
        out.push(32);
        k = k + 1;
        proof {
            assert(out@ =~= before + Seq::new((k - digits@.len()) as nat, |i: int| 32u8));
        }
    }
    push_all(out, digits.as_slice());
    proof {
        if digits@.len() >= 6 {
            assert(Seq::new((k - digits@.len()) as nat, |i: int| 32u8) =~= Seq::<u8>::empty());
        }
        assert(final(out)@ =~= old(out)@ + octal_column(m));
    }
}

fn push_tree_line(out: &mut Vec<u8>, e: &TreeEntry, t: ObjectType)
    ensures
        final(out)@ == old(out)@ + tree_line(e@, t),
{
    push_octal_column(out, e.mode);
    out.push(32);
    t.push_name(out);
    out.push(32);
    push_all(out, e.hash.as_str().as_bytes());
    out.push(9);
    push_all(out, e.filename.as_str().as_bytes());
    out.push(10);
    proof {
        assert(final(out)@ =~= old(out)@ + tree_line(e@, t));
    }
}

impl Object {
    /// What showing the object prints; `entry_types[i]` is the type of the
    /// object that the `i`-th entry of a tree names.
    pub fn pretty_print(&self, entry_types: &Vec<ObjectType>) -> (r: Vec<u8>)
        requires
            match self@ {
                ObjectView::Tree(es) => entry_types@.len() == es.len(),
                _ => true,
            },
        ensures
            r@ == pretty(self@, entry_types@),
    {
        match self {
            Object::Blob(b) => b.clone(),
            Object::Tree(entries) => {
                let ghost es = entries@.map_values(|e: TreeEntry| e@);
                let mut out: Vec<u8> = Vec::new();
                let mut i: usize = 0;
                while i < entries.len()
                    invariant
                        0 <= i <= entries@.len(),
                        entry_types@.len() == entries@.len(),
                        es == entries@.map_values(|e: TreeEntry| e@),
                        out@ == tree_listing(es.subrange(0, i as int), entry_types@.subrange(0, i as int)),
                    decreases entries@.len() - i,
                {
                    let ghost before = out@;
                    push_tree_line(&mut out, &entries[i], entry_types[i]);
                    proof {
                        let p = es.subrange(0, i + 1);
                        let q = entry_types@.subrange(0, i + 1);
                        assert(p.drop_last() =~= es.subrange(0, i as int));
                        assert(q.subrange(0, i as int) =~= entry_types@.subrange(0, i as int));
                        assert(out@ =~= before + tree_line(es[i as int], entry_types@[i as int]));
                    }
                    i = i + 1;
                }
                proof {
                    assert(es.subrange(0, i as int) =~= es);
                    assert(entry_types@.subrange(0, i as int) =~= entry_types@);
                }
                out
            },
            Object::Commit(c) => c.to_bytes(),
        }
    }
}

/// A tree entry that reads back as written: a mode of five or six octal
/// digits, a name without NUL, and a twenty-byte hash.
pub open spec fn valid_tree_entry(e: TreeEntryView) -> bool {
    &&& 4096 <= e.mode < 262144
    &&& crate::text::no_char(e.filename, 0)
    &&& e.hash.len() == 20
}

/// An object that reads back as written: a blob, a tree of valid entries or
/// a valid commit, whose body length fits in a `usize`.
pub open spec fn valid_object(o: ObjectView) -> bool {
    &&& body(o).len() <= usize::MAX
    &&& match o {
        ObjectView::Blob(_) => true,
        ObjectView::Tree(es) => forall|i: int| 0 <= i < es.len() ==> valid_tree_entry(#[trigger] es[i]),
        ObjectView::Commit(c) => crate::commit::valid_commit(c),
    }
}

proof fn lemma_digits_free(x: Seq<u8>, base: nat)
    requires
        all_digits(x, base),
        base <= 10,
    ensures
        crate::text::no_byte(x, 32),
        crate::text::no_byte(x, 0),
{
    assert forall|i: int| 0 <= i < x.len() implies #[trigger] x[i] != 32 && x[i] != 0 by {
        assert(crate::bytes::is_digit(x[i], base));
    }
}

proof fn lemma_type_bytes(t: ObjectType)
    ensures
        type_of(type_bytes(t)) == Some(t),
        crate::text::no_byte(type_bytes(t), 32),
        crate::text::no_byte(type_bytes(t), 0),
        type_bytes(t).len() >= 4,
{
    assert(type_bytes(ObjectType::Blob) =~= seq![98u8, 108, 111, 98]);
    assert(type_bytes(ObjectType::Tree) =~= seq![116u8, 114, 101, 101]);
    assert(type_bytes(ObjectType::Commit) =~= seq![99u8, 111, 109, 109, 105, 116]);
}

proof fn lemma_subrange_of(s: Seq<u8>, p: int, r: Seq<u8>, a: int, b: int)
    requires
        0 <= p,
        p + r.len() <= s.len(),
        s.subrange(p, p + r.len()) == r,
        0 <= a <= b <= r.len(),
    ensures
        s.subrange(p + a, p + b) == r.subrange(a, b),
{
    assert(s.subrange(p + a, p + b) =~= r.subrange(a, b)) by {
        assert forall|t: int| 0 <= t < b - a implies s.subrange(p + a, p + b)[t] == r.subrange(a, b)[t] by {
            assert(s.subrange(p, p + r.len())[a + t] == s[p + a + t]);
        }
    }
}

proof fn lemma_entry_layout(e: TreeEntryView)
    ensures
        ({
            let m = octal(e.mode as nat).len() as int;
            let k = encode_utf8(e.filename).len() as int;
            &&& entry_bytes(e).len() == m + 2 + k + e.hash.len()
            &&& entry_bytes(e).subrange(0, m) == octal(e.mode as nat)
            &&& entry_bytes(e)[m] == 32
            &&& entry_bytes(e).subrange(m + 1, m + 1 + k) == encode_utf8(e.filename)
            &&& entry_bytes(e)[m + 1 + k] == 0
            &&& entry_bytes(e).subrange(m + 2 + k, m + 2 + k + e.hash.len()) == e.hash
        }),
{
    reveal(entry_bytes);
    let m = octal(e.mode as nat).len() as int;
    let k = encode_utf8(e.filename).len() as int;
    let r = entry_bytes(e);
    assert(r.subrange(0, m) =~= octal(e.mode as nat));
    assert(r.subrange(m + 1, m + 1 + k) =~= encode_utf8(e.filename));
    assert(r.subrange(m + 2 + k, m + 2 + k + e.hash.len()) =~= e.hash);
}

/// Reading the record of a valid tree entry gives the entry back.
proof fn lemma_parse_tree_entry(s: Seq<u8>, p: int, to: int, e: TreeEntryView)
    requires
        0 <= p,
        p + entry_bytes(e).len() <= to <= s.len(),
        s.subrange(p, p + entry_bytes(e).len()) == entry_bytes(e),
        valid_tree_entry(e),
    ensures
        ({
            let sp = find(s, 32, p, to);
            let nul = find(s, 0, sp + 1, to);
            &&& sp < to && nul < to && nul + 21 <= to && 5 <= sp - p <= 6
            &&& all_digits(s.subrange(p, sp), 8)
            &&& valid_utf8(s.subrange(sp + 1, nul))
            &&& decode_utf8(s.subrange(sp + 1, nul)) == e.filename
            &&& digits_value(s.subrange(p, sp), 8) as u32 == e.mode
            &&& s.subrange(nul + 1, nul + 21) == e.hash
            &&& nul + 21 == p + entry_bytes(e).len()
        }),
{
    let r = entry_bytes(e);
    let o = octal(e.mode as nat);
    let name = encode_utf8(e.filename);
    let m = o.len() as int;
    let k = name.len() as int;
    lemma_entry_layout(e);
    crate::bytes::lemma_octal(e.mode as nat);
    crate::bytes::lemma_octal_len(e.mode as nat);
    lemma_digits_free(o, 8);
    lemma_subrange_of(s, p, r, 0, m);
    assert(s[p + m] == 32) by {
        assert(s.subrange(p, p + r.len())[m] == s[p + m]);
    }
    crate::text::lemma_find_after(s, 32, p, to, o);
    lemma_subrange_of(s, p, r, m + 1, m + 1 + k);
    assert(s[p + m + 1 + k] == 0) by {
        assert(s.subrange(p, p + r.len())[m + 1 + k] == s[p + m + 1 + k]);
    }
    crate::text::lemma_utf8_no_byte(e.filename, 0);
    crate::text::lemma_find_after(s, 0, p + m + 1, to, name);
    lemma_subrange_of(s, p, r, m + 2 + k, m + 2 + k + 20);
    vstd::utf8::encode_utf8_valid_utf8(e.filename);
    vstd::utf8::encode_utf8_decode_utf8(e.filename);
}

pub proof fn lemma_tree_body_cons(e: TreeEntryView, rest: Seq<TreeEntryView>)
    ensures
        tree_body(seq![e] + rest) == entry_bytes(e) + tree_body(rest),
    decreases rest.len(),
{
    let x = seq![e] + rest;
    if rest.len() == 0 {
        assert(x.drop_last() =~= Seq::<TreeEntryView>::empty());
        assert(x.last() == e);
        assert(tree_body(Seq::<TreeEntryView>::empty()) == Seq::<u8>::empty());
        assert(tree_body(x) == tree_body(x.drop_last()) + entry_bytes(e));
        assert(tree_body(x) =~= entry_bytes(e) + tree_body(rest));
    } else {
        lemma_tree_body_cons(e, rest.drop_last());
        assert(x.drop_last() =~= seq![e] + rest.drop_last());
        assert(tree_body(x) =~= entry_bytes(e) + tree_body(rest));
    }
}

proof fn lemma_parse_tree_body(s: Seq<u8>, p: int, to: int, es: Seq<TreeEntryView>)
    requires
        0 <= p,
        to <= s.len(),
        p + tree_body(es).len() == to,
        s.subrange(p, to) == tree_body(es),
        forall|i: int| 0 <= i < es.len() ==> valid_tree_entry(#[trigger] es[i]),
    ensures
        parse_tree(s, p, to) == Some(es),
    decreases es.len(),
{
    if es.len() == 0 {
    } else {
        let e = es[0];
        let rest = es.drop_first();
        assert(es =~= seq![e] + rest);
        lemma_tree_body_cons(e, rest);
        let r = entry_bytes(e);
        lemma_subrange_of(s, p, tree_body(es), 0, r.len() as int);
        assert(tree_body(es).subrange(0, r.len() as int) =~= r);
        lemma_parse_tree_entry(s, p, to, e);
        lemma_subrange_of(s, p, tree_body(es), r.len() as int, tree_body(es).len() as int);
        assert(tree_body(es).subrange(r.len() as int, tree_body(es).len() as int) =~= tree_body(rest));
        assert forall|i: int| 0 <= i < rest.len() implies valid_tree_entry(#[trigger] rest[i]) by {
            assert(rest[i] == es[i + 1]);
        }
        lemma_parse_tree_body(s, p + r.len(), to, rest);
        let sp = find(s, 32, p, to);
        let nul = find(s, 0, sp + 1, to);
        assert(parse_tree(s, p, to) == Some(seq![e] + rest)) by {
            assert(TreeEntryView {
                filename: decode_utf8(s.subrange(sp + 1, nul)),
                mode: digits_value(s.subrange(p, sp), 8) as u32,
                hash: s.subrange(nul + 1, nul + 21),
            } == e);
        }
    }
}

/// Decoding the canonical bytes of a valid object gives the object back; the
/// stored form is these bytes compressed, and `from_compressed_bytes`
/// inflates them first.
pub proof fn lemma_round_trip(o: ObjectView)
    requires
        valid_object(o),
    ensures
        decode(canonical(o)) == Ok::<ObjectView, ObjectError>(o),
{
    let t = kind(o);
    let b = body(o);
    let tb = type_bytes(t);
    let d = decimal(b.len());
    let h = header_bytes(t, b.len());
    let s = canonical(o);
    let n = s.len() as int;
    lemma_type_bytes(t);
    crate::bytes::lemma_decimal(b.len());
    lemma_digits_free(d, 10);
    let z = h.len() as int;
    assert(s.subrange(0, z) =~= h);
    assert(crate::text::no_byte(h, 0)) by {
        assert forall|i: int| 0 <= i < h.len() implies #[trigger] h[i] != 0 by {
            if i < tb.len() {
                assert(h[i] == tb[i]);
            } else if i > tb.len() {
                assert(h[i] == d[i - tb.len() - 1]);
            }
        }
    }
    crate::text::lemma_find_after(s, 0, 0, n, h);
    assert(s.subrange(0, tb.len() as int) =~= tb);
    crate::text::lemma_find_after(s, 32, 0, z, tb);
    let sp = tb.len() as int;
    assert(s.subrange(sp + 1, z) =~= d);
    crate::text::lemma_find_none(s, 32, sp + 1, z);
    assert(s.subrange(z + 1, n) =~= b);
    match o {
        ObjectView::Tree(es) => {
            lemma_parse_tree_body(s, z + 1, n, es);
        },
        ObjectView::Commit(c) => {
            crate::commit::lemma_commit_round_trip(c);
        },
        _ => {},
    }
}

/// Blobs have the same canonical bytes exactly when they have the same
/// content, and then the same hash.
pub proof fn lemma_content_addressing(b1: Seq<u8>, b2: Seq<u8>)
    requires
        b1.len() <= usize::MAX,
        b2.len() <= usize::MAX,
    ensures
        (canonical(ObjectView::Blob(b1)) == canonical(ObjectView::Blob(b2))) <==> (b1 == b2),
        canonical(ObjectView::Blob(b1)) == canonical(ObjectView::Blob(b2)) ==> digest_of(
            canonical(ObjectView::Blob(b1)),
        ) == digest_of(canonical(ObjectView::Blob(b2))),
{
    lemma_round_trip(ObjectView::Blob(b1));
    lemma_round_trip(ObjectView::Blob(b2));
}

/// Storing the same object twice writes the same bytes to the same path.
pub proof fn lemma_idempotent_write(o1: ObjectView, o2: ObjectView)
    requires
        o1 == o2,
    ensures
        zlib_of(canonical(o1), COMPRESSION_LEVEL) == zlib_of(canonical(o2), COMPRESSION_LEVEL),
        crate::hash::shard_path(crate::hash::hex_chars(digest_of(canonical(o1))))
            == crate::hash::shard_path(crate::hash::hex_chars(digest_of(canonical(o2)))),
{
}

} // verus!
