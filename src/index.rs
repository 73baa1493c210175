//! The index: the staging area, an ordered map from repository-relative
//! paths to file metadata, with its binary form and trailing checksum.

use vstd::prelude::*;
use vstd::utf8::*;
use crate::bytes::{be16, be16_at, be32, be32_at, push_all, push_be16, push_be32, read_be16, read_be32};
use crate::hash::digest_of;
use crate::text::{find, find_byte, utf8_text};

verus! {

/// A path relative to the repository's root, without a leading slash.
pub struct RepoRelativeFilename(pub String);

impl RepoRelativeFilename {
    /// A copy of the path.
    pub fn copy(&self) -> (r: RepoRelativeFilename)
        ensures
            r.0@ == self.0@,
    {
        RepoRelativeFilename(self.0.clone())
    }
}

/// What the index records of one file.
pub struct IndexEntry {
    /// Metadata change time: seconds and nanoseconds.
    pub metadata_change_time: (u32, u32),
    /// Data change time: seconds and nanoseconds.
    pub data_change_time: (u32, u32),
    pub device: u32,
    pub inode: u32,
    pub mode: u32,
    pub uid: u32,
    pub gid: u32,
    pub size: u32,
    pub hash: crate::hash::Hash,
    pub assume_valid: bool,
    pub file_name: RepoRelativeFilename,
}

pub ghost struct IndexEntryView {
    pub ctime: (u32, u32),
    pub mtime: (u32, u32),
    pub device: u32,
    pub inode: u32,
    pub mode: u32,
    pub uid: u32,
    pub gid: u32,
    pub size: u32,
    pub hash: Seq<u8>,
    pub assume_valid: bool,
    pub name: Seq<char>,
}

impl View for IndexEntry {
    type V = IndexEntryView;

    open spec fn view(&self) -> IndexEntryView {
        IndexEntryView {
            ctime: self.metadata_change_time,
            mtime: self.data_change_time,
            device: self.device,
            inode: self.inode,
            mode: self.mode,
            uid: self.uid,
            gid: self.gid,
            size: self.size,
            hash: self.hash@,
            assume_valid: self.assume_valid,
            name: self.file_name.0@,
        }
    }
}

/// The bytes by which entries are ordered: the path's UTF-8 encoding.
pub open spec fn key(e: IndexEntryView) -> Seq<u8> {
    encode_utf8(e.name)
}

/// Lexicographic order on byte strings.
pub open spec fn bytes_lt(a: Seq<u8>, b: Seq<u8>) -> bool
    decreases a.len(),
{
    if a.len() == 0 {
        b.len() > 0
    } else if b.len() == 0 {
        false
    } else if a[0] != b[0] {
        a[0] < b[0]
    } else {
        bytes_lt(a.drop_first(), b.drop_first())
    }
}

pub proof fn lemma_bytes_lt_irreflexive(a: Seq<u8>)
    ensures
        !bytes_lt(a, a),
    decreases a.len(),
{
    if a.len() > 0 {
        lemma_bytes_lt_irreflexive(a.drop_first());
    }
}

pub proof fn lemma_bytes_lt_total(a: Seq<u8>, b: Seq<u8>)
    ensures
        a == b || bytes_lt(a, b) || bytes_lt(b, a),
    decreases a.len(),
{
    if a.len() > 0 && b.len() > 0 && a[0] == b[0] {
        lemma_bytes_lt_total(a.drop_first(), b.drop_first());
        if a.drop_first() == b.drop_first() {
            assert(a =~= seq![a[0]] + a.drop_first());
            assert(b =~= seq![b[0]] + b.drop_first());
        }
    } else if a.len() == 0 && b.len() == 0 {
        assert(a =~= b);
    }
}

pub proof fn lemma_bytes_lt_transitive(a: Seq<u8>, b: Seq<u8>, c: Seq<u8>)
    requires
        bytes_lt(a, b),
        bytes_lt(b, c),
    ensures
        bytes_lt(a, c),
    decreases a.len(),
{
    if a.len() > 0 && b.len() > 0 && c.len() > 0 && a[0] == b[0] && b[0] == c[0] {
        lemma_bytes_lt_transitive(a.drop_first(), b.drop_first(), c.drop_first());
    }
}

pub proof fn lemma_bytes_lt_asymmetric(a: Seq<u8>, b: Seq<u8>)
    requires
        bytes_lt(a, b),
    ensures
        !bytes_lt(b, a),
    decreases a.len(),
{
    if a.len() > 0 && b.len() > 0 && a[0] == b[0] {
        lemma_bytes_lt_asymmetric(a.drop_first(), b.drop_first());
    }
}

/// Entries in strictly increasing order of path, so no path twice.
pub open spec fn sorted(es: Seq<IndexEntryView>) -> bool {
    forall|i: int, j: int| 0 <= i < j < es.len() ==> bytes_lt(key(#[trigger] es[i]), key(#[trigger] es[j]))
}

/// `es` with `e` added: it replaces the entry with the same path, or goes
/// where its path belongs in the order.
pub open spec fn insert_sorted(es: Seq<IndexEntryView>, e: IndexEntryView) -> Seq<IndexEntryView>
    decreases es.len(),
{
    if es.len() == 0 {
        seq![e]
    } else if key(es.last()) == key(e) {
        es.drop_last().push(e)
    } else if bytes_lt(key(es.last()), key(e)) {
        es.push(e)
    } else {
        insert_sorted(es.drop_last(), e).push(es.last())
    }
}

/// The entries `es` added one after another to an empty index.
pub open spec fn insert_all(es: Seq<IndexEntryView>) -> Seq<IndexEntryView>
    decreases es.len(),
{
    if es.len() == 0 {
        Seq::empty()
    } else {
        insert_sorted(insert_all(es.drop_last()), es.last())
    }
}

/// The flags field: the assume-valid bit and the path's length, saturated
/// at `0xFFF`.
pub open spec fn flags(e: IndexEntryView) -> u16 {
    let n = key(e).len();
    ((if e.assume_valid {
        0x8000int
    } else {
        0
    }) + (if n >= 0xFFF {
        0xFFF
    } else {
        n
    })) as u16
}

/// The ten 32-bit fields of an entry's record.
pub open spec fn fixed_fields(e: IndexEntryView) -> Seq<u8> {
    be32(e.ctime.0) + be32(e.ctime.1) + be32(e.mtime.0) + be32(e.mtime.1) + be32(e.device) + be32(
        e.inode,
    ) + be32(e.mode) + be32(e.uid) + be32(e.gid) + be32(e.size)
}

/// The record of one entry: ten 32-bit fields, the hash, the flags, and the
/// path followed by a NUL.
#[verifier::opaque]
pub open spec fn entry_record(e: IndexEntryView) -> Seq<u8> {
    fixed_fields(e) + e.hash + be16(flags(e)) + key(e) + seq![0u8]
}

pub open spec fn records(es: Seq<IndexEntryView>) -> Seq<u8>
    decreases es.len(),
{
    if es.len() == 0 {
        Seq::empty()
    } else {
        records(es.drop_last()) + entry_record(es.last())
    }
}

/// The signature `DIRC`.
pub open spec fn signature() -> Seq<u8> {
    seq![68u8, 73, 82, 67]
}

/// Everything the checksum covers: signature, version 2, entry count, the
/// records, and a zero extension length.
pub open spec fn index_content(es: Seq<IndexEntryView>) -> Seq<u8> {
    signature() + be32(2) + be32(es.len() as u32) + records(es) + be16(0)
}

/// The serialized index: its content and the SHA-1 of that content.
pub open spec fn index_bytes(es: Seq<IndexEntryView>) -> Seq<u8> {
    index_content(es) + digest_of(index_content(es))
}

/// The entry whose record starts at `p` in `s[..to]`, and where the next
/// record starts.
pub open spec fn parse_entry(s: Seq<u8>, p: int, to: int) -> Option<(IndexEntryView, int)> {
    let fl = be16_at(s, p + 60);
    let n = (fl & 0xFFF) as int;
    let name_end = if n < 0xFFF {
        p + 62 + n
    } else {
        find(s, 0, p + 62, to)
    };
    let next = if name_end < to {
        name_end + 1
    } else {
        to
    };
    let name = s.subrange(p + 62, name_end);
    if p + 62 <= to && (n < 0xFFF ==> (name_end < to && s[name_end] == 0)) && valid_utf8(name) {
        Some(
            (
                IndexEntryView {
                    ctime: (be32_at(s, p), be32_at(s, p + 4)),
                    mtime: (be32_at(s, p + 8), be32_at(s, p + 12)),
                    device: be32_at(s, p + 16),
                    inode: be32_at(s, p + 20),
                    mode: be32_at(s, p + 24),
                    uid: be32_at(s, p + 28),
                    gid: be32_at(s, p + 32),
                    size: be32_at(s, p + 36),
                    hash: s.subrange(p + 40, p + 60),
                    assume_valid: fl & 0x8000 != 0,
                    name: decode_utf8(name),
                },
                next,
            ),
        )
    } else {
        None
    }
}

/// The entries whose records fill `s[from..to]`, in order.
pub open spec fn parse_entries(s: Seq<u8>, from: int, to: int) -> Option<Seq<IndexEntryView>>
    decreases to - from
    via parse_entries_decreases
{
    if from >= to {
        Some(Seq::empty())
    } else {
        match parse_entry(s, from, to) {
            Some((e, next)) => match parse_entries(s, next, to) {
                Some(rest) => Some(seq![e] + rest),
                None => None,
            },
            None => None,
        }
    }
}

#[via_fn]
proof fn parse_entries_decreases(s: Seq<u8>, from: int, to: int) {
    crate::text::lemma_find_ge(s, 0, from + 62, to);
}

#[derive(Clone, Copy, PartialEq, Eq, Structural, Debug)]
pub enum IndexError {
    /// Fewer bytes than the smallest index.
    TooShort,
    /// The trailing checksum is not the SHA-1 of the bytes before it.
    BadChecksum,
    /// The file does not start with `DIRC`.
    BadSignature,
    /// The version is not 2.
    BadVersion,
    /// An entry record is cut short, mislabels its path's length, or holds a
    /// path that is not UTF-8.
    MalformedEntry,
    /// The header's entry count is not the number of distinct paths read.
    EntryCountMismatch,
    /// No entry has the path.
    NotFound,
}

/// The smallest index: header, extension length and checksum.
pub const MIN_INDEX_LEN: usize = 34;

/// The index that the bytes `s` hold, or why they hold none.
pub open spec fn deserialize_spec(s: Seq<u8>) -> Result<Seq<IndexEntryView>, IndexError> {
    let n = s.len() as int;
    if n < MIN_INDEX_LEN {
        Err(IndexError::TooShort)
    } else if digest_of(s.subrange(0, n - 20)) != s.subrange(n - 20, n) {
        Err(IndexError::BadChecksum)
    } else if s.subrange(0, 4) != signature() {
        Err(IndexError::BadSignature)
    } else if be32_at(s, 4) != 2 {
        Err(IndexError::BadVersion)
    } else {
        match parse_entries(s, 12, n - 22) {
            None => Err(IndexError::MalformedEntry),
            Some(es) => if insert_all(es).len() != be32_at(s, 8) {
                Err(IndexError::EntryCountMismatch)
            } else {
                Ok(insert_all(es))
            },
        }
    }
}

/// The staging area: entries kept in strictly increasing order of path.
pub struct Index {
    entries: Vec<IndexEntry>,
}

impl View for Index {
    type V = Seq<IndexEntryView>;

    closed spec fn view(&self) -> Seq<IndexEntryView> {
        self.entries@.map_values(|e: IndexEntry| e@)
    }
}

/// Compares byte strings: negative, zero or positive as `a` comes before,
/// equals or comes after `b`.
fn compare_bytes(a: &[u8], b: &[u8]) -> (r: i8)
    ensures
        r < 0 <==> bytes_lt(a@, b@),
        r == 0 <==> a@ == b@,
        r > 0 <==> bytes_lt(b@, a@),
{
    let mut i: usize = 0;
    proof {
        assert(a@.subrange(0, 0) =~= b@.subrange(0, 0));
        assert(a@.subrange(0, a@.len() as int) =~= a@);
        assert(b@.subrange(0, b@.len() as int) =~= b@);
    }
    while i < a.len() && i < b.len()
        invariant
            0 <= i <= a@.len(),
            i <= b@.len(),
            a@.subrange(0, i as int) == b@.subrange(0, i as int),
            bytes_lt(a@, b@) == bytes_lt(a@.subrange(i as int, a@.len() as int), b@.subrange(i as int, b@.len() as int)),
            bytes_lt(b@, a@) == bytes_lt(b@.subrange(i as int, b@.len() as int), a@.subrange(i as int, a@.len() as int)),
        decreases a@.len() - i,
    {
        let ghost ra = a@.subrange(i as int, a@.len() as int);
        let ghost rb = b@.subrange(i as int, b@.len() as int);
        if a[i] != b[i] {
            proof {
                assert(ra[0] == a@[i as int] && rb[0] == b@[i as int]);
                if a@ == b@ {
                    assert(a@[i as int] == b@[i as int]);
                }
            }
            if a[i] < b[i] {
                return -1;
            } else {
                return 1;
            }
        }
        proof {
            assert(ra.drop_first() =~= a@.subrange(i + 1, a@.len() as int));
            assert(rb.drop_first() =~= b@.subrange(i + 1, b@.len() as int));
            assert(a@.subrange(0, i + 1) =~= a@.subrange(0, i as int).push(a@[i as int]));
            assert(b@.subrange(0, i + 1) =~= b@.subrange(0, i as int).push(b@[i as int]));
        }
        i = i + 1;
    }
    proof {
        let ra = a@.subrange(i as int, a@.len() as int);
        let rb = b@.subrange(i as int, b@.len() as int);
        if i == a.len() && i == b.len() {
            assert(a@ =~= a@.subrange(0, i as int));
            assert(b@ =~= b@.subrange(0, i as int));
        }
        if a@ == b@ {
            assert(a@.len() == b@.len());
        }
    }
    if a.len() < b.len() {
        -1
    } else if a.len() == b.len() {
        0
    } else {
        1
    }
}

/// Whether `a` comes before `b` in lexicographic order.
pub fn bytes_before(a: &[u8], b: &[u8]) -> (r: bool)
    ensures
        r == bytes_lt(a@, b@),
{
    compare_bytes(a, b) < 0
}

impl IndexEntry {
    fn key_bytes(&self) -> (r: &[u8])
        ensures
            r@ == key(self@),
    {
        self.file_name.0.as_str().as_bytes()
    }

    /// The entry's record in the index file.
    pub fn serialize(&self) -> (r: Vec<u8>)
        ensures
            r@ == entry_record(self@),
    {
        let mut out: Vec<u8> = Vec::new();
        self.push_record(&mut out);
        out
    }

    fn push_record(&self, out: &mut Vec<u8>)
        ensures
            final(out)@ == old(out)@ + entry_record(self@),
    {
        let name = self.key_bytes();
        let n: u16 = if name.len() >= 0xFFF {
            0xFFF
        } else {
            name.len() as u16
        };
        let fl: u16 = if self.assume_valid {
            0x8000u16 + n
        } else {
            n
        };
        push_be32(out, self.metadata_change_time.0);
        push_be32(out, self.metadata_change_time.1);
        push_be32(out, self.data_change_time.0);
        push_be32(out, self.data_change_time.1);
        push_be32(out, self.device);
        push_be32(out, self.inode);
        push_be32(out, self.mode);
        push_be32(out, self.uid);
        push_be32(out, self.gid);
        push_be32(out, self.size);
        push_all(out, self.hash.as_bytes());
        push_be16(out, fl);
        push_all(out, name);
        out.push(0);
        proof {
            reveal(entry_record);
            assert(fl == flags(self@));
            assert(final(out)@ =~= old(out)@ + entry_record(self@));
        }
    }

    /// Reads the record that starts at `p` in `s[..to]`; gives the entry
    /// and where the next record starts.
    pub fn deserialize(s: &[u8], p: usize, to: usize) -> (r: Option<(IndexEntry, usize)>)
        requires
            p <= to <= s@.len(),
        ensures
            match parse_entry(s@, p as int, to as int) {
                Some((e, next)) => match r {
                    Some((x, q)) => x@ == e && q == next,
                    None => false,
                },
                None => r is None,
            },
    {
        if to - p < 62 {
            return None;
        }
        let fl = read_be16(s, p + 60);
        let n = (fl & 0xFFF) as usize;
        let name_end = if n < 0xFFF {
            if to - (p + 62) <= n {
                return None;
            }
            if s[p + 62 + n] != 0 {
                return None;
            }
            p + 62 + n
        } else {
            find_byte(s, 0, p + 62, to)
        };
        let next = if name_end < to {
            name_end + 1
        } else {
            to
        };
        let name = match utf8_text(s, p + 62, name_end) {
            Some(t) => t,
            None => return None,
        };
        let mut hash_bytes: Vec<u8> = Vec::new();
        let mut i = p + 40;
        while i < p + 60
            invariant
                p + 40 <= i <= p + 60,
                p + 62 <= to <= s@.len(),
                hash_bytes@ == s@.subrange(p + 40, i as int),
            decreases p + 60 - i,
        {
            hash_bytes.push(s[i]);
            i = i + 1;
            proof {
                assert(hash_bytes@ =~= s@.subrange(p + 40, i as int));
            }
        }
        let entry = IndexEntry {
            metadata_change_time: (read_be32(s, p), read_be32(s, p + 4)),
            data_change_time: (read_be32(s, p + 8), read_be32(s, p + 12)),
            device: read_be32(s, p + 16),
            inode: read_be32(s, p + 20),
            mode: read_be32(s, p + 24),
            uid: read_be32(s, p + 28),
            gid: read_be32(s, p + 32),
            size: read_be32(s, p + 36),
            hash: crate::hash::Hash::from_digest(hash_bytes),
            assume_valid: fl & 0x8000 != 0,
            file_name: RepoRelativeFilename(name),
        };
        Some((entry, next))
    }
}

/// Where every path in `es` and the path of `e` come before `b`, every path
/// in `insert_sorted(es, e)` does too.
proof fn lemma_insert_sorted_bound(es: Seq<IndexEntryView>, e: IndexEntryView, b: Seq<u8>)
    requires
        forall|j: int| 0 <= j < es.len() ==> bytes_lt(key(#[trigger] es[j]), b),
        bytes_lt(key(e), b),
    ensures
        forall|k: int|
            0 <= k < insert_sorted(es, e).len() ==> bytes_lt(key(#[trigger] insert_sorted(es, e)[k]), b),
    decreases es.len(),
{
    let r = insert_sorted(es, e);
    if es.len() > 0 && key(es.last()) != key(e) && !bytes_lt(key(es.last()), key(e)) {
        lemma_insert_sorted_bound(es.drop_last(), e, b);
        let q = insert_sorted(es.drop_last(), e);
        assert forall|k: int| 0 <= k < r.len() implies bytes_lt(key(#[trigger] r[k]), b) by {
            if k < q.len() {
                assert(r[k] == q[k]);
            }
        }
    } else if es.len() > 0 && key(es.last()) == key(e) {
        assert forall|k: int| 0 <= k < r.len() implies bytes_lt(key(#[trigger] r[k]), b) by {
            if k < es.len() - 1 {
                assert(r[k] == es[k]);
            }
        }
    } else if es.len() > 0 {
        assert forall|k: int| 0 <= k < r.len() implies bytes_lt(key(#[trigger] r[k]), b) by {
            if k < es.len() {
                assert(r[k] == es[k]);
            }
        }
    }
}

/// Adding an entry keeps the entries in strictly increasing order of path.
pub proof fn lemma_insert_sorted_sorted(es: Seq<IndexEntryView>, e: IndexEntryView)
    requires
        sorted(es),
    ensures
        sorted(insert_sorted(es, e)),
        insert_sorted(es, e).len() <= es.len() + 1,
    decreases es.len(),
{
    if es.len() == 0 {
    } else if key(es.last()) == key(e) {
        let r = es.drop_last().push(e);
        assert forall|i: int, j: int| 0 <= i < j < r.len() implies bytes_lt(key(#[trigger] r[i]), key(#[trigger] r[j])) by {
            if j == r.len() - 1 {
                assert(es[i] == r[i]);
                assert(bytes_lt(key(es[i]), key(es[es.len() - 1])));
            } else {
                assert(r[i] == es[i] && r[j] == es[j]);
            }
        }
    } else if bytes_lt(key(es.last()), key(e)) {
        let r = es.push(e);
        assert forall|i: int, j: int| 0 <= i < j < r.len() implies bytes_lt(key(#[trigger] r[i]), key(#[trigger] r[j])) by {
            if j == r.len() - 1 {
                if i < es.len() - 1 {
                    lemma_bytes_lt_transitive(key(es[i]), key(es.last()), key(e));
                }
            }
        }
    } else {
        let p = es.drop_last();
        assert(sorted(p));
        lemma_insert_sorted_sorted(p, e);
        lemma_bytes_lt_total(key(es.last()), key(e));
        assert forall|j: int| 0 <= j < p.len() implies bytes_lt(key(#[trigger] p[j]), key(es.last())) by {
            assert(p[j] == es[j]);
        }
        lemma_insert_sorted_bound(p, e, key(es.last()));
        let q = insert_sorted(p, e);
        let r = q.push(es.last());
        assert forall|i: int, j: int| 0 <= i < j < r.len() implies bytes_lt(key(#[trigger] r[i]), key(#[trigger] r[j])) by {
            if j == r.len() - 1 {
                assert(r[i] == q[i]);
            } else {
                assert(r[i] == q[i] && r[j] == q[j]);
            }
        }
    }
}

/// Adding entries one after another to an empty index gives sorted entries.
pub proof fn lemma_insert_all_sorted(es: Seq<IndexEntryView>)
    ensures
        sorted(insert_all(es)),
    decreases es.len(),
{
    if es.len() > 0 {
        lemma_insert_all_sorted(es.drop_last());
        lemma_insert_sorted_sorted(insert_all(es.drop_last()), es.last());
    }
}

/// Where every path after position `i` comes after the path of `e`, adding
/// `e` only touches the first `i` entries.
proof fn lemma_insert_sorted_split(es: Seq<IndexEntryView>, e: IndexEntryView, i: int)
    requires
        0 <= i <= es.len(),
        forall|j: int| i <= j < es.len() ==> bytes_lt(key(e), key(#[trigger] es[j])),
    ensures
        insert_sorted(es, e) == insert_sorted(es.subrange(0, i), e) + es.subrange(i, es.len() as int),
    decreases es.len() - i,
{
    if i == es.len() {
        assert(es.subrange(0, i) =~= es);
        assert(insert_sorted(es, e) + Seq::<IndexEntryView>::empty() =~= insert_sorted(es, e));
    } else {
        lemma_insert_sorted_split(es, e, i + 1);
        let p = es.subrange(0, i + 1);
        assert(p.last() == es[i]);
        assert(bytes_lt(key(e), key(es[i])));
        lemma_bytes_lt_irreflexive(key(e));
        lemma_bytes_lt_asymmetric(key(e), key(es[i]));
        assert(p.drop_last() =~= es.subrange(0, i));
        assert(insert_sorted(p, e) == insert_sorted(es.subrange(0, i), e).push(es[i]));
        assert(insert_sorted(es.subrange(0, i), e).push(es[i]) + es.subrange(i + 1, es.len() as int)
            =~= insert_sorted(es.subrange(0, i), e) + es.subrange(i, es.len() as int));
    }
}

impl Index {
    /// An index with no entries.
    pub fn empty() -> (r: Index)
        ensures
            r@ == Seq::<IndexEntryView>::empty(),
    {
        let r = Index { entries: Vec::new() };
        proof {
            assert(r@ =~= Seq::<IndexEntryView>::empty());
        }
        r
    }

    /// The entries, in increasing order of path.
    pub fn entries(&self) -> (r: &Vec<IndexEntry>)
        ensures
            r@.map_values(|e: IndexEntry| e@) == self@,
    {
        &self.entries
    }

    /// The entries, in increasing order of path.
    pub fn into_entries(self) -> (r: Vec<IndexEntry>)
        ensures
            r@.map_values(|e: IndexEntry| e@) == self@,
    {
        self.entries
    }

    /// Adds `entry`, replacing the entry with the same path if there is one.
    pub fn add(&mut self, entry: IndexEntry)
        ensures
            final(self)@ == insert_sorted(old(self)@, entry@),
            sorted(old(self)@) ==> sorted(final(self)@),
    {
        let ghost es = old(self)@;
        let ghost e = entry@;
        proof {
            if sorted(es) {
                lemma_insert_sorted_sorted(es, e);
            }
        }
        let mut i = self.entries.len();
        proof {
            lemma_insert_sorted_split(es, e, i as int);
        }
        while i > 0 && compare_bytes(self.entries[i - 1].key_bytes(), entry.key_bytes()) > 0
            invariant
                0 <= i <= self.entries@.len(),
                self@ == es,
                e == entry@,
                forall|j: int| i <= j < es.len() ==> bytes_lt(key(e), key(#[trigger] es[j])),
            decreases i,
        {
            i = i - 1;
            proof {
                lemma_insert_sorted_split(es, e, i as int);
            }
        }
        proof {
            lemma_insert_sorted_split(es, e, i as int);
        }
        if i > 0 && compare_bytes(self.entries[i - 1].key_bytes(), entry.key_bytes()) == 0 {
            self.entries.set(i - 1, entry);
            proof {
                let p = es.subrange(0, i as int);
                assert(p.last() == es[i - 1]);
                assert(p.drop_last() =~= es.subrange(0, i - 1));
                assert(self@ =~= p.drop_last().push(e) + es.subrange(i as int, es.len() as int));
            }
        } else {
            self.entries.insert(i, entry);
            proof {
                let p = es.subrange(0, i as int);
                if i > 0 {
                    assert(p.last() == es[i - 1]);
                    lemma_bytes_lt_total(key(es[i - 1]), key(e));
                }
                assert(self@ =~= p.push(e) + es.subrange(i as int, es.len() as int));
            }
        }
    }

    /// Removes the entry for `path`; fails, changing nothing, when there is
    /// none.
    pub fn remove(&mut self, path: &RepoRelativeFilename) -> (r: Result<(), IndexError>)
        ensures
            r is Ok <==> exists|j: int| 0 <= j < old(self)@.len() && old(self)@[j].name == path.0@,
            r is Ok ==> exists|j: int|
                0 <= j < old(self)@.len() && old(self)@[j].name == path.0@ && final(self)@
                    == old(self)@.remove(j),
            r is Err ==> final(self)@ == old(self)@ && r == Err::<(), IndexError>(IndexError::NotFound),
            sorted(old(self)@) ==> sorted(final(self)@),
    {
        let ghost es = old(self)@;
        let target = path.0.as_str().as_bytes();
        let mut i: usize = 0;
        while i < self.entries.len()
            invariant
                0 <= i <= self.entries@.len(),
                self@ == es,
                es == old(self)@,
                target@ == encode_utf8(path.0@),
                forall|j: int| 0 <= j < i ==> es[j].name != path.0@,
            decreases self.entries@.len() - i,
        {
            if compare_bytes(self.entries[i].key_bytes(), target) == 0 {
                proof {
                    assert(self@[i as int] == self.entries@[i as int]@);
                    encode_utf8_decode_utf8(es[i as int].name);
                    encode_utf8_decode_utf8(path.0@);
                    assert(es[i as int].name == path.0@);
                }
                self.entries.remove(i);
                proof {
                    encode_utf8_decode_utf8(es[i as int].name);
                    encode_utf8_decode_utf8(path.0@);
                    assert(self@ =~= es.remove(i as int));
                    assert(0 <= i < es.len() && es[i as int].name == path.0@ && self@ == es.remove(
                        i as int,
                    ));
                    if sorted(es) {
                        assert forall|a: int, b: int| 0 <= a < b < self@.len() implies bytes_lt(key(#[trigger] self@[a]), key(#[trigger] self@[b])) by {
                            if a < i {
                                if b < i {
                                } else {
                                    assert(self@[b] == es[b + 1]);
                                }
                            } else {
                                assert(self@[a] == es[a + 1] && self@[b] == es[b + 1]);
                            }
                        }
                    }
                }
                return Ok(());
            }
            proof {
                assert(self@[i as int] == self.entries@[i as int]@);
                if es[i as int].name == path.0@ {
                    assert(key(es[i as int]) == encode_utf8(path.0@));
                }
            }
            i = i + 1;
        }
        Err(IndexError::NotFound)
    }

    /// The index file: header, records, zero extension length, and the
    /// SHA-1 of all of it.
    pub fn serialize(&self) -> (r: Vec<u8>)
        requires
            self@.len() <= u32::MAX,
        ensures
            r@ == index_bytes(self@),
    {
        let mut out: Vec<u8> = Vec::new();
        out.push(68);
        out.push(73);
        out.push(82);
        out.push(67);
        push_be32(&mut out, 2);
        push_be32(&mut out, self.entries.len() as u32);
        let ghost head = out@;
        let mut i: usize = 0;
        while i < self.entries.len()
            invariant
                0 <= i <= self.entries@.len(),
                out@ == head + records(self@.subrange(0, i as int)),
            decreases self.entries@.len() - i,
        {
            self.entries[i].push_record(&mut out);
            proof {
                let p = self@.subrange(0, i as int + 1);
                assert(p.drop_last() =~= self@.subrange(0, i as int));
                assert(p.last() == self.entries@[i as int]@);
                assert(out@ =~= head + records(p));
            }
            i = i + 1;
        }
        proof {
            assert(self@.subrange(0, i as int) =~= self@);
        }
        push_be16(&mut out, 0);
        proof {
            assert(out@ =~= index_content(self@));
        }
        let checksum = crate::hash::Hash::digest(out.as_slice());
        push_all(&mut out, checksum.as_bytes());
        out
    }

    /// Reads an index file. The checksum is checked before anything else is
    /// trusted.
    pub fn deserialize(s: &[u8]) -> (r: Result<Index, IndexError>)
        ensures
            match deserialize_spec(s@) {
                Ok(es) => r is Ok && r->Ok_0@ == es,
                Err(e) => r is Err && r->Err_0 == e,
            },
            r is Ok ==> sorted(r->Ok_0@),
    {
        let n = s.len();
        if n < MIN_INDEX_LEN {
            return Err(IndexError::TooShort);
        }
        let mut content: Vec<u8> = Vec::new();
        push_slice_range(&mut content, s, 0, n - 20);
        proof {
            assert(content@ =~= s@.subrange(0, n - 20));
        }
        let digest = crate::hash::Hash::digest(content.as_slice());
        let stored = slice_range(s, n - 20, n);
        if compare_bytes(digest.as_bytes(), stored.as_slice()) != 0 {
            return Err(IndexError::BadChecksum);
        }
        if !(s[0] == 68 && s[1] == 73 && s[2] == 82 && s[3] == 67) {
            proof {
                if s@.subrange(0, 4) == signature() {
                    assert(s@.subrange(0, 4)[0] == s@[0]);
                    assert(s@.subrange(0, 4)[1] == s@[1]);
                    assert(s@.subrange(0, 4)[2] == s@[2]);
                    assert(s@.subrange(0, 4)[3] == s@[3]);
                }
            }
            return Err(IndexError::BadSignature);
        }
        proof {
            assert(s@.subrange(0, 4) =~= signature());
        }
        if read_be32(s, 4) != 2 {
            return Err(IndexError::BadVersion);
        }
        let count = read_be32(s, 8);
        let to = n - 22;
        let mut index = Index::empty();
        let mut p: usize = 12;
        let ghost mut parsed: Seq<IndexEntryView> = Seq::empty();
        while p < to
            invariant
                12 <= p <= to,
                to == s@.len() - 22,
                s@.len() >= MIN_INDEX_LEN,
                digest_of(s@.subrange(0, s@.len() - 20)) == s@.subrange(s@.len() - 20, s@.len() as int),
                s@.subrange(0, 4) == signature(),
                be32_at(s@, 4) == 2,
                index@ == insert_all(parsed),
                match parse_entries(s@, 12, to as int) {
                    Some(es) => parse_entries(s@, p as int, to as int) is Some && es == parsed
                        + parse_entries(s@, p as int, to as int)->0,
                    None => parse_entries(s@, p as int, to as int) is None,
                },
            decreases to - p,
        {
            match IndexEntry::deserialize(s, p, to) {
                Some((entry, next)) => {
                    proof {
                        crate::text::lemma_find_ge(s@, 0, p + 62, to as int);
                        let old_parsed = parsed;
                        parsed = parsed.push(entry@);
                        assert(parsed.drop_last() =~= old_parsed);
                        match parse_entries(s@, 12, to as int) {
                            Some(es) => {
                                let rest = parse_entries(s@, next as int, to as int)->0;
                                assert(es =~= parsed + rest);
                            },
                            None => {},
                        }
                    }
                    index.add(entry);
                    p = next;
                },
                None => {
                    proof {
                        assert(parse_entries(s@, p as int, to as int) is None);
                    }
                    return Err(IndexError::MalformedEntry);
                },
            }
        }
        proof {
            assert(parsed + Seq::<IndexEntryView>::empty() =~= parsed);
            lemma_insert_all_sorted(parsed);
        }
        if index.entries.len() != count as usize {
            return Err(IndexError::EntryCountMismatch);
        }
        Ok(index)
    }
}

fn slice_range(s: &[u8], from: usize, to: usize) -> (r: Vec<u8>)
    requires
        from <= to <= s@.len(),
    ensures
        r@ == s@.subrange(from as int, to as int),
{
    let mut r: Vec<u8> = Vec::new();
    push_slice_range(&mut r, s, from, to);
    r
}

fn push_slice_range(out: &mut Vec<u8>, s: &[u8], from: usize, to: usize)
    requires
        from <= to <= s@.len(),
    ensures
        final(out)@ == old(out)@ + s@.subrange(from as int, to as int),
{
    let mut i = from;
    while i < to
        invariant
            from <= i <= to <= s@.len(),
            out@ == old(out)@ + s@.subrange(from as int, i as int),
        decreases to - i,
    {
        out.push(s[i]);
        i = i + 1;
        proof {
            assert(out@ =~= old(out)@ + s@.subrange(from as int, i as int));
        }
    }
}

/// An entry that can be written and read back: a twenty-byte hash and a
/// path without NUL.
pub open spec fn valid_entry(e: IndexEntryView) -> bool {
    e.hash.len() == 20 && crate::text::no_char(e.name, 0)
}

proof fn lemma_be32_read(s: Seq<u8>, q: int, n: u32)
    requires
        0 <= q,
        q + 4 <= s.len(),
        s.subrange(q, q + 4) == be32(n),
    ensures
        be32_at(s, q) == n,
{
    crate::bytes::lemma_be32(n);
    assert(s[q] == be32(n)[0] && s[q + 1] == be32(n)[1] && s[q + 2] == be32(n)[2] && s[q + 3]
        == be32(n)[3]) by {
        assert(s.subrange(q, q + 4)[0] == s[q]);
        assert(s.subrange(q, q + 4)[1] == s[q + 1]);
        assert(s.subrange(q, q + 4)[2] == s[q + 2]);
        assert(s.subrange(q, q + 4)[3] == s[q + 3]);
    }
}

proof fn lemma_be16_read(s: Seq<u8>, q: int, n: u16)
    requires
        0 <= q,
        q + 2 <= s.len(),
        s.subrange(q, q + 2) == be16(n),
    ensures
        be16_at(s, q) == n,
{
    crate::bytes::lemma_be16(n);
    assert(s[q] == be16(n)[0] && s[q + 1] == be16(n)[1]) by {
        assert(s.subrange(q, q + 2)[0] == s[q]);
        assert(s.subrange(q, q + 2)[1] == s[q + 1]);
    }
}

proof fn lemma_flags(e: IndexEntryView)
    ensures
        (flags(e) & 0xFFF) as int == (if key(e).len() >= 0xFFF {
            0xFFF
        } else {
            key(e).len() as int
        }),
        (flags(e) & 0x8000 != 0) == e.assume_valid,
{
    let n: u16 = if key(e).len() >= 0xFFF {
        0xFFF
    } else {
        key(e).len() as u16
    };
    if e.assume_valid {
        assert(flags(e) == (0x8000 + n) as u16);
        assert(n <= 0xFFF ==> ((0x8000u16 + n) as u16) & 0xFFF == n && (((0x8000u16 + n) as u16) & 0x8000 != 0)) by (bit_vector);
    } else {
        assert(flags(e) == n);
        assert(n <= 0xFFF ==> n & 0xFFF == n && (n & 0x8000 == 0)) by (bit_vector);
    }
}

proof fn lemma_subrange_of(s: Seq<u8>, p: int, r: Seq<u8>, a: int, b: int)
    requires
        0 <= p,
        p + r.len() <= s.len(),
        s.subrange(p, p + r.len()) == r,
        0 <= a <= b <= r.len(),
    ensures
        s.subrange(p + a, p + b) == r.subrange(a, b),
{
    assert(s.subrange(p + a, p + b) =~= r.subrange(a, b)) by {
        assert forall|t: int| 0 <= t < b - a implies s.subrange(p + a, p + b)[t] == r.subrange(a, b)[t] by {
            assert(s.subrange(p, p + r.len())[a + t] == s[p + a + t]);
        }
    }
}

proof fn lemma_fixed_layout(e: IndexEntryView)
    ensures
        fixed_fields(e).len() == 40,
        fixed_fields(e).subrange(0, 4) == be32(e.ctime.0),
        fixed_fields(e).subrange(4, 8) == be32(e.ctime.1),
        fixed_fields(e).subrange(8, 12) == be32(e.mtime.0),
        fixed_fields(e).subrange(12, 16) == be32(e.mtime.1),
        fixed_fields(e).subrange(16, 20) == be32(e.device),
        fixed_fields(e).subrange(20, 24) == be32(e.inode),
        fixed_fields(e).subrange(24, 28) == be32(e.mode),
        fixed_fields(e).subrange(28, 32) == be32(e.uid),
        fixed_fields(e).subrange(32, 36) == be32(e.gid),
        fixed_fields(e).subrange(36, 40) == be32(e.size),
{
    let f = fixed_fields(e);
    assert(f.subrange(0, 4) =~= be32(e.ctime.0));
    assert(f.subrange(4, 8) =~= be32(e.ctime.1));
    assert(f.subrange(8, 12) =~= be32(e.mtime.0));
    assert(f.subrange(12, 16) =~= be32(e.mtime.1));
    assert(f.subrange(16, 20) =~= be32(e.device));
    assert(f.subrange(20, 24) =~= be32(e.inode));
    assert(f.subrange(24, 28) =~= be32(e.mode));
    assert(f.subrange(28, 32) =~= be32(e.uid));
    assert(f.subrange(32, 36) =~= be32(e.gid));
    assert(f.subrange(36, 40) =~= be32(e.size));
}

proof fn lemma_record_layout(e: IndexEntryView)
    requires
        e.hash.len() == 20,
    ensures
        entry_record(e).len() == 63 + key(e).len(),
        entry_record(e).subrange(0, 40) == fixed_fields(e),
        entry_record(e).subrange(40, 60) == e.hash,
        entry_record(e).subrange(60, 62) == be16(flags(e)),
        entry_record(e).subrange(62, 62 + key(e).len() as int) == key(e),
        entry_record(e)[62 + key(e).len() as int] == 0,
{
    reveal(entry_record);
    lemma_fixed_layout(e);
    crate::bytes::lemma_be16(flags(e));
    let r = entry_record(e);
    let k = key(e);
    assert(r.subrange(0, 40) =~= fixed_fields(e));
    assert(r.subrange(40, 60) =~= e.hash);
    assert(r.subrange(60, 62) =~= be16(flags(e)));
    assert(r.subrange(62, 62 + k.len() as int) =~= k);
}

/// Reading the record of a valid entry gives the entry and the position
/// after the record.
proof fn lemma_parse_entry(s: Seq<u8>, p: int, to: int, e: IndexEntryView)
    requires
        0 <= p,
        p + entry_record(e).len() <= to <= s.len(),
        s.subrange(p, p + entry_record(e).len()) == entry_record(e),
        valid_entry(e),
    ensures
        parse_entry(s, p, to) == Some((e, p + entry_record(e).len())),
        entry_record(e).len() == 63 + key(e).len(),
{
    let r = entry_record(e);
    let k = key(e);
    let kl = k.len() as int;
    lemma_record_layout(e);
    lemma_fixed_layout(e);
    let f = fixed_fields(e);
    lemma_subrange_of(s, p, r, 0, 40);
    assert(s.subrange(p, p + 40) == f);
    lemma_subrange_of(s, p, f, 0, 4);
    lemma_be32_read(s, p + 0, e.ctime.0);
    lemma_subrange_of(s, p, f, 4, 8);
    lemma_be32_read(s, p + 4, e.ctime.1);
    lemma_subrange_of(s, p, f, 8, 12);
    lemma_be32_read(s, p + 8, e.mtime.0);
    lemma_subrange_of(s, p, f, 12, 16);
    lemma_be32_read(s, p + 12, e.mtime.1);
    lemma_subrange_of(s, p, f, 16, 20);
    lemma_be32_read(s, p + 16, e.device);
    lemma_subrange_of(s, p, f, 20, 24);
    lemma_be32_read(s, p + 20, e.inode);
    lemma_subrange_of(s, p, f, 24, 28);
    lemma_be32_read(s, p + 24, e.mode);
    lemma_subrange_of(s, p, f, 28, 32);
    lemma_be32_read(s, p + 28, e.uid);
    lemma_subrange_of(s, p, f, 32, 36);
    lemma_be32_read(s, p + 32, e.gid);
    lemma_subrange_of(s, p, f, 36, 40);
    lemma_be32_read(s, p + 36, e.size);
    lemma_subrange_of(s, p, r, 40, 60);
    lemma_subrange_of(s, p, r, 60, 62);
    lemma_be16_read(s, p + 60, flags(e));
    lemma_flags(e);
    lemma_subrange_of(s, p, r, 62, 62 + kl);
    assert(s[p + 62 + kl] == 0) by {
        assert(s.subrange(p, p + r.len())[62 + kl] == s[p + 62 + kl]);
    }
    vstd::utf8::encode_utf8_valid_utf8(e.name);
    vstd::utf8::encode_utf8_decode_utf8(e.name);
    if k.len() >= 0xFFF {
        crate::text::lemma_utf8_no_byte(e.name, 0);
        crate::text::lemma_find_after(s, 0, p + 62, to, k);
    }
}

pub proof fn lemma_records_cons(e: IndexEntryView, rest: Seq<IndexEntryView>)
    ensures
        records(seq![e] + rest) == entry_record(e) + records(rest),
    decreases rest.len(),
{
    if rest.len() == 0 {
        let x = seq![e] + rest;
        assert(x.drop_last() =~= Seq::<IndexEntryView>::empty());
        assert(x.last() == e);
        assert(records(Seq::<IndexEntryView>::empty()) == Seq::<u8>::empty());
        assert(records(x) == records(x.drop_last()) + entry_record(e));
        assert(records(x) =~= entry_record(e) + records(rest));
    } else {
        lemma_records_cons(e, rest.drop_last());
        assert((seq![e] + rest).drop_last() =~= seq![e] + rest.drop_last());
        assert(records(seq![e] + rest) =~= entry_record(e) + records(rest));
    }
}

proof fn lemma_parse_records(s: Seq<u8>, p: int, to: int, es: Seq<IndexEntryView>)
    requires
        0 <= p,
        to <= s.len(),
        p + records(es).len() == to,
        s.subrange(p, to) == records(es),
        forall|i: int| 0 <= i < es.len() ==> valid_entry(#[trigger] es[i]),
    ensures
        parse_entries(s, p, to) == Some(es),
    decreases es.len(),
{
    if es.len() == 0 {
    } else {
        let e = es[0];
        let rest = es.drop_first();
        assert(es =~= seq![e] + rest);
        lemma_records_cons(e, rest);
        let r = entry_record(e);
        assert(s.subrange(p, p + r.len()) =~= r) by {
            assert forall|t: int| 0 <= t < r.len() implies s.subrange(p, p + r.len())[t] == r[t] by {
                assert(s.subrange(p, to)[t] == s[p + t]);
            }
        }
        lemma_parse_entry(s, p, to, e);
        assert(s.subrange(p + r.len(), to) =~= records(rest)) by {
            assert forall|t: int| 0 <= t < records(rest).len() implies s.subrange(p + r.len(), to)[t] == records(rest)[t] by {
                assert(s.subrange(p, to)[r.len() + t] == s[p + r.len() + t]);
            }
        }
        assert forall|i: int| 0 <= i < rest.len() implies valid_entry(#[trigger] rest[i]) by {
            assert(rest[i] == es[i + 1]);
        }
        lemma_parse_records(s, p + r.len(), to, rest);
    }
}

/// Adding already sorted entries one after another rebuilds them.
pub proof fn lemma_insert_all_sorted_identity(es: Seq<IndexEntryView>)
    requires
        sorted(es),
    ensures
        insert_all(es) == es,
    decreases es.len(),
{
    if es.len() > 0 {
        let p = es.drop_last();
        assert(sorted(p));
        lemma_insert_all_sorted_identity(p);
        if p.len() > 0 {
            assert(bytes_lt(key(p.last()), key(es.last())));
            lemma_bytes_lt_irreflexive(key(es.last()));
        }
        assert(p.push(es.last()) =~= es);
    }
}

/// Reading back a serialized index gives the same entries in the same
/// order.
pub proof fn lemma_index_round_trip(es: Seq<IndexEntryView>)
    requires
        sorted(es),
        es.len() <= u32::MAX,
        forall|i: int| 0 <= i < es.len() ==> valid_entry(#[trigger] es[i]),
    ensures
        deserialize_spec(index_bytes(es)) == Ok::<Seq<IndexEntryView>, IndexError>(es),
{
    let c = index_content(es);
    let s = index_bytes(es);
    let n = s.len() as int;
    crate::bytes::lemma_be32(2);
    crate::bytes::lemma_be32(es.len() as u32);
    crate::bytes::lemma_be16(0);
    assert(n == c.len() + 20) by {
        crate::bytes::lemma_be32(0);
    }
    assert(s.subrange(0, n - 20) =~= c);
    assert(s.subrange(n - 20, n) =~= digest_of(c));
    assert(s.subrange(0, 4) =~= signature());
    assert(s.subrange(4, 8) =~= be32(2));
    lemma_be32_read(s, 4, 2);
    assert(s.subrange(8, 12) =~= be32(es.len() as u32));
    lemma_be32_read(s, 8, es.len() as u32);
    assert(s.subrange(12, n - 22) =~= records(es));
    lemma_parse_records(s, 12, n - 22, es);
    lemma_insert_all_sorted_identity(es);
}

/// Changing any one byte before the checksum of a serialized index makes
/// reading it fail on the checksum, unless SHA-1 gives the changed bytes
/// the same digest.
pub proof fn lemma_checksum_sensitivity(es: Seq<IndexEntryView>, i: int, b: u8)
    requires
        0 <= i < index_content(es).len(),
        b != index_bytes(es)[i],
        digest_of(index_bytes(es).update(i, b).subrange(0, index_content(es).len() as int))
            != digest_of(index_content(es)),
    ensures
        deserialize_spec(index_bytes(es).update(i, b)) == Err::<Seq<IndexEntryView>, IndexError>(
            IndexError::BadChecksum,
        ),
{
    let c = index_content(es);
    let s = index_bytes(es);
    let t = s.update(i, b);
    let n = t.len() as int;
    crate::bytes::lemma_be32(2);
    crate::bytes::lemma_be32(es.len() as u32);
    crate::bytes::lemma_be16(0);
    assert(n == c.len() + 20);
    assert(t.subrange(n - 20, n) =~= digest_of(c));
}

/// No two entries have the same path.
pub open spec fn distinct_paths(es: Seq<IndexEntryView>) -> bool {
    forall|i: int, j: int| 0 <= i < j < es.len() ==> key(#[trigger] es[i]) != key(#[trigger] es[j])
}

/// Adding an entry whose path is new adds exactly that entry.
proof fn lemma_insert_sorted_contents(es: Seq<IndexEntryView>, e: IndexEntryView, v: IndexEntryView)
    requires
        forall|j: int| 0 <= j < es.len() ==> key(#[trigger] es[j]) != key(e),
    ensures
        insert_sorted(es, e).contains(v) <==> (es.contains(v) || v == e),
    decreases es.len(),
{
    let r = insert_sorted(es, e);
    if es.len() == 0 {
        assert(r =~= seq![e]);
        if r.contains(v) {
            let i = choose|i: int| 0 <= i < r.len() && r[i] == v;
            assert(r[i] == e);
        }
        assert(r[0] == e);
    } else if bytes_lt(key(es.last()), key(e)) {
        assert(r == es.push(e));
        if r.contains(v) {
            let i = choose|i: int| 0 <= i < r.len() && r[i] == v;
            if i < es.len() {
                assert(es[i] == v);
            }
        }
        if es.contains(v) {
            let i = choose|i: int| 0 <= i < es.len() && es[i] == v;
            assert(r[i] == v);
        }
        assert(r[es.len() as int] == e);
    } else {
        let p = es.drop_last();
        assert forall|j: int| 0 <= j < p.len() implies key(#[trigger] p[j]) != key(e) by {
            assert(p[j] == es[j]);
        }
        assert(key(es.last()) != key(e)) by {
            assert(es.last() == es[es.len() - 1]);
        }
        lemma_insert_sorted_contents(p, e, v);
        let q = insert_sorted(p, e);
        assert(r == q.push(es.last()));
        if r.contains(v) {
            let i = choose|i: int| 0 <= i < r.len() && r[i] == v;
            if i < q.len() {
                assert(q[i] == v);
                if p.contains(v) {
                    let k = choose|k: int| 0 <= k < p.len() && p[k] == v;
                    assert(es[k] == v);
                }
            } else {
                assert(es[es.len() - 1] == v);
            }
        }
        if es.contains(v) {
            let i = choose|i: int| 0 <= i < es.len() && es[i] == v;
            if i < p.len() {
                assert(p[i] == v);
                let k = choose|k: int| 0 <= k < q.len() && q[k] == v;
                assert(r[k] == v);
            } else {
                assert(r[q.len() as int] == v);
            }
        }
        if v == e {
            let k = choose|k: int| 0 <= k < q.len() && q[k] == v;
            assert(r[k] == v);
        }
    }
}

/// With distinct paths, the index built from `es` holds exactly the entries
/// of `es`.
proof fn lemma_insert_all_contents(es: Seq<IndexEntryView>)
    requires
        distinct_paths(es),
    ensures
        forall|v: IndexEntryView| insert_all(es).contains(v) <==> es.contains(v),
    decreases es.len(),
{
    if es.len() > 0 {
        let p = es.drop_last();
        let e = es.last();
        assert(distinct_paths(p)) by {
            assert forall|i: int, j: int| 0 <= i < j < p.len() implies key(#[trigger] p[i]) != key(#[trigger] p[j]) by {
                assert(p[i] == es[i] && p[j] == es[j]);
            }
        }
        lemma_insert_all_contents(p);
        let m = insert_all(p);
        assert forall|j: int| 0 <= j < m.len() implies key(#[trigger] m[j]) != key(e) by {
            assert(m.contains(m[j]));
            assert(p.contains(m[j]));
            let k = choose|k: int| 0 <= k < p.len() && p[k] == m[j];
            assert(es[k] == p[k]);
            assert(key(es[k]) != key(es[es.len() - 1]));
        }
        assert forall|v: IndexEntryView| insert_all(es).contains(v) <==> es.contains(v) by {
            lemma_insert_sorted_contents(m, e, v);
            if es.contains(v) {
                let k = choose|k: int| 0 <= k < es.len() && es[k] == v;
                if k < p.len() {
                    assert(p[k] == v);
                }
            }
            if p.contains(v) {
                let k = choose|k: int| 0 <= k < p.len() && p[k] == v;
                assert(es[k] == v);
            }
            if v == e {
                assert(es[es.len() - 1] == v);
            }
        }
    }
}

/// Two sorted sequences of entries with the same elements are equal.
proof fn lemma_sorted_unique(x: Seq<IndexEntryView>, y: Seq<IndexEntryView>)
    requires
        sorted(x),
        sorted(y),
        forall|v: IndexEntryView| x.contains(v) <==> y.contains(v),
    ensures
        x == y,
    decreases x.len(),
{
    if x.len() == 0 {
        if y.len() > 0 {
            assert(y.contains(y[0]));
        }
        assert(x =~= y);
    } else if y.len() == 0 {
        assert(x.contains(x[0]));
    } else {
        assert(x.contains(x[0]));
        let j = choose|j: int| 0 <= j < y.len() && y[j] == x[0];
        assert(y.contains(y[0]));
        let i = choose|i: int| 0 <= i < x.len() && x[i] == y[0];
        if j > 0 {
            assert(bytes_lt(key(y[0]), key(y[j])));
            if i > 0 {
                assert(bytes_lt(key(x[0]), key(x[i])));
                lemma_bytes_lt_transitive(key(y[0]), key(x[0]), key(y[0]));
            }
            lemma_bytes_lt_irreflexive(key(y[0]));
        }
        assert(x[0] == y[0]);
        let x1 = x.drop_first();
        let y1 = y.drop_first();
        assert forall|v: IndexEntryView| x1.contains(v) <==> y1.contains(v) by {
            if x1.contains(v) {
                let k = choose|k: int| 0 <= k < x1.len() && x1[k] == v;
                assert(x[k + 1] == v);
                assert(bytes_lt(key(x[0]), key(x[k + 1])));
                lemma_bytes_lt_irreflexive(key(x[0]));
                assert(y.contains(v));
                let l = choose|l: int| 0 <= l < y.len() && y[l] == v;
                assert(l != 0);
                assert(y1[l - 1] == v);
            }
            if y1.contains(v) {
                let k = choose|k: int| 0 <= k < y1.len() && y1[k] == v;
                assert(y[k + 1] == v);
                assert(bytes_lt(key(y[0]), key(y[k + 1])));
                lemma_bytes_lt_irreflexive(key(y[0]));
                assert(x.contains(v));
                let l = choose|l: int| 0 <= l < x.len() && x[l] == v;
                assert(l != 0);
                assert(x1[l - 1] == v);
            }
        }
        assert(sorted(x1)) by {
            assert forall|a: int, b: int| 0 <= a < b < x1.len() implies bytes_lt(key(#[trigger] x1[a]), key(#[trigger] x1[b])) by {
                assert(x1[a] == x[a + 1] && x1[b] == x[b + 1]);
            }
        }
        assert(sorted(y1)) by {
            assert forall|a: int, b: int| 0 <= a < b < y1.len() implies bytes_lt(key(#[trigger] y1[a]), key(#[trigger] y1[b])) by {
                assert(y1[a] == y[a + 1] && y1[b] == y[b + 1]);
            }
        }
        lemma_sorted_unique(x1, y1);
        assert(x =~= seq![x[0]] + x1);
        assert(y =~= seq![y[0]] + y1);
    }
}

/// Staging the same entries, each path once, in any order gives the same
/// index.
pub proof fn lemma_staging_order_irrelevant(a: Seq<IndexEntryView>, b: Seq<IndexEntryView>)
    requires
        distinct_paths(a),
        distinct_paths(b),
        forall|v: IndexEntryView| a.contains(v) <==> b.contains(v),
    ensures
        insert_all(a) == insert_all(b),
{
    lemma_insert_all_contents(a);
    lemma_insert_all_contents(b);
    lemma_insert_all_sorted(a);
    lemma_insert_all_sorted(b);
    assert forall|v: IndexEntryView| insert_all(a).contains(v) <==> insert_all(b).contains(v) by {
        assert(insert_all(a).contains(v) <==> a.contains(v));
        assert(insert_all(b).contains(v) <==> b.contains(v));
    }
    lemma_sorted_unique(insert_all(a), insert_all(b));
}

} // verus!
