//! Commit objects: a tree, its parents, an author with a timestamp, and a
//! message, with their text form.

use vstd::prelude::*;
use vstd::utf8::*;
use crate::bytes::{push_all, push_signed_decimal, parse_i64, signed_value, signed_decimal};
use crate::hash::{hex_chars, hex_bytes, is_hash_text};
use crate::text::{find, find_byte, no_byte, no_char, utf8_text};

verus! {

/// Seconds east of UTC named by an offset text, as chrono reads it.
pub uninterp spec fn chrono_offset_of(s: Seq<char>) -> Option<i32>;

/// Whether chrono can represent the instant `seconds` after the epoch.
pub uninterp spec fn chrono_timestamp_ok(seconds: i64) -> bool;

/// The text `+HH:MM` or `-HH:MM` for an offset of whole minutes below a day.
pub open spec fn offset_text(offset: i32) -> Seq<u8> {
    let a: int = if offset < 0 {
        -offset
    } else {
        offset as int
    };
    let h = a / 3600;
    let m = (a % 3600) / 60;
    seq![
        if offset < 0 {
            45u8
        } else {
            43u8
        },
        (48 + h / 10) as u8,
        (48 + h % 10) as u8,
        58u8,
        (48 + m / 10) as u8,
        (48 + m % 10) as u8,
    ]
}

/// Relies on chrono's `FromStr for FixedOffset`, which reads a sign, two
/// hour digits, an optional colon and two minute digits: on `+HH:MM` and
/// `-HH:MM` with hours below 24 it gives that offset in seconds.
#[verifier::external_body]
fn parse_offset(s: &str) -> (r: Option<i32>)
    ensures
        r == chrono_offset_of(s@),
        forall|o: i32|
            -86400 < o < 86400 && o % 60 == 0 && s@ == #[trigger] offset_chars(o) ==> r == Some(o),
{
    s.parse::<chrono::FixedOffset>().ok().map(|o| o.local_minus_utc())
}

/// Relies on chrono::DateTime::from_timestamp, which `TimeZone::timestamp_opt`
/// calls: whether chrono represents the instant `seconds` after the epoch.
#[verifier::external_body]
fn timestamp_exists(seconds: i64) -> (r: bool)
    ensures
        r == chrono_timestamp_ok(seconds),
{
    chrono::DateTime::from_timestamp(seconds, 0).is_some()
}

/// An instant, in seconds after the epoch, and the author's offset from UTC
/// in seconds east.
#[derive(Clone, Copy, PartialEq, Eq, Structural, Debug)]
pub struct Timestamp {
    pub seconds: i64,
    pub offset: i32,
}

impl Timestamp {
    /// The offset is whole minutes less than a day away from UTC, and chrono
    /// represents the instant.
    pub open spec fn wf(self) -> bool {
        &&& -86400 < self.offset < 86400
        &&& self.offset % 60 == 0
        &&& chrono_timestamp_ok(self.seconds)
    }
}

/// The text of a timestamp: seconds, a space, and the offset.
pub open spec fn timestamp_text(t: Timestamp) -> Seq<u8> {
    signed_decimal(t.seconds as int) + seq![32u8] + offset_text(t.offset)
}

pub struct PersonTime {
    pub name: String,
    pub email: String,
    pub timestamp: Timestamp,
}

pub ghost struct PersonTimeView {
    pub name: Seq<char>,
    pub email: Seq<char>,
    pub timestamp: Timestamp,
}

impl View for PersonTime {
    type V = PersonTimeView;

    open spec fn view(&self) -> PersonTimeView {
        PersonTimeView { name: self.name@, email: self.email@, timestamp: self.timestamp }
    }
}

pub struct CommitObject {
    pub tree_hash: crate::hash::Hash,
    pub parent_hashes: Vec<crate::hash::Hash>,
    pub author: PersonTime,
    pub message: String,
}

pub ghost struct CommitView {
    pub tree: Seq<u8>,
    pub parents: Seq<Seq<u8>>,
    pub author: PersonTimeView,
    pub message: Seq<char>,
}

impl View for CommitObject {
    type V = CommitView;

    open spec fn view(&self) -> CommitView {
        CommitView {
            tree: self.tree_hash@,
            parents: self.parent_hashes@.map_values(|h: crate::hash::Hash| h@),
            author: self.author@,
            message: self.message@,
        }
    }
}

pub open spec fn tree_key() -> Seq<u8> {
    seq![116u8, 114, 101, 101]
}

pub open spec fn parent_key() -> Seq<u8> {
    seq![112u8, 97, 114, 101, 110, 116]
}

pub open spec fn author_key() -> Seq<u8> {
    seq![97u8, 117, 116, 104, 111, 114]
}

/// The ASCII bytes of the hexadecimal text of a hash.
pub open spec fn hex_text(h: Seq<u8>) -> Seq<u8> {
    encode_utf8(hex_chars(h))
}

pub open spec fn parent_lines(ps: Seq<Seq<u8>>) -> Seq<u8>
    decreases ps.len(),
{
    if ps.len() == 0 {
        Seq::empty()
    } else {
        parent_lines(ps.drop_last()) + parent_key() + seq![9u8] + hex_text(ps.last()) + seq![10u8]
    }
}

/// The `author` line of a commit, without its line break.
pub open spec fn author_text(a: PersonTimeView) -> Seq<u8> {
    author_key() + seq![9u8] + encode_utf8(a.name) + seq![9u8, 60u8] + encode_utf8(a.email) + seq![
        62u8,
        9u8,
    ] + timestamp_text(a.timestamp)
}

/// The `author` line of a commit, with its line break.
pub open spec fn author_line(a: PersonTimeView) -> Seq<u8> {
    author_text(a) + seq![10u8]
}

/// The text form of a commit: a `tree` line, a `parent` line per parent,
/// an `author` line, a blank line, and the message.
pub open spec fn commit_bytes(c: CommitView) -> Seq<u8> {
    tree_key() + seq![9u8] + hex_text(c.tree) + seq![10u8] + parent_lines(c.parents)
        + author_line(c.author) + seq![10u8] + encode_utf8(c.message)
}

/// What one header line of a commit states.
pub ghost enum CommitLine {
    Tree(Seq<u8>),
    Parent(Seq<u8>),
    Author(PersonTimeView),
}

/// The header fields read so far.
pub ghost struct CommitFields {
    pub tree: Option<Seq<u8>>,
    pub parents: Seq<Seq<u8>>,
    pub author: Option<PersonTimeView>,
}

/// The first index `i` in `from .. to - 1` where a blank line starts
/// (`s[i]` and `s[i + 1]` are both line breaks), or `to`.
pub open spec fn find_blank_line(s: Seq<u8>, from: int, to: int) -> int
    decreases to - from,
{
    if from + 1 >= to {
        to
    } else if s[from] == 10 && s[from + 1] == 10 {
        from
    } else {
        find_blank_line(s, from + 1, to)
    }
}

/// The hash whose forty hexadecimal digits are `s[from..to]`.
pub open spec fn hash_arg(s: Seq<u8>, from: int, to: int) -> Option<Seq<u8>> {
    let a = s.subrange(from, to);
    if valid_utf8(a) && is_hash_text(decode_utf8(a)) {
        Some(hex_bytes(decode_utf8(a)))
    } else {
        None
    }
}

/// The timestamp in `s[from..to]`: seconds, a space, an offset, and
/// optionally a space and more text, which is ignored.
pub open spec fn timestamp_arg(s: Seq<u8>, from: int, to: int) -> Option<Timestamp> {
    let sp = find(s, 32, from, to);
    let sp2 = find(s, 32, sp + 1, to);
    let secs = signed_value(s.subrange(from, sp));
    let off = s.subrange(sp + 1, sp2);
    if sp < to && secs is Some && i64::MIN <= secs->0 <= i64::MAX && valid_utf8(off)
        && chrono_offset_of(decode_utf8(off)) is Some && chrono_timestamp_ok(secs->0 as i64) {
        Some(Timestamp { seconds: secs->0 as i64, offset: chrono_offset_of(decode_utf8(off))->0 })
    } else {
        None
    }
}

/// The author in `s[from..to]`: a name, a tab, `<email>`, a tab, and a
/// timestamp.
pub open spec fn author_arg(s: Seq<u8>, from: int, to: int) -> Option<PersonTimeView> {
    let t1 = find(s, 9, from, to);
    let t2 = find(s, 9, t1 + 1, to);
    let name = s.subrange(from, t1);
    let email = s.subrange(t1 + 2, t2 - 1);
    if t1 < to && t2 < to && find(s, 9, t2 + 1, to) == to && valid_utf8(name) && t2 - t1 >= 3
        && s[t1 + 1] == 60 && s[t2 - 1] == 62 && valid_utf8(email) && timestamp_arg(
        s,
        t2 + 1,
        to,
    ) is Some {
        Some(
            PersonTimeView {
                name: decode_utf8(name),
                email: decode_utf8(email),
                timestamp: timestamp_arg(s, t2 + 1, to)->0,
            },
        )
    } else {
        None
    }
}

/// What the header line `s[from..to]` states: a field name, a tab, and the
/// field's tab-separated arguments.
pub open spec fn parse_line(s: Seq<u8>, from: int, to: int) -> Option<CommitLine> {
    let t = find(s, 9, from, to);
    let key = s.subrange(from, t);
    if t >= to {
        None
    } else if key == tree_key() || key == parent_key() {
        if find(s, 9, t + 1, to) == to && hash_arg(s, t + 1, to) is Some {
            if key == tree_key() {
                Some(CommitLine::Tree(hash_arg(s, t + 1, to)->0))
            } else {
                Some(CommitLine::Parent(hash_arg(s, t + 1, to)->0))
            }
        } else {
            None
        }
    } else if key == author_key() {
        match author_arg(s, t + 1, to) {
            Some(a) => Some(CommitLine::Author(a)),
            None => None,
        }
    } else {
        None
    }
}

/// Adds one header line to the fields read so far; `tree` and `author` may
/// each come once.
pub open spec fn add_line(f: CommitFields, line: CommitLine) -> Option<CommitFields> {
    match line {
        CommitLine::Tree(h) => if f.tree is Some {
            None
        } else {
            Some(CommitFields { tree: Some(h), ..f })
        },
        CommitLine::Parent(h) => Some(CommitFields { parents: f.parents.push(h), ..f }),
        CommitLine::Author(a) => if f.author is Some {
            None
        } else {
            Some(CommitFields { author: Some(a), ..f })
        },
    }
}

/// Reads the header lines of `s[from..to]`, one per line break.
pub open spec fn parse_lines(s: Seq<u8>, from: int, to: int, f: CommitFields) -> Option<
    CommitFields,
>
    decreases to - from,
{
    let e = find(s, 10, from, to);
    match parse_line(s, from, e) {
        None => None,
        Some(line) => match add_line(f, line) {
            None => None,
            Some(f2) => if e >= to || from >= to {
                Some(f2)
            } else {
                parse_lines(s, e + 1, to, f2)
            },
        },
    }
}

pub open spec fn no_fields() -> CommitFields {
    CommitFields { tree: None, parents: Seq::empty(), author: None }
}

/// The commit that the text `s` states, if it is one: header lines, a blank
/// line, and a message; exactly one `tree` and one `author` line.
pub open spec fn parse_commit(s: Seq<u8>) -> Option<CommitView> {
    let k = find_blank_line(s, 0, s.len() as int);
    let msg = s.subrange(k + 2, s.len() as int);
    if k < s.len() && valid_utf8(msg) {
        match parse_lines(s, 0, k, no_fields()) {
            Some(f) => if f.tree is Some && f.author is Some {
                Some(
                    CommitView {
                        tree: f.tree->0,
                        parents: f.parents,
                        author: f.author->0,
                        message: decode_utf8(msg),
                    },
                )
            } else {
                None
            },
            None => None,
        }
    } else {
        None
    }
}

fn push_str(out: &mut Vec<u8>, s: &str)
    ensures
        final(out)@ == old(out)@ + encode_utf8(s@),
{
    push_all(out, s.as_bytes());
}

fn push_author(out: &mut Vec<u8>, a: &PersonTime)
    ensures
        final(out)@ == old(out)@ + author_line(a@),
{
    out.push(97);
    out.push(117);
    out.push(116);
    out.push(104);
    out.push(111);
    out.push(114);
    out.push(9);
    push_str(out, a.name.as_str());
    out.push(9);
    out.push(60);
    push_str(out, a.email.as_str());
    out.push(62);
    out.push(9);
    push_signed_decimal(out, a.timestamp.seconds);
    out.push(32);
    push_offset(out, a.timestamp.offset);
    out.push(10);
    proof {
        assert(final(out)@ =~= old(out)@ + author_line(a@));
    }
}

/// Appends the `+HH:MM` text of an offset.
fn push_offset(out: &mut Vec<u8>, offset: i32)
    ensures
        final(out)@ == old(out)@ + offset_text(offset),
{
    let a: i64 = if offset < 0 {
        0 - offset as i64
    } else {
        offset as i64
    };
    let h = a / 3600;
    let m = (a % 3600) / 60;
    out.push(if offset < 0 {
        45
    } else {
        43
    });
    out.push((48 + h / 10) as u8);
    out.push((48 + h % 10) as u8);
    out.push(58);
    out.push((48 + m / 10) as u8);
    out.push((48 + m % 10) as u8);
    proof {
        assert(final(out)@ =~= old(out)@ + offset_text(offset));
    }
}

proof fn lemma_find_blank_line(s: Seq<u8>, from: int, to: int)
    requires
        0 <= from <= to <= s.len(),
    ensures
        from <= find_blank_line(s, from, to) <= to,
        find_blank_line(s, from, to) < to ==> find_blank_line(s, from, to) + 1 < to,
    decreases to - from,
{
    if from + 1 < to && !(s[from] == 10 && s[from + 1] == 10) {
        lemma_find_blank_line(s, from + 1, to);
    }
}

fn find_blank(s: &[u8], from: usize, to: usize) -> (r: usize)
    requires
        from <= to <= s@.len(),
    ensures
        r == find_blank_line(s@, from as int, to as int),
{
    let mut i = from;
    while i < to && to - i >= 2
        invariant
            from <= i <= to <= s@.len(),
            find_blank_line(s@, from as int, to as int) == find_blank_line(
                s@,
                i as int,
                to as int,
            ),
        decreases to - i,
    {
        if s[i] == 10 && s[i + 1] == 10 {
            return i;
        }
        i = i + 1;
    }
    to
}

fn is_key(s: &[u8], from: usize, to: usize, key: &[u8]) -> (r: bool)
    requires
        from <= to <= s@.len(),
    ensures
        r == (s@.subrange(from as int, to as int) == key@),
{
    if to - from != key.len() {
        return false;
    }
    let mut i: usize = 0;
    while i < key.len()
        invariant
            to - from == key@.len(),
            from <= to <= s@.len(),
            0 <= i <= key@.len(),
            forall|j: int| 0 <= j < i ==> s@[from + j] == key@[j],
        decreases key@.len() - i,
    {
        if s[from + i] != key[i] {
            proof {
                assert(s@.subrange(from as int, to as int)[i as int] != key@[i as int]);
            }
            return false;
        }
        i = i + 1;
    }
    proof {
        assert(s@.subrange(from as int, to as int) =~= key@);
    }
    true
}

fn read_hash_arg(s: &[u8], from: usize, to: usize) -> (r: Option<crate::hash::Hash>)
    requires
        from <= to <= s@.len(),
    ensures
        r is Some <==> hash_arg(s@, from as int, to as int) is Some,
        r is Some ==> r->0@ == hash_arg(s@, from as int, to as int)->0,
{
    match utf8_text(s, from, to) {
        Some(text) => crate::hash::Hash::from_str(text.as_str()),
        None => None,
    }
}

fn read_timestamp(s: &[u8], from: usize, to: usize) -> (r: Option<Timestamp>)
    requires
        from <= to <= s@.len(),
    ensures
        r == timestamp_arg(s@, from as int, to as int),
{
    let sp = find_byte(s, 32, from, to);
    if sp >= to {
        return None;
    }
    let sp2 = find_byte(s, 32, sp + 1, to);
    let secs = match parse_i64(s, from, sp) {
        Some(v) => v,
        None => return None,
    };
    let off_text = match utf8_text(s, sp + 1, sp2) {
        Some(t) => t,
        None => return None,
    };
    let offset = match parse_offset(off_text.as_str()) {
        Some(o) => o,
        None => return None,
    };
    if !timestamp_exists(secs) {
        return None;
    }
    Some(Timestamp { seconds: secs, offset })
}

fn read_author(s: &[u8], from: usize, to: usize) -> (r: Option<PersonTime>)
    requires
        from <= to <= s@.len(),
    ensures
        r is Some <==> author_arg(s@, from as int, to as int) is Some,
        r is Some ==> r->0@ == author_arg(s@, from as int, to as int)->0,
{
    let t1 = find_byte(s, 9, from, to);
    if t1 >= to {
        return None;
    }
    let t2 = find_byte(s, 9, t1 + 1, to);
    if t2 >= to || find_byte(s, 9, t2 + 1, to) != to || t2 - t1 < 3 {
        return None;
    }
    if s[t1 + 1] != 60 || s[t2 - 1] != 62 {
        return None;
    }
    let name = match utf8_text(s, from, t1) {
        Some(t) => t,
        None => return None,
    };
    let email = match utf8_text(s, t1 + 2, t2 - 1) {
        Some(t) => t,
        None => return None,
    };
    match read_timestamp(s, t2 + 1, to) {
        Some(timestamp) => Some(PersonTime { name, email, timestamp }),
        None => None,
    }
}

/// The header fields read so far, as values.
struct Fields {
    tree: Option<crate::hash::Hash>,
    parents: Vec<crate::hash::Hash>,
    author: Option<PersonTime>,
}

impl View for Fields {
    type V = CommitFields;

    closed spec fn view(&self) -> CommitFields {
        CommitFields {
            tree: match self.tree {
                Some(h) => Some(h@),
                None => None,
            },
            parents: self.parents@.map_values(|h: crate::hash::Hash| h@),
            author: match self.author {
                Some(a) => Some(a@),
                None => None,
            },
        }
    }
}

/// Reads the header line `s[from..to]` into `f`; false when the line is not
/// a valid field or repeats `tree` or `author`.
fn read_line(s: &[u8], from: usize, to: usize, f: &mut Fields) -> (ok: bool)
    requires
        from <= to <= s@.len(),
    ensures
        ok <==> (parse_line(s@, from as int, to as int) is Some && add_line(
            old(f)@,
            parse_line(s@, from as int, to as int)->0,
        ) is Some),
        ok ==> final(f)@ == add_line(old(f)@, parse_line(s@, from as int, to as int)->0)->0,
{
    let t = find_byte(s, 9, from, to);
    if t >= to {
        return false;
    }
    let is_tree = is_key(s, from, t, &[116u8, 114, 101, 101]);
    let is_parent = is_key(s, from, t, &[112u8, 97, 114, 101, 110, 116]);
    let is_author = is_key(s, from, t, &[97u8, 117, 116, 104, 111, 114]);
    proof {
        assert(seq![116u8, 114, 101, 101] == tree_key());
        assert(seq![112u8, 97, 114, 101, 110, 116] == parent_key());
        assert(seq![97u8, 117, 116, 104, 111, 114] == author_key());
    }
    if is_tree || is_parent {
        if find_byte(s, 9, t + 1, to) != to {
            return false;
        }
        let h = match read_hash_arg(s, t + 1, to) {
            Some(h) => h,
            None => return false,
        };
        if is_tree {
            if f.tree.is_some() {
                return false;
            }
            f.tree = Some(h);
        } else {
            f.parents.push(h);
            proof {
                assert(f.parents@.map_values(|h: crate::hash::Hash| h@) =~= old(f).parents@.map_values(
                    |h: crate::hash::Hash| h@,
                ).push(h@));
            }
        }
        true
    } else if is_author {
        let a = match read_author(s, t + 1, to) {
            Some(a) => a,
            None => return false,
        };
        if f.author.is_some() {
            return false;
        }
        f.author = Some(a);
        true
    } else {
        false
    }
}

/// Why a commit text was refused.
pub enum CommitError {
    /// No blank line separates the header from the message.
    NoBlankLine,
    /// A header line is not a valid field, or the fields are not exactly one
    /// `tree`, any number of `parent`s and one `author`.
    BadHeader,
    /// The message is not UTF-8 text.
    BadMessage,
}

impl CommitObject {
    /// A commit of `tree_hash` with the given parents, authored by `user` at
    /// `timestamp`.
    pub fn new(
        tree_hash: crate::hash::Hash,
        parent_hashes: Vec<crate::hash::Hash>,
        user: crate::config::User,
        message: String,
        timestamp: Timestamp,
    ) -> (r: CommitObject)
        ensures
            r@ == (CommitView {
                tree: tree_hash@,
                parents: parent_hashes@.map_values(|h: crate::hash::Hash| h@),
                author: PersonTimeView {
                    name: user.name@,
                    email: user.email@,
                    timestamp: timestamp,
                },
                message: message@,
            }),
    {
        CommitObject {
            tree_hash,
            parent_hashes,
            author: PersonTime { name: user.name, email: user.email, timestamp },
            message,
        }
    }

    /// The text form of the commit, as bytes.
    pub fn to_bytes(&self) -> (r: Vec<u8>)
        ensures
            r@ == commit_bytes(self@),
    {
        let mut out: Vec<u8> = Vec::new();
        out.push(116);
        out.push(114);
        out.push(101);
        out.push(101);
        out.push(9);
        push_str(&mut out, self.tree_hash.as_str());
        out.push(10);
        proof {
            assert(out@ =~= tree_key() + seq![9u8] + hex_text(self@.tree) + seq![10u8]
                + parent_lines(self@.parents.subrange(0, 0)));
        }
        let mut i: usize = 0;
        while i < self.parent_hashes.len()
            invariant
                0 <= i <= self.parent_hashes@.len(),
                out@ == tree_key() + seq![9u8] + hex_text(self@.tree) + seq![10u8] + parent_lines(
                    self@.parents.subrange(0, i as int),
                ),
            decreases self.parent_hashes@.len() - i,
        {
            let ghost before = out@;
            out.push(112);
            out.push(97);
            out.push(114);
            out.push(101);
            out.push(110);
            out.push(116);
            out.push(9);
            push_str(&mut out, self.parent_hashes[i].as_str());
            out.push(10);
            proof {
                let ps = self@.parents.subrange(0, i as int + 1);
                assert(ps.drop_last() =~= self@.parents.subrange(0, i as int));
                assert(ps.last() == self.parent_hashes@[i as int]@);
                assert(out@ =~= before + parent_key() + seq![9u8] + hex_text(ps.last()) + seq![
                    10u8,
                ]);
            }
            i = i + 1;
        }
        proof {
            assert(self@.parents.subrange(0, i as int) =~= self@.parents);
        }
        let ghost mid = out@;
        push_author(&mut out, &self.author);
        out.push(10);
        push_str(&mut out, self.message.as_str());
        proof {
            assert(out@ =~= commit_bytes(self@));
        }
        out
    }

    /// Reads the text form of a commit.
    pub fn from_bytes(s: &[u8]) -> (r: Result<CommitObject, CommitError>)
        ensures
            r is Ok <==> parse_commit(s@) is Some,
            r is Ok ==> r->Ok_0@ == parse_commit(s@)->0,
            find_blank_line(s@, 0, s@.len() as int) >= s@.len() ==> r is Err && r->Err_0
                is NoBlankLine,
            find_blank_line(s@, 0, s@.len() as int) < s@.len() && !valid_utf8(
                s@.subrange(find_blank_line(s@, 0, s@.len() as int) + 2, s@.len() as int),
            ) ==> r is Err && r->Err_0 is BadMessage,
            find_blank_line(s@, 0, s@.len() as int) < s@.len() && valid_utf8(
                s@.subrange(find_blank_line(s@, 0, s@.len() as int) + 2, s@.len() as int),
            ) && parse_commit(s@) is None ==> r is Err && r->Err_0 is BadHeader,
    {
        let k = find_blank(s, 0, s.len());
        proof {
            lemma_find_blank_line(s@, 0, s@.len() as int);
        }
        if k >= s.len() {
            return Err(CommitError::NoBlankLine);
        }
        let message = match utf8_text(s, k + 2, s.len()) {
            Some(m) => m,
            None => return Err(CommitError::BadMessage),
        };
        let mut f = Fields { tree: None, parents: Vec::new(), author: None };
        proof {
            assert(f@.parents =~= Seq::<Seq<u8>>::empty());
        }
        let mut from: usize = 0;
        loop
            invariant_except_break
                parse_lines(s@, 0, k as int, no_fields()) == parse_lines(
                    s@,
                    from as int,
                    k as int,
                    f@,
                ),
            invariant
                from <= k < s@.len(),
                k == find_blank_line(s@, 0, s@.len() as int),
                valid_utf8(s@.subrange(k + 2, s@.len() as int)),
                message@ == decode_utf8(s@.subrange(k + 2, s@.len() as int)),
            ensures
                parse_lines(s@, 0, k as int, no_fields()) == Some(f@),
            decreases k - from,
        {
            let e = find_byte(s, 10, from, k);
            if !read_line(s, from, e, &mut f) {
                return Err(CommitError::BadHeader);
            }
            if e >= k || from >= k {
                break;
            }
            from = e + 1;
        }
        match (f.tree, f.author) {
            (Some(tree_hash), Some(author)) => Ok(
                CommitObject { tree_hash, parent_hashes: f.parents, author, message },
            ),
            _ => Err(CommitError::BadHeader),
        }
    }
}

/// The offset text as characters.
pub open spec fn offset_chars(offset: i32) -> Seq<char> {
    offset_text(offset).map_values(|b: u8| b as char)
}

/// A commit whose text reads back as the same commit: twenty-byte hashes,
/// a name and an email without tabs or line breaks, and a timestamp that is
/// well formed and whose offset text chrono reads back.
pub open spec fn valid_commit(c: CommitView) -> bool {
    &&& c.tree.len() == 20
    &&& forall|i: int| 0 <= i < c.parents.len() ==> (#[trigger] c.parents[i]).len() == 20
    &&& no_char(c.author.name, 9) && no_char(c.author.name, 10)
    &&& no_char(c.author.email, 9) && no_char(c.author.email, 10)
    &&& c.author.timestamp.wf()
    &&& chrono_offset_of(offset_chars(c.author.timestamp.offset)) == Some(c.author.timestamp.offset)
}

proof fn lemma_subrange_of(s: Seq<u8>, p: int, r: Seq<u8>, a: int, b: int)
    requires
        0 <= p,
        p + r.len() <= s.len(),
        s.subrange(p, p + r.len()) == r,
        0 <= a <= b <= r.len(),
    ensures
        s.subrange(p + a, p + b) == r.subrange(a, b),
{
    assert(s.subrange(p + a, p + b) =~= r.subrange(a, b)) by {
        assert forall|t: int| 0 <= t < b - a implies s.subrange(p + a, p + b)[t] == r.subrange(a, b)[t] by {
            assert(s.subrange(p, p + r.len())[a + t] == s[p + a + t]);
        }
    }
}

proof fn lemma_at(s: Seq<u8>, p: int, r: Seq<u8>, a: int)
    requires
        0 <= p,
        p + r.len() <= s.len(),
        s.subrange(p, p + r.len()) == r,
        0 <= a < r.len(),
    ensures
        s[p + a] == r[a],
{
    assert(s.subrange(p, p + r.len())[a] == s[p + a]);
}

/// The hexadecimal text of a hash has no tab, line break or space, and reads
/// back as the hash.
proof fn lemma_hex_text(h: Seq<u8>)
    requires
        h.len() == 20,
    ensures
        no_byte(hex_text(h), 9),
        no_byte(hex_text(h), 10),
        no_byte(hex_text(h), 32),
        valid_utf8(hex_text(h)),
        is_hash_text(decode_utf8(hex_text(h))),
        hex_bytes(decode_utf8(hex_text(h))) == h,
        hex_text(h).len() == 40,
{
    let cs = hex_chars(h);
    crate::hash::lemma_hex_chars_ascii(h);
    crate::hash::lemma_hex_chars_len(h);
    crate::hash::lemma_hex_round_trip(h);
    assert(is_ascii_chars(cs));
    is_ascii_chars_encode_utf8(cs);
    crate::text::lemma_utf8_no_byte(cs, 9);
    crate::text::lemma_utf8_no_byte(cs, 10);
    crate::text::lemma_utf8_no_byte(cs, 32);
    encode_utf8_valid_utf8(cs);
    encode_utf8_decode_utf8(cs);
}

/// The offset text of a well-formed offset is ASCII without tab, space or
/// line break, and reads as the characters chrono is given.
proof fn lemma_offset_text(o: i32)
    requires
        -86400 < o < 86400,
    ensures
        no_byte(offset_text(o), 9),
        no_byte(offset_text(o), 10),
        no_byte(offset_text(o), 32),
        valid_utf8(offset_text(o)),
        decode_utf8(offset_text(o)) == offset_chars(o),
{
    let t = offset_text(o);
    let cs = offset_chars(o);
    assert(forall|i: int| 0 <= i < t.len() ==> 40 <= #[trigger] t[i] < 128);
    assert forall|i: int| 0 <= i < cs.len() implies '\0' <= #[trigger] cs[i] <= '\u{7f}' by {
        assert(cs[i] == t[i] as char);
        assert(40 <= t[i] < 128);
    }
    assert(is_ascii_chars(cs));
    is_ascii_chars_encode_utf8(cs);
    assert(encode_utf8(cs) =~= t);
    encode_utf8_valid_utf8(cs);
    encode_utf8_decode_utf8(cs);
}

pub proof fn lemma_parent_lines_cons(h: Seq<u8>, rest: Seq<Seq<u8>>)
    ensures
        parent_lines(seq![h] + rest) == parent_key() + seq![9u8] + hex_text(h) + seq![10u8]
            + parent_lines(rest),
    decreases rest.len(),
{
    let x = seq![h] + rest;
    if rest.len() == 0 {
        assert(x.drop_last() =~= Seq::<Seq<u8>>::empty());
        assert(x.last() == h);
        assert(parent_lines(Seq::<Seq<u8>>::empty()) == Seq::<u8>::empty());
        assert(parent_lines(x) =~= parent_key() + seq![9u8] + hex_text(h) + seq![10u8] + parent_lines(rest));
    } else {
        lemma_parent_lines_cons(h, rest.drop_last());
        assert(x.drop_last() =~= seq![h] + rest.drop_last());
        assert(parent_lines(x) =~= parent_key() + seq![9u8] + hex_text(h) + seq![10u8] + parent_lines(rest));
    }
}

/// A `tree` or `parent` line at `from`, followed by more header, reads as
/// that hash.
proof fn lemma_hash_line(s: Seq<u8>, from: int, to: int, key: Seq<u8>, h: Seq<u8>)
    requires
        0 <= from,
        key == tree_key() || key == parent_key(),
        h.len() == 20,
        from + key.len() + 42 < to <= s.len(),
        s.subrange(from, from + key.len() + 42) == key + seq![9u8] + hex_text(h) + seq![10u8],
    ensures
        find(s, 10, from, to) == from + key.len() + 41,
        parse_line(s, from, from + key.len() + 41) == Some(
            if key == tree_key() {
                CommitLine::Tree(h)
            } else {
                CommitLine::Parent(h)
            },
        ),
{
    let line = key + seq![9u8] + hex_text(h) + seq![10u8];
    let k = key.len() as int;
    let e = from + k + 41;
    lemma_hex_text(h);
    assert(no_byte(key, 9) && no_byte(key, 10));
    assert(line.len() == k + 42);
    lemma_subrange_of(s, from, line, 0, k);
    assert(line.subrange(0, k) =~= key);
    lemma_at(s, from, line, k);
    crate::text::lemma_find_after(s, 9, from, e, key);
    lemma_subrange_of(s, from, line, k + 1, k + 41);
    assert(line.subrange(k + 1, k + 41) =~= hex_text(h));
    crate::text::lemma_find_none(s, 9, from + k + 1, e);
    lemma_at(s, from, line, k + 41);
    let pre = line.subrange(0, k + 41);
    assert(no_byte(pre, 10)) by {
        assert forall|i: int| 0 <= i < pre.len() implies #[trigger] pre[i] != 10 by {
            if i < k {
                assert(pre[i] == key[i]);
            } else if i > k {
                assert(pre[i] == hex_text(h)[i - k - 1]);
            }
        }
    }
    lemma_subrange_of(s, from, line, 0, k + 41);
    crate::text::lemma_find_after(s, 10, from, to, pre);
    assert(tree_key() != parent_key()) by {
        assert(tree_key().len() != parent_key().len());
    }
}

/// The author line, up to `to`, reads as that author, and holds no line
/// break.
#[verifier::rlimit(100)]
proof fn lemma_author_line(s: Seq<u8>, from: int, to: int, a: PersonTimeView)
    requires
        0 <= from,
        to <= s.len(),
        from + author_text(a).len() == to,
        s.subrange(from, to) == author_text(a),
        no_char(a.name, 9) && no_char(a.name, 10),
        no_char(a.email, 9) && no_char(a.email, 10),
        a.timestamp.wf(),
        chrono_offset_of(offset_chars(a.timestamp.offset)) == Some(a.timestamp.offset),
    ensures
        find(s, 10, from, to) == to,
        parse_line(s, from, to) == Some(CommitLine::Author(a)),
        no_byte(author_text(a), 10),
{
    let at = author_text(a);
    let n = encode_utf8(a.name);
    let em = encode_utf8(a.email);
    let ts = a.timestamp;
    let d = signed_decimal(ts.seconds as int);
    let ot = offset_text(ts.offset);
    let nl = n.len() as int;
    let el = em.len() as int;
    let dl = d.len() as int;
    crate::text::lemma_utf8_no_byte(a.name, 9);
    crate::text::lemma_utf8_no_byte(a.name, 10);
    crate::text::lemma_utf8_no_byte(a.email, 9);
    crate::text::lemma_utf8_no_byte(a.email, 10);
    crate::bytes::lemma_signed_decimal(ts.seconds as int);
    lemma_offset_text(ts.offset);
    encode_utf8_valid_utf8(a.name);
    encode_utf8_decode_utf8(a.name);
    encode_utf8_valid_utf8(a.email);
    encode_utf8_decode_utf8(a.email);
    // Positions: key, tab, name, tab, '<', email, '>', tab, seconds, space, offset.
    let t1 = from + 7 + nl;
    let t2 = t1 + 3 + el;
    let sp = t2 + 1 + dl;
    assert(at.len() == 18 + nl + el + dl);
    assert(no_byte(author_key(), 9) && no_byte(author_key(), 10));
    lemma_subrange_of(s, from, at, 0, 6);
    assert(at.subrange(0, 6) =~= author_key());
    lemma_at(s, from, at, 6);
    crate::text::lemma_find_after(s, 9, from, to, author_key());
    lemma_subrange_of(s, from, at, 7, 7 + nl);
    assert(at.subrange(7, 7 + nl) =~= n);
    lemma_at(s, from, at, 7 + nl);
    crate::text::lemma_find_after(s, 9, from + 7, to, n);
    let bracketed = seq![60u8] + em + seq![62u8];
    lemma_subrange_of(s, from, at, 8 + nl, 8 + nl + el + 2);
    assert(at.subrange(8 + nl, 8 + nl + el + 2) =~= bracketed);
    assert(no_byte(bracketed, 9)) by {
        assert forall|i: int| 0 <= i < bracketed.len() implies #[trigger] bracketed[i] != 9 by {
            if 0 < i < bracketed.len() - 1 {
                assert(bracketed[i] == em[i - 1]);
            }
        }
    }
    lemma_at(s, from, at, 8 + nl + el + 2);
    crate::text::lemma_find_after(s, 9, t1 + 1, to, bracketed);
    let tsx = timestamp_text(ts);
    lemma_subrange_of(s, from, at, 11 + nl + el, at.len() as int);
    assert(at.subrange(11 + nl + el, at.len() as int) =~= tsx);
    assert(no_byte(tsx, 9) && no_byte(tsx, 10)) by {
        assert forall|i: int| 0 <= i < tsx.len() implies #[trigger] tsx[i] != 9 && tsx[i] != 10 by {
            if i < dl {
                assert(tsx[i] == d[i]);
            } else if i > dl {
                assert(tsx[i] == ot[i - dl - 1]);
            }
        }
    }
    crate::text::lemma_find_none(s, 9, t2 + 1, to);
    lemma_at(s, from, at, 7 + nl);
    lemma_at(s, from, at, 8 + nl);
    lemma_at(s, from, at, 9 + nl + el);
    lemma_subrange_of(s, from, at, 9 + nl, 9 + nl + el);
    assert(at.subrange(9 + nl, 9 + nl + el) =~= em);
    // The timestamp.
    lemma_subrange_of(s, from, at, 11 + nl + el, 11 + nl + el + dl);
    assert(at.subrange(11 + nl + el, 11 + nl + el + dl) =~= d);
    lemma_at(s, from, at, 11 + nl + el + dl);
    assert(no_byte(d, 32));
    crate::text::lemma_find_after(s, 32, t2 + 1, to, d);
    lemma_subrange_of(s, from, at, 12 + nl + el + dl, at.len() as int);
    assert(at.subrange(12 + nl + el + dl, at.len() as int) =~= ot);
    crate::text::lemma_find_none(s, 32, sp + 1, to);
    // No line break anywhere.
    assert(no_byte(at, 10)) by {
        assert forall|i: int| 0 <= i < at.len() implies #[trigger] at[i] != 10 by {
            if i < 6 {
                assert(at[i] == author_key()[i]);
            } else if 7 <= i < 7 + nl {
                assert(at[i] == n[i - 7]);
            } else if 9 + nl <= i < 9 + nl + el {
                assert(at[i] == em[i - 9 - nl]);
            } else if i >= 11 + nl + el {
                assert(at[i] == tsx[i - 11 - nl - el]);
            }
        }
    }
    crate::text::lemma_find_none(s, 10, from, to);
    assert(timestamp_arg(s, t2 + 1, to) == Some(ts));
    assert(author_arg(s, from + 7, to) == Some(a));
}

/// Skipping a line that ends in a line break, followed by something other
/// than a line break, does not pass a blank line.
proof fn lemma_blank_skip(s: Seq<u8>, i: int, end: int, to: int)
    requires
        0 <= i < end < to <= s.len(),
        forall|j: int| i <= j < end - 1 ==> s[j] != 10,
        s[end] != 10,
    ensures
        find_blank_line(s, i, to) == find_blank_line(s, end, to),
    decreases end - i,
{
    if i + 1 < end {
        lemma_blank_skip(s, i + 1, end, to);
    }
}

proof fn lemma_blank_parents(s: Seq<u8>, from: int, to: int, ps: Seq<Seq<u8>>)
    requires
        0 <= from,
        from + parent_lines(ps).len() < to <= s.len(),
        s.subrange(from, from + parent_lines(ps).len()) == parent_lines(ps),
        s[from + parent_lines(ps).len()] != 10,
        forall|i: int| 0 <= i < ps.len() ==> (#[trigger] ps[i]).len() == 20,
    ensures
        find_blank_line(s, from, to) == find_blank_line(s, from + parent_lines(ps).len(), to),
    decreases ps.len(),
{
    if ps.len() > 0 {
        let h = ps[0];
        let rest = ps.drop_first();
        assert(ps =~= seq![h] + rest);
        lemma_parent_lines_cons(h, rest);
        let line = parent_key() + seq![9u8] + hex_text(h) + seq![10u8];
        lemma_hex_text(h);
        let pl = parent_lines(ps);
        lemma_subrange_of(s, from, pl, 0, 48);
        assert(pl.subrange(0, 48) =~= line);
        lemma_subrange_of(s, from, pl, 48, pl.len() as int);
        assert(pl.subrange(48, pl.len() as int) =~= parent_lines(rest));
        assert forall|j: int| from <= j < from + 47 implies s[j] != 10 by {
            lemma_at(s, from, line, j - from);
            if j - from >= 7 {
                assert(line[j - from] == hex_text(h)[j - from - 7]);
            }
        }
        if rest.len() > 0 {
            lemma_parent_lines_cons(rest[0], rest.drop_first());
            assert(rest =~= seq![rest[0]] + rest.drop_first());
            lemma_at(s, from + 48, parent_lines(rest), 0);
        }
        lemma_blank_skip(s, from, from + 48, to);
        assert forall|i: int| 0 <= i < rest.len() implies (#[trigger] rest[i]).len() == 20 by {
            assert(rest[i] == ps[i + 1]);
        }
        lemma_blank_parents(s, from + 48, to, rest);
    }
}

proof fn lemma_parse_parents(s: Seq<u8>, from: int, to: int, f: CommitFields, ps: Seq<Seq<u8>>)
    requires
        0 <= from,
        from + parent_lines(ps).len() < to <= s.len(),
        s.subrange(from, from + parent_lines(ps).len()) == parent_lines(ps),
        forall|i: int| 0 <= i < ps.len() ==> (#[trigger] ps[i]).len() == 20,
    ensures
        parse_lines(s, from, to, f) == parse_lines(
            s,
            from + parent_lines(ps).len(),
            to,
            CommitFields { parents: f.parents + ps, ..f },
        ),
    decreases ps.len(),
{
    if ps.len() == 0 {
        assert(f.parents + ps =~= f.parents);
    } else {
        let h = ps[0];
        let rest = ps.drop_first();
        assert(ps =~= seq![h] + rest);
        lemma_parent_lines_cons(h, rest);
        let line = parent_key() + seq![9u8] + hex_text(h) + seq![10u8];
        lemma_hex_text(h);
        let pl = parent_lines(ps);
        lemma_subrange_of(s, from, pl, 0, 48);
        assert(pl.subrange(0, 48) =~= line);
        lemma_subrange_of(s, from, pl, 48, pl.len() as int);
        assert(pl.subrange(48, pl.len() as int) =~= parent_lines(rest));
        lemma_hash_line(s, from, to, parent_key(), h);
        let f2 = CommitFields { parents: f.parents.push(h), ..f };
        assert(parse_lines(s, from, to, f) == parse_lines(s, from + 48, to, f2));
        assert forall|i: int| 0 <= i < rest.len() implies (#[trigger] rest[i]).len() == 20 by {
            assert(rest[i] == ps[i + 1]);
        }
        lemma_parse_parents(s, from + 48, to, f2, rest);
        assert(f2.parents + rest =~= f.parents + ps);
    }
}

/// Where the header of a commit's text ends: after the tree, parent and
/// author lines, without the author line's break.
pub open spec fn header_end(c: CommitView) -> int {
    (46 + parent_lines(c.parents).len() + author_text(c.author).len()) as int
}

proof fn lemma_commit_layout(c: CommitView)
    requires
        valid_commit(c),
    ensures
        ({
            let s = commit_bytes(c);
            let pll = parent_lines(c.parents).len() as int;
            let k = header_end(c);
            &&& s.len() == k + 2 + encode_utf8(c.message).len()
            &&& s.subrange(0, 46) == tree_key() + seq![9u8] + hex_text(c.tree) + seq![10u8]
            &&& s.subrange(46, 46 + pll) == parent_lines(c.parents)
            &&& s.subrange(46 + pll, k) == author_text(c.author)
            &&& s.subrange(k + 2, s.len() as int) == encode_utf8(c.message)
            &&& s[k] == 10 && s[k + 1] == 10
        }),
{
    let s = commit_bytes(c);
    let tl = tree_key() + seq![9u8] + hex_text(c.tree) + seq![10u8];
    let pl = parent_lines(c.parents);
    let at = author_text(c.author);
    let m = encode_utf8(c.message);
    lemma_hex_text(c.tree);
    let pll = pl.len() as int;
    let k = header_end(c);
    assert(s == tl + pl + (at + seq![10u8]) + seq![10u8] + m);
    assert(s.subrange(0, 46) =~= tl);
    assert(s.subrange(46, 46 + pll) =~= pl);
    assert(s.subrange(46 + pll, k) =~= at);
    assert(s.subrange(k + 2, s.len() as int) =~= m);
}

proof fn lemma_commit_blank(c: CommitView)
    requires
        valid_commit(c),
    ensures
        find_blank_line(commit_bytes(c), 0, commit_bytes(c).len() as int) == header_end(c),
{
    let s = commit_bytes(c);
    let n = s.len() as int;
    let tl = tree_key() + seq![9u8] + hex_text(c.tree) + seq![10u8];
    let pl = parent_lines(c.parents);
    let at = author_text(c.author);
    let pll = pl.len() as int;
    let k = header_end(c);
    lemma_commit_layout(c);
    lemma_hex_text(c.tree);
    assert forall|j: int| 0 <= j < 45 implies s[j] != 10 by {
        lemma_at(s, 0, tl, j);
        if j >= 5 {
            assert(tl[j] == hex_text(c.tree)[j - 5]);
        }
    }
    lemma_author_line(s, 46 + pll, k, c.author);
    lemma_at(s, 46 + pll, at, 0);
    assert(at[0] == 97);
    if c.parents.len() > 0 {
        lemma_parent_lines_cons(c.parents[0], c.parents.drop_first());
        assert(c.parents =~= seq![c.parents[0]] + c.parents.drop_first());
        lemma_at(s, 46, pl, 0);
        assert(pl[0] == 112);
    }
    lemma_blank_skip(s, 0, 46, n);
    lemma_blank_parents(s, 46, n, c.parents);
    assert forall|j: int| 46 + pll <= j < k implies s[j] != 10 by {
        lemma_at(s, 46 + pll, at, j - 46 - pll);
    }
    lemma_blank_run(s, 46 + pll, k, n);
}

proof fn lemma_commit_header(c: CommitView)
    requires
        valid_commit(c),
    ensures
        parse_lines(commit_bytes(c), 0, header_end(c), no_fields()) == Some(
            CommitFields { tree: Some(c.tree), parents: c.parents, author: Some(c.author) },
        ),
{
    let s = commit_bytes(c);
    let pl = parent_lines(c.parents);
    let pll = pl.len() as int;
    let k = header_end(c);
    lemma_commit_layout(c);
    lemma_hex_text(c.tree);
    lemma_hash_line(s, 0, k, tree_key(), c.tree);
    let f1 = CommitFields { tree: Some(c.tree), ..no_fields() };
    assert(parse_lines(s, 0, k, no_fields()) == parse_lines(s, 46, k, f1));
    lemma_parse_parents(s, 46, k, f1, c.parents);
    let f2 = CommitFields { parents: f1.parents + c.parents, ..f1 };
    assert(f2.parents =~= c.parents);
    lemma_author_line(s, 46 + pll, k, c.author);
    assert(parse_lines(s, 46 + pll, k, f2) == Some(CommitFields { author: Some(c.author), ..f2 }));
}

/// Reading the text of a valid commit gives the commit back.
pub proof fn lemma_commit_round_trip(c: CommitView)
    requires
        valid_commit(c),
    ensures
        parse_commit(commit_bytes(c)) == Some(c),
{
    lemma_commit_layout(c);
    lemma_commit_blank(c);
    lemma_commit_header(c);
    encode_utf8_valid_utf8(c.message);
    encode_utf8_decode_utf8(c.message);
}

/// A run without line breaks up to a blank line ends at that blank line.
proof fn lemma_blank_run(s: Seq<u8>, i: int, k: int, to: int)
    requires
        0 <= i <= k,
        k + 1 < to <= s.len(),
        forall|j: int| i <= j < k ==> s[j] != 10,
        s[k] == 10 && s[k + 1] == 10,
    ensures
        find_blank_line(s, i, to) == k,
    decreases k - i,
{
    if i < k {
        lemma_blank_run(s, i + 1, k, to);
    }
}

} // verus!
