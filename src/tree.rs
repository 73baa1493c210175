//! Building tree objects from the staged paths: paths are grouped by their
//! first directory, each directory becomes a tree whose entries are sorted
//! by name, and trees are built bottom-up so that a parent's entries hold
//! its children's hashes.

use vstd::prelude::*;
use vstd::string::*;
use vstd::utf8::*;
use crate::hash::digest_of;
use crate::index::{Index, IndexEntry, bytes_lt};
use crate::object::{Object, ObjectView, TreeEntry, TreeEntryView, canonical};

verus! {

/// The mode that tree entries give to directories.
pub const DIRECTORY_MODE: u32 = 0o40000;

/// What the working tree holds for one staged path.
pub struct FileData {
    pub content: Vec<u8>,
    pub mode: u32,
}

/// A staged path with its content and mode.
pub ghost struct LeafView {
    pub path: Seq<char>,
    pub content: Seq<u8>,
    pub mode: u32,
}

/// The first index at or after `from` where `s` holds `c`, or its length.
pub open spec fn find_char(s: Seq<char>, c: char, from: int) -> int
    decreases s.len() - from,
{
    if from >= s.len() {
        s.len() as int
    } else if s[from] == c {
        from
    } else {
        find_char(s, c, from + 1)
    }
}

pub proof fn lemma_find_char(s: Seq<char>, c: char, from: int)
    requires
        0 <= from <= s.len(),
    ensures
        from <= find_char(s, c, from) <= s.len(),
        find_char(s, c, from) < s.len() ==> s[find_char(s, c, from)] == c,
    decreases s.len() - from,
{
    if from < s.len() && s[from] != c {
        lemma_find_char(s, c, from + 1);
    }
}

proof fn lemma_find_char_ge(s: Seq<char>, c: char, from: int)
    ensures
        find_char(s, c, from) >= from || find_char(s, c, from) == s.len(),
    decreases s.len() - from,
{
    if from < s.len() && s[from] != c {
        lemma_find_char_ge(s, c, from + 1);
    }
}

/// The path `p` continues, at `off`, with the directory `name` and a slash.
pub open spec fn has_dir(p: Seq<char>, off: int, name: Seq<char>) -> bool {
    &&& 0 <= off
    &&& off + name.len() < p.len()
    &&& p.subrange(off, off + name.len()) == name
    &&& p[off + name.len()] == '/'
}

/// The end of the run of paths from `j` on that lie in the directory `name`.
pub open spec fn run_end(ls: Seq<LeafView>, j: int, hi: int, off: int, name: Seq<char>) -> int
    decreases hi - j,
{
    if j >= hi || j < 0 || !has_dir(ls[j].path, off, name) {
        j
    } else {
        run_end(ls, j + 1, hi, off, name)
    }
}

proof fn lemma_run_end(ls: Seq<LeafView>, j: int, hi: int, off: int, name: Seq<char>)
    ensures
        run_end(ls, j, hi, off, name) >= j,
        j <= hi ==> run_end(ls, j, hi, off, name) <= hi,
    decreases hi - j,
{
    if !(j >= hi || j < 0 || !has_dir(ls[j].path, off, name)) {
        lemma_run_end(ls, j + 1, hi, off, name);
    }
}

/// The hash of a blob with the given content.
pub open spec fn blob_hash(content: Seq<u8>) -> Seq<u8> {
    digest_of(canonical(ObjectView::Blob(content)))
}

/// The entries, in the order met, of the directory that the paths
/// `ls[lo..hi]` share up to `off`: a file for each path with no slash after
/// `off`, and a directory for each run of paths that continue with the same
/// name and a slash.
pub open spec fn dir_entries(ls: Seq<LeafView>, lo: int, hi: int, off: int, bound: int) -> Seq<
    TreeEntryView,
>
    decreases bound - off, hi - lo, 0int
    via dir_entries_decreases
{
    if lo >= hi || lo < 0 || hi > ls.len() || off < 0 {
        Seq::empty()
    } else {
        let p = ls[lo].path;
        let e = find_char(p, '/', off);
        let name = p.subrange(off, e);
        if e >= p.len() {
            seq![
                TreeEntryView {
                    filename: name,
                    mode: ls[lo].mode,
                    hash: blob_hash(ls[lo].content),
                },
            ] + dir_entries(ls, lo + 1, hi, off, bound)
        } else if e + 1 <= bound {
            let j = run_end(ls, lo + 1, hi, off, name);
            seq![
                TreeEntryView {
                    filename: name,
                    mode: DIRECTORY_MODE,
                    hash: digest_of(canonical(dir_tree(ls, lo, j, e + 1, bound))),
                },
            ] + dir_entries(ls, j, hi, off, bound)
        } else {
            Seq::empty()
        }
    }
}

/// The tree object of that directory: its entries sorted by name.
pub open spec fn dir_tree(ls: Seq<LeafView>, lo: int, hi: int, off: int, bound: int) -> ObjectView
    decreases bound - off, hi - lo, 1int
{
    ObjectView::Tree(sort_entries(dir_entries(ls, lo, hi, off, bound)))
}

#[via_fn]
proof fn dir_entries_decreases(ls: Seq<LeafView>, lo: int, hi: int, off: int, bound: int) {
    if !(lo >= hi || lo < 0 || hi > ls.len() || off < 0) {
        let p = ls[lo].path;
        lemma_find_char_ge(p, '/', off);
        let e = find_char(p, '/', off);
        lemma_run_end(ls, lo + 1, hi, off, p.subrange(off, e));
    }
}

/// The UTF-8 bytes of an entry's name, by which entries are sorted.
pub open spec fn name_key(e: TreeEntryView) -> Seq<u8> {
    encode_utf8(e.filename)
}

/// `es` with `e` placed after the last entry whose name does not come after
/// its own.
pub open spec fn insert_entry(es: Seq<TreeEntryView>, e: TreeEntryView) -> Seq<TreeEntryView>
    decreases es.len(),
{
    if es.len() == 0 || !bytes_lt(name_key(e), name_key(es.last())) {
        es.push(e)
    } else {
        insert_entry(es.drop_last(), e).push(es.last())
    }
}

/// The entries sorted by name, by insertion.
pub open spec fn sort_entries(es: Seq<TreeEntryView>) -> Seq<TreeEntryView>
    decreases es.len(),
{
    if es.len() == 0 {
        Seq::empty()
    } else {
        insert_entry(sort_entries(es.drop_last()), es.last())
    }
}

/// The longest path.
pub open spec fn max_len(ls: Seq<LeafView>) -> int
    decreases ls.len(),
{
    if ls.len() == 0 {
        0
    } else {
        let m = max_len(ls.drop_last());
        if ls.last().path.len() > m {
            ls.last().path.len() as int
        } else {
            m
        }
    }
}

/// The root tree of the staged paths `ls`.
pub open spec fn root_tree(ls: Seq<LeafView>) -> ObjectView {
    dir_tree(ls, 0, ls.len() as int, 0, max_len(ls))
}

/// The objects' values.
pub open spec fn views(objs: Seq<Object>) -> Seq<ObjectView> {
    objs.map_values(|o: Object| o@)
}

/// Some object in `objs` before position `i` has the hash `h`.
pub open spec fn stored_before(objs: Seq<ObjectView>, i: int, h: Seq<u8>) -> bool {
    exists|j: int| 0 <= j < i && #[trigger] digest_of(canonical(objs[j])) == h
}

/// Every entry of the tree `o` names an object among the first `i` of
/// `objs`.
pub open spec fn refers_within(objs: Seq<ObjectView>, i: int, o: ObjectView) -> bool {
    match o {
        ObjectView::Tree(es) => forall|k: int| 0 <= k < es.len() ==> stored_before(objs, i, #[trigger] es[k].hash),
        _ => true,
    }
}

/// Each tree in `objs` names only objects that come before it: stored in
/// this order, no stored tree refers to an object not yet stored.
pub open spec fn children_first(objs: Seq<ObjectView>) -> bool {
    forall|i: int| 0 <= i < objs.len() ==> refers_within(objs, i, #[trigger] objs[i])
}

proof fn lemma_stored_before_extend(objs: Seq<ObjectView>, more: Seq<ObjectView>, i: int, h: Seq<u8>)
    requires
        stored_before(objs, i, h),
        i <= objs.len(),
    ensures
        stored_before(objs + more, i, h),
{
    let j = choose|j: int| 0 <= j < i && #[trigger] digest_of(canonical(objs[j])) == h;
    assert((objs + more)[j] == objs[j]);
}

proof fn lemma_children_first_push(objs: Seq<ObjectView>, o: ObjectView)
    requires
        children_first(objs),
        refers_within(objs, objs.len() as int, o),
    ensures
        children_first(objs.push(o)),
{
    let r = objs.push(o);
    assert forall|i: int| 0 <= i < r.len() implies refers_within(r, i, #[trigger] r[i]) by {
        let oi = r[i];
        let b = if i < objs.len() { i } else { objs.len() as int };
        assert(refers_within(objs, b, oi));
        match oi {
            ObjectView::Tree(es) => {
                assert forall|k: int| 0 <= k < es.len() implies stored_before(r, i, #[trigger] es[k].hash) by {
                    assert(stored_before(objs, b, es[k].hash));
                    lemma_stored_before_extend(objs, seq![o], b, es[k].hash);
                    assert(objs + seq![o] == r);
                }
            },
            _ => {},
        }
    }
}

/// An object stored in `a` is still stored once `a` grows into `b`.
proof fn lemma_stored_grows(a: Seq<Object>, b: Seq<Object>, h: Seq<u8>)
    requires
        a.len() <= b.len(),
        b.subrange(0, a.len() as int) == a,
        stored_before(views(a), a.len() as int, h),
    ensures
        stored_before(views(b), b.len() as int, h),
{
    let j = choose|j: int| 0 <= j < a.len() && #[trigger] digest_of(canonical(views(a)[j])) == h;
    assert(b.subrange(0, a.len() as int)[j] == b[j]);
    assert(views(b)[j] == views(a)[j]);
}

/// After `b` grew from `a` by one push, entries stored in `a` are stored in
/// `b`, and `b` keeps any prefix that `a` kept.
proof fn lemma_pushed(a: Seq<Object>, b: Seq<Object>, entries: Seq<TreeEntry>)
    requires
        b.len() == a.len() + 1,
        b.subrange(0, a.len() as int) == a,
        forall|k: int|
            0 <= k < entries.len() ==> stored_before(views(a), a.len() as int, (#[trigger] entries[k])@.hash),
    ensures
        forall|k: int|
            0 <= k < entries.len() ==> stored_before(views(b), b.len() as int, (#[trigger] entries[k])@.hash),
        forall|p: Seq<Object>| p.len() <= a.len() && a.subrange(0, p.len() as int) == p ==> #[trigger] b.subrange(0, p.len() as int) == p,
{
    assert forall|k: int| 0 <= k < entries.len() implies stored_before(views(b), b.len() as int, (#[trigger] entries[k])@.hash) by {
        lemma_stored_grows(a, b, entries[k]@.hash);
    }
    assert forall|p: Seq<Object>| p.len() <= a.len() && a.subrange(0, p.len() as int) == p implies #[trigger] b.subrange(0, p.len() as int) == p by {
        assert(b.subrange(0, p.len() as int) =~= a.subrange(0, p.len() as int));
    }
}

/// After `b` grew from `a`, entries stored in `a` are stored in `b`, and `b`
/// keeps the prefix `start` that `a` kept.
proof fn lemma_grown(a: Seq<Object>, b: Seq<Object>, entries: Seq<TreeEntry>, start: Seq<Object>)
    requires
        b.len() >= a.len(),
        b.subrange(0, a.len() as int) == a,
        a.len() >= start.len(),
        a.subrange(0, start.len() as int) == start,
        forall|k: int|
            0 <= k < entries.len() ==> stored_before(views(a), a.len() as int, (#[trigger] entries[k])@.hash),
    ensures
        forall|k: int|
            0 <= k < entries.len() ==> stored_before(views(b), b.len() as int, (#[trigger] entries[k])@.hash),
        b.subrange(0, start.len() as int) == start,
{
    assert forall|k: int| 0 <= k < entries.len() implies stored_before(views(b), b.len() as int, (#[trigger] entries[k])@.hash) by {
        lemma_stored_grows(a, b, entries[k]@.hash);
    }
    assert(b.subrange(0, start.len() as int) =~= a.subrange(0, start.len() as int));
}

/// Every entry of `insert_entry(es, e)` is `e` or an entry of `es`.
proof fn lemma_insert_entry_from(es: Seq<TreeEntryView>, e: TreeEntryView, k: int)
    requires
        0 <= k < insert_entry(es, e).len(),
    ensures
        insert_entry(es, e)[k] == e || exists|j: int| 0 <= j < es.len() && #[trigger] es[j] == insert_entry(es, e)[k],
    decreases es.len(),
{
    if es.len() == 0 || !bytes_lt(name_key(e), name_key(es.last())) {
        if k < es.len() {
            assert(es[k] == insert_entry(es, e)[k]);
        }
    } else {
        let q = insert_entry(es.drop_last(), e);
        if k < q.len() {
            lemma_insert_entry_from(es.drop_last(), e, k);
            if q[k] != e {
                let j = choose|j: int| 0 <= j < es.drop_last().len() && #[trigger] es.drop_last()[j] == q[k];
                assert(es[j] == q[k]);
            }
        } else {
            assert(es[es.len() - 1] == insert_entry(es, e)[k]);
        }
    }
}

/// The staged paths, in the index's order, with nothing read yet.
pub struct FilenameTree {
    paths: Vec<String>,
}

impl View for FilenameTree {
    type V = Seq<Seq<char>>;

    closed spec fn view(&self) -> Seq<Seq<char>> {
        self.paths@.map_values(|s: String| s@)
    }
}

/// The objects of a materialized tree, each child before its parent; the
/// last one is the root.
pub struct ObjectTree {
    objects: Vec<Object>,
}

impl View for ObjectTree {
    type V = Seq<ObjectView>;

    closed spec fn view(&self) -> Seq<ObjectView> {
        views(self.objects@)
    }
}

/// The leaves that pair each path with what was read for it.
pub open spec fn leaves_of(paths: Seq<Seq<char>>, files: Seq<FileData>) -> Seq<LeafView> {
    Seq::new(
        paths.len(),
        |i: int| LeafView { path: paths[i], content: files[i].content@, mode: files[i].mode },
    )
}

fn find_slash(s: &str, from: usize) -> (r: usize)
    requires
        from <= s@.len(),
    ensures
        r == find_char(s@, '/', from as int),
{
    let n = s.unicode_len();
    let mut i = from;
    while i < n
        invariant
            from <= i <= n,
            n == s@.len(),
            find_char(s@, '/', from as int) == find_char(s@, '/', i as int),
        decreases n - i,
    {
        if s.get_char(i) == '/' {
            return i;
        }
        i = i + 1;
    }
    i
}

fn in_dir(s: &str, off: usize, name: &str) -> (r: bool)
    ensures
        r == has_dir(s@, off as int, name@),
{
    let n = s.unicode_len();
    let m = name.unicode_len();
    if off > n || n - off <= m {
        return false;
    }
    let mut k: usize = 0;
    while k < m
        invariant
            0 <= k <= m,
            m == name@.len(),
            n == s@.len(),
            off + m < n,
            forall|t: int| 0 <= t < k ==> s@[off + t] == name@[t],
        decreases m - k,
    {
        if s.get_char(off + k) != name.get_char(k) {
            proof {
                assert(s@.subrange(off as int, off + m)[k as int] != name@[k as int]);
            }
            return false;
        }
        k = k + 1;
    }
    proof {
        assert(s@.subrange(off as int, off + m) =~= name@);
    }
    s.get_char(off + m) == '/'
}

/// Puts `e` into the sorted `entries`.
fn insert_by_name(entries: &mut Vec<TreeEntry>, e: TreeEntry)
    ensures
        final(entries)@.map_values(|t: TreeEntry| t@) == insert_entry(
            old(entries)@.map_values(|t: TreeEntry| t@),
            e@,
        ),
{
    let ghost es = old(entries)@.map_values(|t: TreeEntry| t@);
    let mut i = entries.len();
    proof {
        assert(es.subrange(0, i as int) =~= es);
        assert(insert_entry(es, e@) + es.subrange(i as int, es.len() as int) =~= insert_entry(
            es,
            e@,
        ));
    }
    while i > 0 && compare_names(&e, &entries[i - 1])
        invariant
            0 <= i <= entries@.len(),
            entries@.map_values(|t: TreeEntry| t@) == es,
            insert_entry(es, e@) == insert_entry(es.subrange(0, i as int), e@) + es.subrange(
                i as int,
                es.len() as int,
            ),
        decreases i,
    {
        proof {
            let p = es.subrange(0, i as int);
            assert(p.last() == es[i - 1]);
            assert(p.drop_last() =~= es.subrange(0, i - 1));
            assert(insert_entry(p, e@) == insert_entry(es.subrange(0, i - 1), e@).push(es[i - 1]));
            assert(insert_entry(es.subrange(0, i - 1), e@).push(es[i - 1]) + es.subrange(
                i as int,
                es.len() as int,
            ) =~= insert_entry(es.subrange(0, i - 1), e@) + es.subrange(i - 1, es.len() as int));
        }
        i = i - 1;
    }
    proof {
        let p = es.subrange(0, i as int);
        if i > 0 {
            assert(p.last() == es[i - 1]);
        }
        assert(insert_entry(p, e@) == p.push(e@));
    }
    entries.insert(i, e);
    proof {
        assert(entries@.map_values(|t: TreeEntry| t@) =~= es.subrange(0, i as int).push(e@)
            + es.subrange(i as int, es.len() as int));
    }
}

/// Whether the name of `a` comes before the name of `b`.
fn compare_names(a: &TreeEntry, b: &TreeEntry) -> (r: bool)
    ensures
        r == bytes_lt(name_key(a@), name_key(b@)),
{
    crate::index::bytes_before(a.filename.as_str().as_bytes(), b.filename.as_str().as_bytes())
}

pub proof fn lemma_max_len(ls: Seq<LeafView>)
    ensures
        forall|i: int| 0 <= i < ls.len() ==> (#[trigger] ls[i]).path.len() <= max_len(ls),
        max_len(ls) >= 0,
    decreases ls.len(),
{
    if ls.len() > 0 {
        lemma_max_len(ls.drop_last());
        assert forall|i: int| 0 <= i < ls.len() implies (#[trigger] ls[i]).path.len() <= max_len(ls) by {
            if i < ls.len() - 1 {
                assert(ls[i] == ls.drop_last()[i]);
            }
        }
    }
}

/// Builds the tree of the directory that `paths[lo..hi]` share up to `off`,
/// appending every object made, children first, to `objects`.
fn build_dir(
    paths: &Vec<String>,
    files: &Vec<FileData>,
    lo: usize,
    hi: usize,
    off: usize,
    Ghost(bound): Ghost<int>,
    objects: &mut Vec<Object>,
) -> (r: Object)
    requires
        lo <= hi <= paths@.len(),
        paths@.len() == files@.len(),
        forall|k: int| 0 <= k < paths@.len() ==> (#[trigger] paths@[k])@.len() <= bound,
        forall|k: int| lo <= k < hi ==> (#[trigger] paths@[k])@.len() >= off,
        children_first(views(old(objects)@)),
    ensures
        r@ == dir_tree(
            leaves_of(paths@.map_values(|s: String| s@), files@),
            lo as int,
            hi as int,
            off as int,
            bound,
        ),
        final(objects)@.len() >= old(objects)@.len(),
        final(objects)@.subrange(0, old(objects)@.len() as int) == old(objects)@,
        children_first(views(final(objects)@)),
        refers_within(views(final(objects)@), final(objects)@.len() as int, r@),
    decreases bound - off, hi - lo,
{
    let ghost start = objects@;
    let ghost ls = leaves_of(paths@.map_values(|s: String| s@), files@);
    let mut entries: Vec<TreeEntry> = Vec::new();
    let mut i = lo;
    let ghost mut done: Seq<TreeEntryView> = Seq::empty();
    proof {
        assert(entries@.map_values(|t: TreeEntry| t@) =~= Seq::<TreeEntryView>::empty());
        assert(done + dir_entries(ls, lo as int, hi as int, off as int, bound) =~= dir_entries(
            ls,
            lo as int,
            hi as int,
            off as int,
            bound,
        ));
    }
    while i < hi
        invariant
            lo <= i <= hi <= paths@.len(),
            paths@.len() == files@.len(),
            forall|k: int| 0 <= k < paths@.len() ==> (#[trigger] paths@[k])@.len() <= bound,
            forall|k: int| lo <= k < hi ==> (#[trigger] paths@[k])@.len() >= off,
            ls == leaves_of(paths@.map_values(|s: String| s@), files@),
            sort_entries(done) == entries@.map_values(|t: TreeEntry| t@),
            objects@.len() >= start.len(),
            objects@.subrange(0, start.len() as int) == start,
            start == old(objects)@,
            children_first(views(objects@)),
            forall|k: int|
                0 <= k < entries@.len() ==> stored_before(
                    views(objects@),
                    objects@.len() as int,
                    (#[trigger] entries@[k])@.hash,
                ),
            dir_entries(ls, lo as int, hi as int, off as int, bound) == done + dir_entries(
                ls,
                i as int,
                hi as int,
                off as int,
                bound,
            ),
        decreases hi - i,
    {
        let p = paths[i].as_str();
        let n = p.unicode_len();
        proof {
            assert(ls[i as int].path == paths@[i as int]@);
        }
        let e = find_slash(p, off);
        proof {
            lemma_find_char(p@, '/', off as int);
        }
        let name = p.substring_char(off, e);
        let ghost before = dir_entries(ls, i as int, hi as int, off as int, bound);
        let entry;
        if e >= n {
            let blob = Object::Blob(files[i].content.clone());
            let h = blob.hash();
            proof {
                assert(blob@ == ObjectView::Blob(ls[i as int].content));
            }
            let ghost ob = blob@;
            let ghost before_objs = objects@;
            proof {
                lemma_children_first_push(views(objects@), ob);
            }
            objects.push(blob);
            proof {
                assert(views(objects@) =~= views(before_objs).push(ob));
                assert(objects@.subrange(0, before_objs.len() as int) =~= before_objs);
                lemma_pushed(before_objs, objects@, entries@);
            }
            entry = TreeEntry::new(String::from_str(name), files[i].mode, h);
            proof {
                assert(before == seq![entry@] + dir_entries(ls, i + 1, hi as int, off as int, bound));
            }
            i = i + 1;
        } else {
            let mut j = i + 1;
            while j < hi && in_dir(paths[j].as_str(), off, name)
                invariant
                    i < j <= hi <= paths@.len(),
                    off <= e < paths@[i as int]@.len(),
                    name@ == paths@[i as int]@.subrange(off as int, e as int),
                    ls == leaves_of(paths@.map_values(|s: String| s@), files@),
                    run_end(ls, i + 1, hi as int, off as int, name@) == run_end(
                        ls,
                        j as int,
                        hi as int,
                        off as int,
                        name@,
                    ),
                    forall|k: int| i < k < j ==> has_dir((#[trigger] paths@[k])@, off as int, name@),
                decreases hi - j,
            {
                proof {
                    assert(ls[j as int].path == paths@[j as int]@);
                }
                j = j + 1;
            }
            proof {
                if j < hi {
                    assert(ls[j as int].path == paths@[j as int]@);
                }
                assert(run_end(ls, j as int, hi as int, off as int, name@) == j);
                assert forall|k: int| i <= k < j implies (#[trigger] paths@[k])@.len() >= e + 1 by {
                    if k > i {
                        assert(has_dir(paths@[k]@, off as int, name@));
                    }
                }
            }
            let ghost mid_objs = objects@;
            let sub = build_dir(paths, files, i, j, e + 1, Ghost(bound), objects);
            let h = sub.hash();
            let ghost os = sub@;
            let ghost before_objs = objects@;
            proof {
                lemma_grown(mid_objs, objects@, entries@, start);
                lemma_children_first_push(views(objects@), os);
            }
            objects.push(sub);
            proof {
                assert(views(objects@) =~= views(before_objs).push(os));
                assert(objects@.subrange(0, before_objs.len() as int) =~= before_objs);
                lemma_pushed(before_objs, objects@, entries@);
            }
            entry = TreeEntry::new(String::from_str(name), DIRECTORY_MODE, h);
            proof {
                assert(before == seq![entry@] + dir_entries(ls, j as int, hi as int, off as int, bound));
            }
            i = j;
        }
        proof {
            assert(done.push(entry@).drop_last() =~= done);
            assert(done.push(entry@) + dir_entries(ls, i as int, hi as int, off as int, bound)
                =~= done + before);
            done = done.push(entry@);
        }
        let ghost old_entries = entries@;
        insert_by_name(&mut entries, entry);
        proof {
            let ov = views(objects@);
            let n = objects@.len() as int;
            assert(stored_before(ov, n, entry@.hash)) by {
                assert(ov[n - 1] == objects@[n - 1]@);
            }
            assert forall|k: int| 0 <= k < entries@.len() implies stored_before(ov, n, (#[trigger] entries@[k])@.hash) by {
                let es = old_entries.map_values(|t: TreeEntry| t@);
                assert(entries@[k]@ == entries@.map_values(|t: TreeEntry| t@)[k]);
                lemma_insert_entry_from(es, entry@, k);
                if entries@[k]@ != entry@ {
                    let j = choose|j: int| 0 <= j < es.len() && #[trigger] es[j] == insert_entry(es, entry@)[k];
                    assert(old_entries[j]@ == es[j]);
                }
            }
        }
    }
    proof {
        assert(done + Seq::<TreeEntryView>::empty() =~= done);
    }
    let r = Object::Tree(entries);
    r
}

impl FilenameTree {
    /// The staged paths of `index`, in its order.
    pub fn from_index(index: Index) -> (r: FilenameTree)
        ensures
            r@ == index@.map_values(|e: crate::index::IndexEntryView| e.name),
    {
        let entries = index.into_entries();
        let mut paths: Vec<String> = Vec::new();
        let mut i: usize = 0;
        while i < entries.len()
            invariant
                0 <= i <= entries@.len(),
                entries@.map_values(|e: IndexEntry| e@) == index@,
                paths@.map_values(|s: String| s@) == index@.subrange(0, i as int).map_values(
                    |e: crate::index::IndexEntryView| e.name,
                ),
            decreases entries@.len() - i,
        {
            let ghost old_paths = paths@.map_values(|s: String| s@);
            let name = entries[i].file_name.0.clone();
            paths.push(name);
            proof {
                assert(paths@.map_values(|s: String| s@) =~= old_paths.push(name@));
                assert(index@.subrange(0, i + 1).map_values(|e: crate::index::IndexEntryView| e.name)
                    =~= index@.subrange(0, i as int).map_values(
                    |e: crate::index::IndexEntryView| e.name,
                ).push(index@[i as int].name));
                assert(index@[i as int] == entries@[i as int]@);
                assert(paths@.map_values(|s: String| s@) =~= index@.subrange(0, i + 1).map_values(
                    |e: crate::index::IndexEntryView| e.name,
                ));
            }
            i = i + 1;
        }
        proof {
            assert(index@.subrange(0, i as int) =~= index@);
        }
        FilenameTree { paths }
    }

    /// The paths whose content and mode the tree needs, in order.
    pub fn paths(&self) -> (r: &Vec<String>)
        ensures
            r@.map_values(|s: String| s@) == self@,
    {
        &self.paths
    }

    /// Builds every tree and blob object from what was read for each path
    /// (`files[i]` for the `i`-th path): children first, the root last.
    pub fn into_object_tree(self, files: Vec<FileData>) -> (r: ObjectTree)
        requires
            files@.len() == self@.len(),
        ensures
            r@.len() > 0,
            r@.last() == root_tree(leaves_of(self@, files@)),
            children_first(r@),
    {
        let ghost ls = leaves_of(self@, files@);
        proof {
            lemma_max_len(ls);
            assert forall|k: int| 0 <= k < self.paths@.len() implies (#[trigger] self.paths@[k])@.len()
                <= max_len(ls) by {
                assert(ls[k].path == self.paths@[k]@);
            }
        }
        let mut objects: Vec<Object> = Vec::new();
        proof {
            assert(views(objects@) =~= Seq::<ObjectView>::empty());
        }
        let root = build_dir(&self.paths, &files, 0, self.paths.len(), 0, Ghost(max_len(ls)), &mut objects);
        let ghost ro = root@;
        let ghost before_push = objects@;
        proof {
            lemma_children_first_push(views(objects@), ro);
        }
        objects.push(root);
        proof {
            assert(views(objects@) =~= views(before_push).push(ro));
        }
        let r = ObjectTree { objects };
        proof {
            assert(r@.last() == root@);
        }
        r
    }
}

impl ObjectTree {
    #[verifier::type_invariant]
    spec fn inv(&self) -> bool {
        self.objects@.len() > 0
    }

    /// The root object.
    pub fn root(&self) -> (r: &Object)
        ensures
            r@ == self@.last(),
    {
        proof {
            use_type_invariant(self);
        }
        &self.objects[self.objects.len() - 1]
    }

    /// Every object, each child before its parent; written in this order, no
    /// stored tree refers to an object not yet stored.
    pub fn objects(&self) -> (r: &Vec<Object>)
        ensures
            views(r@) == self@,
    {
        &self.objects
    }
}

/// The leaves for `paths`, each with the content and mode that `data` gives
/// its path.
pub open spec fn leaves_for(paths: Seq<Seq<char>>, data: spec_fn(Seq<char>) -> (Seq<u8>, u32)) -> Seq<
    LeafView,
> {
    Seq::new(
        paths.len(),
        |i: int| LeafView { path: paths[i], content: data(paths[i]).0, mode: data(paths[i]).1 },
    )
}

/// Staging the same (path, content, mode) triples in any order, each path
/// once, gives the same root tree, and so the same root hash.
pub proof fn lemma_tree_determinism(
    a: Seq<crate::index::IndexEntryView>,
    b: Seq<crate::index::IndexEntryView>,
    data: spec_fn(Seq<char>) -> (Seq<u8>, u32),
)
    requires
        crate::index::distinct_paths(a),
        crate::index::distinct_paths(b),
        forall|v: crate::index::IndexEntryView| a.contains(v) <==> b.contains(v),
    ensures
        ({
            let pa = crate::index::insert_all(a).map_values(|e: crate::index::IndexEntryView| e.name);
            let pb = crate::index::insert_all(b).map_values(|e: crate::index::IndexEntryView| e.name);
            &&& root_tree(leaves_for(pa, data)) == root_tree(leaves_for(pb, data))
            &&& digest_of(canonical(root_tree(leaves_for(pa, data)))) == digest_of(
                canonical(root_tree(leaves_for(pb, data))),
            )
        }),
{
    crate::index::lemma_staging_order_irrelevant(a, b);
}

} // verus!
