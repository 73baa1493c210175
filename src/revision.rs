//! Revision expressions: a hash or reference name followed by `^n` and
//! `~n` modifiers, and the first-parent walk that resolves them.

use vstd::prelude::*;
use vstd::string::*;
use crate::hash::{hex_bytes, is_hash_text};
use crate::object::{Object, ObjectView};

verus! {

/// One step of an expression: `^n` or `~n`, both of which follow the first
/// parent `n` times.
#[derive(Clone, Copy, PartialEq, Eq, Structural, Debug)]
pub enum Modifier {
    NthParent(usize),
    NthGenerationalParent(usize),
}

impl Modifier {
    pub open spec fn count(self) -> usize {
        match self {
            Modifier::NthParent(n) => n,
            Modifier::NthGenerationalParent(n) => n,
        }
    }

    /// How many first-parent steps the modifier takes.
    pub fn steps(&self) -> (r: usize)
        ensures
            r == self.count(),
    {
        match self {
            Modifier::NthParent(n) => *n,
            Modifier::NthGenerationalParent(n) => *n,
        }
    }
}

pub open spec fn is_operator(c: char) -> bool {
    c == '^' || c == '~'
}

pub open spec fn is_digit_char(c: char) -> bool {
    48 <= c as u32 <= 57
}

/// The first index at or after `i` that holds `^` or `~`, or the length.
pub open spec fn base_end(s: Seq<char>, i: int) -> int
    decreases s.len() - i,
{
    if i >= s.len() {
        s.len() as int
    } else if is_operator(s[i]) {
        i
    } else {
        base_end(s, i + 1)
    }
}

/// The first index at or after `i` that holds no decimal digit, or the
/// length.
pub open spec fn digits_end(s: Seq<char>, i: int) -> int
    decreases s.len() - i,
{
    if i >= s.len() {
        s.len() as int
    } else if !is_digit_char(s[i]) {
        i
    } else {
        digits_end(s, i + 1)
    }
}

/// The value of a run of decimal digits.
pub open spec fn digits_number(s: Seq<char>) -> nat
    decreases s.len(),
{
    if s.len() == 0 {
        0
    } else {
        digits_number(s.drop_last()) * 10 + (s.last() as u32 - 48) as nat
    }
}

/// The modifiers that `s[i..]` spells: each an operator and an optional
/// count that defaults to one.
pub open spec fn parse_modifiers(s: Seq<char>, i: int) -> Option<Seq<Modifier>>
    decreases s.len() - i
    via parse_modifiers_decreases
{
    if i >= s.len() || i < 0 {
        Some(Seq::empty())
    } else if !is_operator(s[i]) {
        None
    } else {
        let j = digits_end(s, i + 1);
        let n: nat = if j == i + 1 {
            1
        } else {
            digits_number(s.subrange(i + 1, j))
        };
        if n > usize::MAX {
            None
        } else {
            let m = if s[i] == '^' {
                Modifier::NthParent(n as usize)
            } else {
                Modifier::NthGenerationalParent(n as usize)
            };
            match parse_modifiers(s, j) {
                Some(rest) => Some(seq![m] + rest),
                None => None,
            }
        }
    }
}

proof fn lemma_digits_end(s: Seq<char>, i: int)
    ensures
        digits_end(s, i) >= i || digits_end(s, i) == s.len(),
        0 <= i <= s.len() ==> i <= digits_end(s, i) <= s.len(),
        0 <= i ==> forall|k: int| i <= k < digits_end(s, i) ==> is_digit_char(#[trigger] s[k]),
    decreases s.len() - i,
{
    if i < s.len() && is_digit_char(s[i]) {
        lemma_digits_end(s, i + 1);
    }
}

#[via_fn]
proof fn parse_modifiers_decreases(s: Seq<char>, i: int) {
    lemma_digits_end(s, i + 1);
}

/// A base of at least one character without `^` or `~`, and the modifiers
/// after it.
pub open spec fn parse_revision(s: Seq<char>) -> Option<(Seq<char>, Seq<Modifier>)> {
    let b = base_end(s, 0);
    if b == 0 {
        None
    } else {
        match parse_modifiers(s, b) {
            Some(ms) => Some((s.subrange(0, b), ms)),
            None => None,
        }
    }
}

/// A parsed revision expression, kept with the text it came from.
pub struct RevisionSpec {
    input_text: String,
    base: String,
    modifiers: Vec<Modifier>,
}

pub ghost struct RevisionView {
    pub input: Seq<char>,
    pub base: Seq<char>,
    pub modifiers: Seq<Modifier>,
}

impl View for RevisionSpec {
    type V = RevisionView;

    closed spec fn view(&self) -> RevisionView {
        RevisionView { input: self.input_text@, base: self.base@, modifiers: self.modifiers@ }
    }
}

#[derive(Clone, Copy, PartialEq, Eq, Structural, Debug)]
pub enum RevisionError {
    /// The text is not a base followed by modifiers.
    BadRevision,
    /// The base is not the text of a hash.
    InvalidObjectName,
    /// A modifier was applied to an object that is not a commit.
    NotACommit,
    /// The first-parent chain ended after this many steps.
    RevisionNotFound { reached: usize },
}

fn find_operator(s: &str, n: usize) -> (r: usize)
    requires
        n == s@.len(),
    ensures
        r == base_end(s@, 0),
{
    let mut i: usize = 0;
    while i < n
        invariant
            0 <= i <= n,
            n == s@.len(),
            base_end(s@, 0) == base_end(s@, i as int),
        decreases n - i,
    {
        let c = s.get_char(i);
        if c == '^' || c == '~' {
            return i;
        }
        i = i + 1;
    }
    i
}

/// Reads the decimal digits from `i` on; gives where they end and their
/// value, or `None` for a value beyond `usize`.
fn read_count(s: &str, i: usize, n: usize) -> (r: (usize, Option<usize>))
    requires
        i <= n,
        n == s@.len(),
    ensures
        r.0 == digits_end(s@, i as int),
        r.1 is Some <==> digits_number(s@.subrange(i as int, r.0 as int)) <= usize::MAX,
        r.1 is Some ==> r.1->0 == digits_number(s@.subrange(i as int, r.0 as int)),
{
    let mut j = i;
    let mut v: usize = 0;
    let mut fits = true;
    while j < n && s.get_char(j) as u32 >= 48 && s.get_char(j) as u32 <= 57
        invariant
            i <= j <= n,
            n == s@.len(),
            digits_end(s@, i as int) == digits_end(s@, j as int),
            forall|k: int| i <= k < j ==> is_digit_char(#[trigger] s@[k]),
            fits ==> v == digits_number(s@.subrange(i as int, j as int)),
            !fits ==> digits_number(s@.subrange(i as int, j as int)) > usize::MAX,
        decreases n - j,
    {
        let d = (s.get_char(j) as u32 - 48) as usize;
        let ghost prev = digits_number(s@.subrange(i as int, j as int));
        proof {
            assert(s@.subrange(i as int, j + 1).drop_last() =~= s@.subrange(i as int, j as int));
            assert(digits_number(s@.subrange(i as int, j + 1)) == prev * 10 + d);
        }
        if fits {
            if v > (usize::MAX - d) / 10 {
                fits = false;
                proof {
                    let (vi, di) = (v as int, d as int);
                    assert(vi * 10 + di > usize::MAX) by (nonlinear_arith)
                        requires vi > (usize::MAX - di) / 10, 0 <= di <= 9;
                }
            } else {
                proof {
                    let (vi, di) = (v as int, d as int);
                    assert(vi * 10 + di <= usize::MAX) by (nonlinear_arith)
                        requires 0 <= vi <= (usize::MAX - di) / 10, 0 <= di <= 9;
                }
                v = v * 10 + d;
            }
        } else {
            proof {
                assert(prev * 10 + d > usize::MAX) by (nonlinear_arith)
                    requires prev > usize::MAX, d >= 0;
            }
        }
        j = j + 1;
    }
    (j, if fits {
        Some(v)
    } else {
        None
    })
}

impl RevisionSpec {
    /// Parses `input`: a base up to the first `^` or `~`, then modifiers,
    /// each an operator and an optional count (one when left out).
    pub fn parse(input: &str) -> (r: Result<RevisionSpec, RevisionError>)
        ensures
            match parse_revision(input@) {
                Some((b, ms)) => r is Ok && r->Ok_0@ == (RevisionView {
                    input: input@,
                    base: b,
                    modifiers: ms,
                }),
                None => r == Err::<RevisionSpec, RevisionError>(RevisionError::BadRevision),
            },
    {
        let n = input.unicode_len();
        let b = find_operator(input, n);
        if b == 0 {
            return Err(RevisionError::BadRevision);
        }
        proof {
            lemma_base_end(input@, 0);
        }
        let mut modifiers: Vec<Modifier> = Vec::new();
        let mut i = b;
        while i < n
            invariant
                b <= i <= n,
                n == input@.len(),
                b == base_end(input@, 0),
                b > 0,
                match parse_modifiers(input@, b as int) {
                    Some(ms) => parse_modifiers(input@, i as int) is Some && ms == modifiers@
                        + parse_modifiers(input@, i as int)->0,
                    None => parse_modifiers(input@, i as int) is None,
                },
            decreases n - i,
        {
            let c = input.get_char(i);
            if c != '^' && c != '~' {
                return Err(RevisionError::BadRevision);
            }
            let (j, count) = read_count(input, i + 1, n);
            proof {
                lemma_digits_end(input@, i + 1);
            }
            let k: usize = if j == i + 1 {
                1
            } else {
                match count {
                    Some(v) => v,
                    None => return Err(RevisionError::BadRevision),
                }
            };
            let m = if c == '^' {
                Modifier::NthParent(k)
            } else {
                Modifier::NthGenerationalParent(k)
            };
            proof {
                match parse_modifiers(input@, b as int) {
                    Some(ms) => {
                        let rest = parse_modifiers(input@, j as int)->0;
                        assert(ms =~= modifiers@.push(m) + rest);
                    },
                    None => {},
                }
            }
            modifiers.push(m);
            i = j;
        }
        proof {
            assert(modifiers@ + Seq::<Modifier>::empty() =~= modifiers@);
        }
        let base = String::from_str(input.substring_char(0, b));
        Ok(RevisionSpec { input_text: String::from_str(input), base, modifiers })
    }

    /// The base, read as the text of a hash; references by name are not
    /// resolved here.
    pub fn try_dereference(&self) -> (r: Option<crate::hash::Hash>)
        ensures
            r is Some <==> is_hash_text(self@.base),
            r is Some ==> r->0@ == hex_bytes(self@.base),
    {
        crate::hash::Hash::from_str(self.base.as_str())
    }

    /// The base as a hash, or `InvalidObjectName`.
    pub fn dereference(&self) -> (r: Result<crate::hash::Hash, RevisionError>)
        ensures
            r is Ok <==> is_hash_text(self@.base),
            r is Ok ==> r->Ok_0@ == hex_bytes(self@.base),
            r is Err ==> r->Err_0 == RevisionError::InvalidObjectName,
    {
        match self.try_dereference() {
            Some(h) => Ok(h),
            None => Err(RevisionError::InvalidObjectName),
        }
    }

    /// The modifiers, in the order they apply.
    pub fn modifiers(&self) -> (r: &Vec<Modifier>)
        ensures
            r@ == self@.modifiers,
    {
        &self.modifiers
    }

    /// The text the expression was parsed from.
    pub fn input_text(&self) -> (r: &str)
        ensures
            r@ == self@.input,
    {
        self.input_text.as_str()
    }

    /// Starts the first-parent walk of the modifiers from `base`, the hash
    /// the base resolved to.
    pub fn walk(&self, base: crate::hash::Hash) -> (r: RevisionWalk)
        ensures
            r@ == (WalkView { current: base@, modifiers: self@.modifiers, position: 0, taken: 0, total: 0 }),
            r.wf(),
    {
        RevisionWalk { current: base, modifiers: self.modifiers.clone(), position: 0, taken: 0, total: 0 }
    }
}

proof fn lemma_base_end(s: Seq<char>, i: int)
    requires
        0 <= i <= s.len(),
    ensures
        i <= base_end(s, i) <= s.len(),
        base_end(s, i) < s.len() ==> is_operator(s[base_end(s, i)]),
    decreases s.len() - i,
{
    if i < s.len() && !is_operator(s[i]) {
        lemma_base_end(s, i + 1);
    }
}

/// What the walk needs next.
pub enum WalkAction {
    /// The object with this hash, to be handed to `advance`.
    Load(crate::hash::Hash),
    /// The walk is over; the expression names this hash.
    Done(crate::hash::Hash),
}

/// The resolution of modifiers: at each step the object at `current` is
/// loaded, must be a commit, and is left for its first parent.
pub struct RevisionWalk {
    current: crate::hash::Hash,
    modifiers: Vec<Modifier>,
    /// The modifier being applied.
    position: usize,
    /// Steps taken within that modifier.
    taken: usize,
    /// Steps taken in all.
    total: usize,
}

pub ghost struct WalkView {
    pub current: Seq<u8>,
    pub modifiers: Seq<Modifier>,
    pub position: int,
    pub taken: int,
    pub total: int,
}

impl View for RevisionWalk {
    type V = WalkView;

    closed spec fn view(&self) -> WalkView {
        WalkView {
            current: self.current@,
            modifiers: self.modifiers@,
            position: self.position as int,
            taken: self.taken as int,
            total: self.total as int,
        }
    }
}

/// The first parent of a commit, if it has one.
pub open spec fn first_parent(o: ObjectView) -> Option<Seq<u8>> {
    match o {
        ObjectView::Commit(c) => if c.parents.len() > 0 {
            Some(c.parents[0])
        } else {
            None
        },
        _ => None,
    }
}

/// The walk after the object at its current hash turned out to be `o`.
pub open spec fn walk_step(w: WalkView, o: ObjectView) -> Result<WalkView, RevisionError> {
    let n = w.modifiers[w.position].count();
    if !(o is Commit) {
        Err(RevisionError::NotACommit)
    } else if n == 0 {
        Ok(WalkView { position: w.position + 1, taken: 0, ..w })
    } else {
        match first_parent(o) {
            None => Err(RevisionError::RevisionNotFound { reached: w.total as usize }),
            Some(p) => if w.taken + 1 == n {
                Ok(WalkView { current: p, position: w.position + 1, taken: 0, total: w.total + 1, ..w })
            } else {
                Ok(WalkView { current: p, taken: w.taken + 1, total: w.total + 1, ..w })
            },
        }
    }
}

impl RevisionWalk {
    /// Within a modifier, fewer steps taken than it asks for; the step count
    /// fits.
    pub open spec fn wf(&self) -> bool {
        &&& 0 <= self@.position <= self@.modifiers.len()
        &&& 0 <= self@.taken <= self@.total
        &&& self@.position < self@.modifiers.len() ==> (self@.taken < self@.modifiers[self@.position].count()
            || self@.taken == 0)
        &&& self@.position == self@.modifiers.len() ==> self@.taken == 0
    }

    pub open spec fn is_done(&self) -> bool {
        self@.position >= self@.modifiers.len()
    }

    /// First-parent steps taken so far.
    pub fn steps_taken(&self) -> (r: usize)
        ensures
            r == self@.total,
    {
        self.total
    }

    /// The object to load next, or the resolved hash.
    pub fn next_action(&self) -> (r: WalkAction)
        ensures
            match r {
                WalkAction::Load(h) => !self.is_done() && h@ == self@.current,
                WalkAction::Done(h) => self.is_done() && h@ == self@.current,
            },
    {
        if self.position < self.modifiers.len() {
            WalkAction::Load(self.current.copy())
        } else {
            WalkAction::Done(self.current.copy())
        }
    }

    /// Takes the step that the loaded object `o`, found at the current hash,
    /// allows.
    pub fn advance(&mut self, o: &Object) -> (r: Result<(), RevisionError>)
        requires
            old(self).wf(),
            !old(self).is_done(),
            old(self)@.total < usize::MAX,
        ensures
            match walk_step(old(self)@, o@) {
                Ok(w) => r is Ok && final(self)@ == w && final(self).wf(),
                Err(e) => r == Err::<(), RevisionError>(e),
            },
    {
        let len = self.modifiers.len();
        proof {
            assert(self.position < len);
        }
        let n = self.modifiers[self.position].steps();
        let parent = match o {
            crate::object::Object::Commit(c) => {
                if c.parent_hashes.len() > 0 {
                    Some(c.parent_hashes[0].copy())
                } else {
                    None
                }
            },
            _ => return Err(RevisionError::NotACommit),
        };
        if n == 0 {
            self.position = self.position + 1;
            self.taken = 0;
            return Ok(());
        }
        match parent {
            None => Err(RevisionError::RevisionNotFound { reached: self.total }),
            Some(p) => {
                self.current = p;
                self.total = self.total + 1;
                if self.taken + 1 == n {
                    self.position = self.position + 1;
                    self.taken = 0;
                } else {
                    self.taken = self.taken + 1;
                }
                Ok(())
            },
        }
    }
}

} // verus!
