//! The bookmark store: the full content of the backing file as a sequence of
//! lines in insertion order, with the load, append and remove operations that
//! every read and write of the file goes through. The surrounding program
//! reads the file into a store and writes the store back after a mutation; no
//! file handle is held between operations.

use vstd::prelude::*;
use crate::codec::{Bookmark, BookmarkView, StoreError, DELIM, decode, decode_spec, encode_line,
    line_of, lemma_decode_line_of, lemma_round_trip, strip_delims, views_of_records};
use crate::lookup::eq_ignore_case;

verus! {

/// A line fit for the one-record-per-line file: it holds no newline.
pub open spec fn line_clean(l: Seq<char>) -> bool {
    !l.contains('\n')
}

/// The views of a sequence of lines.
pub open spec fn views_of_lines(lines: Seq<String>) -> Seq<Seq<char>> {
    Seq::new(lines.len(), |i: int| lines[i]@)
}

/// A line that removing `alias` deletes: it starts with the alias followed by
/// the delimiter. The match is exact, letter case included.
pub open spec fn line_matches(l: Seq<char>, alias: Seq<char>) -> bool {
    &&& l.len() > alias.len()
    &&& l.subrange(0, alias.len() as int) == alias
    &&& l[alias.len() as int] == DELIM
}

/// The lines that removing `alias` keeps, in their original order.
pub open spec fn keep_lines(lines: Seq<Seq<char>>, alias: Seq<char>) -> Seq<Seq<char>>
    decreases lines.len(),
{
    if lines.len() == 0 {
        Seq::empty()
    } else if line_matches(lines.last(), alias) {
        keep_lines(lines.drop_last(), alias)
    } else {
        keep_lines(lines.drop_last(), alias).push(lines.last())
    }
}

/// What loading a file content yields: each non-empty line decoded, in file
/// order; nothing if any non-empty line cannot be decoded.
pub open spec fn load_spec(lines: Seq<Seq<char>>) -> Option<Seq<BookmarkView>>
    decreases lines.len(),
{
    if lines.len() == 0 {
        Some(Seq::empty())
    } else {
        match load_spec(lines.drop_last()) {
            None => None,
            Some(v) => {
                let l = lines.last();
                if l.len() == 0 {
                    Some(v)
                } else {
                    match decode_spec(l) {
                        None => None,
                        Some(b) => Some(v.push(b)),
                    }
                }
            },
        }
    }
}

/// The content the backing file has after initialization: what it already
/// held, or empty where it did not yet exist.
pub open spec fn init_content(existing: Option<Seq<Seq<char>>>) -> Seq<Seq<char>> {
    match existing {
        Some(c) => c,
        None => Seq::empty(),
    }
}

/// The views of an optional store, as initialization takes it.
pub open spec fn store_views(existing: Option<BookmarkStore>) -> Option<Seq<Seq<char>>> {
    match existing {
        Some(st) => Some(st@),
        None => None,
    }
}

/// The bookmark store: one record per line, in insertion order.
pub struct BookmarkStore {
    lines: Vec<String>,
}

impl View for BookmarkStore {
    type V = Seq<Seq<char>>;

    closed spec fn view(&self) -> Seq<Seq<char>> {
        views_of_lines(self.lines@)
    }
}

impl BookmarkStore {
    /// Every line of the store is free of newlines, so that the file keeps
    /// one record per line.
    pub open spec fn wf(&self) -> bool {
        forall|i: int| 0 <= i < self@.len() ==> line_clean(#[trigger] self@[i])
    }

    /// A store for an empty file.
    pub fn new() -> (s: Self)
        ensures
            s@ == Seq::<Seq<char>>::empty(),
            s.wf(),
    {
        let s = BookmarkStore { lines: Vec::new() };
        proof {
            assert(s@ =~= Seq::<Seq<char>>::empty());
        }
        s
    }

    /// A store holding the given lines, as read from the backing file.
    pub fn from_lines(lines: Vec<String>) -> (s: Self)
        requires
            forall|i: int| 0 <= i < lines@.len() ==> line_clean(#[trigger] lines@[i]@),
        ensures
            s@.len() == lines@.len(),
            forall|i: int| 0 <= i < lines@.len() ==> s@[i] == #[trigger] lines@[i]@,
            s.wf(),
    {
        BookmarkStore { lines }
    }

    /// The lines of the file, in order, for writing back to disk.
    pub fn lines(&self) -> (r: &Vec<String>)
        ensures
            r@.len() == self@.len(),
            forall|i: int| 0 <= i < self@.len() ==> #[trigger] r@[i]@ == self@[i],
    {
        &self.lines
    }

    /// Set up the store for a backing file that may not yet exist: an
    /// existing file keeps its content untouched, a missing one starts empty.
    /// Safe to call on every program invocation.
    pub fn ensure_initialized(existing: Option<BookmarkStore>) -> (s: BookmarkStore)
        requires
            existing matches Some(st) ==> st.wf(),
        ensures
            s.wf(),
            s@ == init_content(store_views(existing)),
    {
        match existing {
            Some(st) => st,
            None => BookmarkStore::new(),
        }
    }
}

/// Joining newline-free fields with the delimiter gives a newline-free line.
proof fn lemma_line_of_clean(r: BookmarkView)
    requires
        !r.alias.contains('\n'),
        !r.kind.contains('\n'),
        !r.value.contains('\n'),
    ensures
        line_clean(line_of(r)),
{
    let l = line_of(r);
    let a = r.alias.len() as int;
    let k = r.kind.len() as int;
    assert forall|i: int| 0 <= i < l.len() implies l[i] != '\n' by {
        if i < a {
            assert(l[i] == r.alias[i]);
            if l[i] == '\n' {
                assert(r.alias.contains('\n'));
            }
        } else if i == a {
            assert(l[i] == DELIM);
        } else if i < a + 1 + k {
            assert(l[i] == r.kind[i - a - 1]);
            if l[i] == '\n' {
                assert(r.kind.contains('\n'));
            }
        } else if i == a + 1 + k {
            assert(l[i] == DELIM);
        } else {
            assert(l[i] == r.value[i - a - 2 - k]);
            if l[i] == '\n' {
                assert(r.value.contains('\n'));
            }
        }
    }
}

/// Whether `line` starts with `alias` followed by the delimiter: the exact,
/// case-sensitive test that removal uses.
fn line_matches_exec(line: &str, alias: &str) -> (r: bool)
    ensures
        r == line_matches(line@, alias@),
{
    let la = alias.unicode_len();
    let ll = line.unicode_len();
    if ll <= la {
        return false;
    }
    let mut i: usize = 0;
    while i < la
        invariant
            i <= la,
            la == alias@.len(),
            ll == line@.len(),
            ll > la,
            forall|k: int| 0 <= k < i ==> line@[k] == #[trigger] alias@[k],
        decreases la - i,
    {
        if line.get_char(i) != alias.get_char(i) {
            proof {
                assert(line@.subrange(0, la as int)[i as int] != alias@[i as int]);
            }
            return false;
        }
        i += 1;
    }
    if line.get_char(la) == DELIM {
        proof {
            assert(line@.subrange(0, la as int) =~= alias@);
        }
        true
    } else {
        false
    }
}

/// A malformed non-empty line anywhere in the content makes the whole load
/// yield nothing.
proof fn lemma_load_none(lines: Seq<Seq<char>>, i: int)
    requires
        0 <= i < lines.len(),
        lines[i].len() > 0,
        decode_spec(lines[i]) is None,
    ensures
        load_spec(lines) is None,
    decreases lines.len(),
{
    if i < lines.len() - 1 {
        lemma_load_none(lines.drop_last(), i);
    }
}

impl BookmarkStore {
    /// Append one record: exactly one new line, the record's fields joined by
    /// the delimiter, at the end of the file; every earlier line stays as it
    /// was. Duplicate aliases are not checked for: records with an alias
    /// already present accumulate beside it.
    pub fn append(&mut self, b: &Bookmark)
        requires
            old(self).wf(),
            !b.alias@.contains('\n'),
            !b.kind@.contains('\n'),
            !b.value@.contains('\n'),
        ensures
            final(self).wf(),
            final(self)@ == old(self)@.push(line_of(b@)),
    {
        let line = encode_line(b);
        self.lines.push(line);
        proof {
            lemma_line_of_clean(b@);
            assert(self@ =~= old(self)@.push(line_of(b@)));
        }
    }

    /// Remove every record whose line starts with `alias` followed by the
    /// delimiter — an exact, case-sensitive match on the stored alias, in
    /// contrast to the case-insensitive match that lookup uses. The remaining
    /// lines keep their relative order; nothing changes when no line matches.
    pub fn remove_by_alias(&mut self, alias: &str)
        requires
            old(self).wf(),
        ensures
            final(self).wf(),
            final(self)@ == keep_lines(old(self)@, alias@),
    {
        let n = self.lines.len();
        let mut kept: Vec<String> = Vec::new();
        let mut i: usize = 0;
        while i < n
            invariant
                i <= n,
                n == self.lines@.len(),
                self@ == old(self)@,
                old(self).wf(),
                views_of_lines(kept@) == keep_lines(self@.subrange(0, i as int), alias@),
                forall|j: int| 0 <= j < kept@.len() ==> line_clean(#[trigger] kept@[j]@),
            decreases n - i,
        {
            let ghost kept0 = kept@;
            let matched = line_matches_exec(self.lines[i].as_str(), alias);
            if !matched {
                let s = self.lines[i].clone();
                kept.push(s);
            }
            proof {
                let pre = self@.subrange(0, i + 1);
                assert(pre.drop_last() =~= self@.subrange(0, i as int));
                assert(pre.last() == self@[i as int]);
                assert(self@[i as int] == self.lines@[i as int]@);
                if matched {
                    assert(views_of_lines(kept@) == keep_lines(pre, alias@));
                } else {
                    assert(views_of_lines(kept@) =~= views_of_lines(kept0).push(
                        self.lines@[i as int]@));
                    assert(views_of_lines(kept@) == keep_lines(pre, alias@));
                }
            }
            i += 1;
        }
        proof {
            assert(self@.subrange(0, n as int) =~= self@);
        }
        self.lines = kept;
    }

    /// Load every record of the file: each non-empty line decoded via the
    /// record codec, in file order; an empty sequence where the file is
    /// empty. A malformed line aborts the whole load with `MalformedRecord`;
    /// there is no per-line recovery.
    pub fn load_all(&self) -> (r: Result<Vec<Bookmark>, StoreError>)
        ensures
            match r {
                Ok(v) => load_spec(self@) == Some(views_of_records(v@)),
                Err(e) => load_spec(self@) is None && e == StoreError::MalformedRecord,
            },
    {
        let n = self.lines.len();
        let mut out: Vec<Bookmark> = Vec::new();
        let mut i: usize = 0;
        while i < n
            invariant
                i <= n,
                n == self.lines@.len(),
                load_spec(self@.subrange(0, i as int)) == Some(views_of_records(out@)),
            decreases n - i,
        {
            let ghost out0 = out@;
            proof {
                let pre = self@.subrange(0, i + 1);
                assert(pre.drop_last() =~= self@.subrange(0, i as int));
                assert(pre.last() == self@[i as int]);
                assert(self@[i as int] == self.lines@[i as int]@);
            }
            let line = &self.lines[i];
            if !line.as_str().is_empty() {
                match decode(line.as_str()) {
                    Ok(b) => {
                        out.push(b);
                        proof {
                            assert(views_of_records(out@) =~= views_of_records(out0).push(b@));
                        }
                    },
                    Err(_) => {
                        proof {
                            lemma_load_none(self@, i as int);
                        }
                        return Err(StoreError::MalformedRecord);
                    },
                }
            }
            i += 1;
        }
        proof {
            assert(self@.subrange(0, n as int) =~= self@);
        }
        Ok(out)
    }
}

/// Whether `s` holds a newline character — what a caller outside the library
/// must rule out before it hands a field or a line to the store.
pub fn contains_newline(s: &str) -> (r: bool)
    ensures
        r == s@.contains('\n'),
{
    let n = s.unicode_len();
    let mut i: usize = 0;
    while i < n
        invariant
            i <= n,
            n == s@.len(),
            forall|k: int| 0 <= k < i ==> s@[k] != '\n',
        decreases n - i,
    {
        if s.get_char(i) == '\n' {
            assert(s@.contains('\n'));
            return true;
        }
        i += 1;
    }
    false
}

/// Removing an alias that no line matches leaves the content unchanged.
pub proof fn lemma_remove_noop(lines: Seq<Seq<char>>, alias: Seq<char>)
    requires
        forall|i: int| 0 <= i < lines.len() ==> !line_matches(#[trigger] lines[i], alias),
    ensures
        keep_lines(lines, alias) == lines,
    decreases lines.len(),
{
    if lines.len() > 0 {
        lemma_remove_noop(lines.drop_last(), alias);
        assert(keep_lines(lines, alias) =~= lines);
    }
}

/// The positions, in increasing order, of the lines that removing `alias`
/// keeps.
pub open spec fn kept_indices(lines: Seq<Seq<char>>, alias: Seq<char>) -> Seq<int>
    decreases lines.len(),
{
    if lines.len() == 0 {
        Seq::empty()
    } else if line_matches(lines.last(), alias) {
        kept_indices(lines.drop_last(), alias)
    } else {
        kept_indices(lines.drop_last(), alias).push(lines.len() - 1)
    }
}

/// Removal keeps the surviving lines in their original relative order, and
/// keeps exactly the lines the alias does not match: the surviving content
/// reads the original lines off at strictly increasing positions, each
/// survivor is a non-matching original line, and every non-matching line
/// survives.
pub proof fn lemma_remove_preserves_order(lines: Seq<Seq<char>>, alias: Seq<char>)
    ensures
        kept_indices(lines, alias).len() == keep_lines(lines, alias).len(),
        forall|a: int, b: int|
            0 <= a < b < kept_indices(lines, alias).len() ==> kept_indices(lines, alias)[a]
                < kept_indices(lines, alias)[b],
        forall|a: int|
            0 <= a < kept_indices(lines, alias).len() ==> {
                let idx = #[trigger] kept_indices(lines, alias)[a];
                &&& 0 <= idx < lines.len()
                &&& keep_lines(lines, alias)[a] == lines[idx]
                &&& !line_matches(lines[idx], alias)
            },
        forall|i: int|
            0 <= i < lines.len() && !line_matches(#[trigger] lines[i], alias) ==> kept_indices(
                lines,
                alias,
            ).contains(i),
    decreases lines.len(),
{
    if lines.len() > 0 {
        let prev = lines.drop_last();
        let n = lines.len() - 1;
        lemma_remove_preserves_order(prev, alias);
        assert(forall|j: int| 0 <= j < n ==> prev[j] == #[trigger] lines[j]);
        if line_matches(lines.last(), alias) {
            assert forall|a: int| 0 <= a < kept_indices(lines, alias).len() implies {
                let idx = #[trigger] kept_indices(lines, alias)[a];
                &&& 0 <= idx < lines.len()
                &&& keep_lines(lines, alias)[a] == lines[idx]
                &&& !line_matches(lines[idx], alias)
            } by {
                let idx = kept_indices(prev, alias)[a];
                assert(0 <= idx < prev.len());
                assert(prev[idx] == lines[idx]);
            }
            assert forall|i: int|
                0 <= i < lines.len() && !line_matches(#[trigger] lines[i], alias)
                implies kept_indices(lines, alias).contains(i) by {
                assert(i < n);
                assert(prev[i] == lines[i]);
                assert(kept_indices(prev, alias).contains(i));
            }
        } else {
            let ki = kept_indices(lines, alias);
            let kp = kept_indices(prev, alias);
            assert(ki == kp.push(n));
            assert forall|a: int| 0 <= a < ki.len() implies {
                let idx = #[trigger] ki[a];
                &&& 0 <= idx < lines.len()
                &&& keep_lines(lines, alias)[a] == lines[idx]
                &&& !line_matches(lines[idx], alias)
            } by {
                if a < kp.len() {
                    let idx = kp[a];
                    assert(ki[a] == idx);
                    assert(0 <= idx < prev.len());
                    assert(prev[idx] == lines[idx]);
                    assert(keep_lines(lines, alias)[a] == keep_lines(prev, alias)[a]);
                } else {
                    assert(ki[a] == n);
                    assert(keep_lines(lines, alias)[a] == lines.last());
                }
            }
            assert forall|a: int, b: int| 0 <= a < b < ki.len() implies ki[a] < ki[b] by {
                if b < kp.len() {
                    assert(ki[a] == kp[a] && ki[b] == kp[b]);
                } else {
                    assert(ki[b] == n);
                    assert(ki[a] == kp[a]);
                    assert(0 <= kp[a] < prev.len());
                }
            }
            assert forall|i: int|
                0 <= i < lines.len() && !line_matches(#[trigger] lines[i], alias)
                implies ki.contains(i) by {
                if i < n {
                    assert(prev[i] == lines[i]);
                    assert(kp.contains(i));
                    let j = choose|j: int| 0 <= j < kp.len() && kp[j] == i;
                    assert(ki[j] == i);
                } else {
                    assert(ki[ki.len() - 1] == n);
                }
            }
        }
    }
}

/// A removal already done is not disturbed by a later append: removing from
/// content with one more line at its end keeps the earlier removal's result
/// and only decides the new line on its own.
pub proof fn lemma_keep_lines_push(lines: Seq<Seq<char>>, alias: Seq<char>, l: Seq<char>)
    ensures
        keep_lines(lines.push(l), alias) == if line_matches(l, alias) {
            keep_lines(lines, alias)
        } else {
            keep_lines(lines, alias).push(l)
        },
{
    assert(lines.push(l).drop_last() =~= lines);
    assert(lines.push(l).last() == l);
}

/// Appending one record to an empty store and loading gives back exactly
/// that record, for any record whose fields are free of the delimiter.
pub proof fn lemma_append_then_load(r: BookmarkView)
    requires
        !r.alias.contains(DELIM),
        !r.kind.contains(DELIM),
        !r.value.contains(DELIM),
    ensures
        load_spec(Seq::<Seq<char>>::empty().push(line_of(r))) == Some(seq![r]),
{
    lemma_round_trip(r);
    let s = Seq::<Seq<char>>::empty().push(line_of(r));
    assert(s.drop_last() =~= Seq::<Seq<char>>::empty());
    assert(load_spec(Seq::<Seq<char>>::empty()) == Some(Seq::<BookmarkView>::empty()));
    assert(s.last() == line_of(r));
    assert(line_of(r).len() > 0);
    assert(Seq::<BookmarkView>::empty().push(r) =~= seq![r]);
}

/// Loading after an append sees every earlier record unchanged and the new
/// record, decoded, at the end: with a delimiter-free alias and kind it comes
/// back as appended, its value with any delimiters dropped.
pub proof fn lemma_load_after_append(lines: Seq<Seq<char>>, v: Seq<BookmarkView>, r: BookmarkView)
    requires
        load_spec(lines) == Some(v),
        !r.alias.contains(DELIM),
        !r.kind.contains(DELIM),
    ensures
        load_spec(lines.push(line_of(r))) == Some(
            v.push(BookmarkView { alias: r.alias, kind: r.kind, value: strip_delims(r.value) }),
        ),
{
    lemma_decode_line_of(r);
    assert(lines.push(line_of(r)).drop_last() =~= lines);
    assert(lines.push(line_of(r)).last() == line_of(r));
    assert(line_of(r).len() > 0);
}

/// Removal and lookup disagree on letter case on purpose: an alias that
/// matches a stored record's alias ignoring ASCII case, without being equal
/// to it character for character, is found by lookup, yet removing by it
/// leaves that record's line untouched.
pub proof fn lemma_case_asymmetry(stored: BookmarkView, target: Seq<char>)
    requires
        eq_ignore_case(stored.alias, target),
        stored.alias != target,
    ensures
        !line_matches(line_of(stored), target),
{
    if line_matches(line_of(stored), target) {
        assert(line_of(stored).subrange(0, target.len() as int) =~= stored.alias);
    }
}

/// Initialization is idempotent and loses nothing: initializing content that
/// initialization produced yields the same content again, and an existing
/// file's content is kept as it is.
pub proof fn lemma_ensure_initialized_idempotent(existing: Option<Seq<Seq<char>>>)
    ensures
        init_content(Some(init_content(existing))) == init_content(existing),
        existing matches Some(c) ==> init_content(existing) == c,
{
}

} // verus!
