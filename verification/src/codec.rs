//! The record codec: one bookmark to and from one line of the delimited
//! text format `alias;kind;value`.

use vstd::prelude::*;

verus! {

/// The field delimiter of the stored format.
pub const DELIM: char = ';';

/// A bookmark: a user-chosen alias, a free-form kind tag, and a value payload
/// (in current use a filesystem path).
#[derive(Debug, PartialEq, Eq)]
pub struct Bookmark {
    pub alias: String,
    pub kind: String,
    pub value: String,
}

/// The mathematical content of a bookmark: its three fields as character
/// sequences.
#[verifier::ext_equal]
pub struct BookmarkView {
    pub alias: Seq<char>,
    pub kind: Seq<char>,
    pub value: Seq<char>,
}

impl View for Bookmark {
    type V = BookmarkView;

    open spec fn view(&self) -> BookmarkView {
        BookmarkView { alias: self.alias@, kind: self.kind@, value: self.value@ }
    }
}

/// The two failure kinds of the store: the backing file cannot be created,
/// opened, read or written; or a stored line has no delimiter, so it lacks
/// the kind segment that every record needs.
#[derive(Debug, PartialEq, Eq, Clone, Copy)]
pub enum StoreError {
    StorageUnavailable,
    MalformedRecord,
}

/// The views of a sequence of records.
pub open spec fn views_of_records(v: Seq<Bookmark>) -> Seq<BookmarkView> {
    Seq::new(v.len(), |i: int| v[i]@)
}

/// The one-line textual form of a record, without the trailing newline:
/// the three fields joined by the delimiter.
pub open spec fn line_of(r: BookmarkView) -> Seq<char> {
    r.alias + seq![DELIM] + r.kind + seq![DELIM] + r.value
}

/// The full encoded form of a record: its line followed by a newline.
pub open spec fn encode_spec(r: BookmarkView) -> Seq<char> {
    line_of(r) + seq!['\n']
}

/// Index of the first delimiter in `s`, or `s.len()` if there is none.
pub open spec fn find_delim(s: Seq<char>) -> int
    decreases s.len(),
{
    if s.len() == 0 {
        0
    } else if s[0] == DELIM {
        0
    } else {
        1 + find_delim(s.drop_first())
    }
}

/// `s` with every delimiter character removed: what joining the
/// delimiter-split segments of `s` with an empty separator leaves behind.
pub open spec fn strip_delims(s: Seq<char>) -> Seq<char>
    decreases s.len(),
{
    if s.len() == 0 {
        Seq::empty()
    } else if s.last() == DELIM {
        strip_delims(s.drop_last())
    } else {
        strip_delims(s.drop_last()).push(s.last())
    }
}

/// What decoding one line (trailing newline already stripped) yields: the
/// segment before the first delimiter is the alias, the segment after it up
/// to the next delimiter is the kind, and everything beyond the second
/// delimiter, with any further delimiters dropped, is the value — the split
/// segments rejoined with an empty separator. A line with no delimiter has no
/// kind segment and cannot be decoded.
pub open spec fn decode_spec(line: Seq<char>) -> Option<BookmarkView> {
    let i = find_delim(line);
    if i == line.len() {
        None
    } else {
        let rest = line.subrange(i + 1, line.len() as int);
        let j = find_delim(rest);
        Some(
            BookmarkView {
                alias: line.subrange(0, i),
                kind: rest.subrange(0, j),
                value: if j == rest.len() {
                    Seq::empty()
                } else {
                    strip_delims(rest.subrange(j + 1, rest.len() as int))
                },
            },
        )
    }
}

/// A position with no delimiter before it, holding a delimiter or sitting at
/// the end of a delimiter-free sequence, is the first delimiter position.
proof fn lemma_find_delim_at(s: Seq<char>, i: int)
    requires
        0 <= i <= s.len(),
        forall|k: int| 0 <= k < i ==> s[k] != DELIM,
        i < s.len() ==> s[i] == DELIM,
    ensures
        find_delim(s) == i,
    decreases s.len(),
{
    if s.len() == 0 {
    } else if s[0] == DELIM {
        assert(i == 0);
    } else {
        assert(i >= 1);
        assert forall|k: int| 0 <= k < i - 1 implies s.drop_first()[k] != DELIM by {
            assert(s[k + 1] != DELIM);
        }
        lemma_find_delim_at(s.drop_first(), i - 1);
    }
}

/// Index of the first delimiter in `line`, or its length if there is none.
fn find_delim_exec(line: &str) -> (r: usize)
    ensures
        r as int == find_delim(line@),
        r <= line@.len(),
{
    let n = line.unicode_len();
    let mut i: usize = 0;
    while i < n
        invariant
            i <= n,
            n == line@.len(),
            forall|k: int| 0 <= k < i ==> line@[k] != DELIM,
        decreases n - i,
    {
        if line.get_char(i) == DELIM {
            proof {
                lemma_find_delim_at(line@, i as int);
            }
            return i;
        }
        i += 1;
    }
    proof {
        lemma_find_delim_at(line@, n as int);
    }
    n
}

/// `s` with every delimiter character removed.
fn strip_delims_exec(s: &str) -> (r: String)
    ensures
        r@ == strip_delims(s@),
{
    let n = s.unicode_len();
    let mut out = String::new();
    let mut i: usize = 0;
    while i < n
        invariant
            i <= n,
            n == s@.len(),
            out@ == strip_delims(s@.subrange(0, i as int)),
        decreases n - i,
    {
        let c = s.get_char(i);
        if c != DELIM {
            out.append(s.substring_char(i, i + 1));
        }
        proof {
            let pre = s@.subrange(0, i + 1);
            assert(pre.drop_last() =~= s@.subrange(0, i as int));
            assert(pre.last() == s@[i as int]);
            if c != DELIM {
                assert(s@.subrange(i as int, i + 1) =~= seq![s@[i as int]]);
                assert(out@ =~= strip_delims(pre));
            }
        }
        i += 1;
    }
    proof {
        assert(s@.subrange(0, n as int) =~= s@);
    }
    out
}

/// Decode one line of the store file (trailing newline already stripped):
/// split on the delimiter, take the first segment as the alias, the second as
/// the kind, and the remaining segments joined back together as the value.
/// Fails exactly when the line holds no delimiter at all, so that no kind
/// segment exists.
pub fn decode(line: &str) -> (r: Result<Bookmark, StoreError>)
    ensures
        match r {
            Ok(b) => decode_spec(line@) == Some(b@),
            Err(e) => decode_spec(line@) is None && e == StoreError::MalformedRecord,
        },
{
    let n = line.unicode_len();
    let i = find_delim_exec(line);
    if i == n {
        return Err(StoreError::MalformedRecord);
    }
    let alias = String::from_str(line.substring_char(0, i));
    let rest = line.substring_char(i + 1, n);
    let m = rest.unicode_len();
    let j = find_delim_exec(rest);
    let kind = String::from_str(rest.substring_char(0, j));
    let value = if j == m {
        String::new()
    } else {
        strip_delims_exec(rest.substring_char(j + 1, m))
    };
    let b = Bookmark { alias, kind, value };
    proof {
        assert(rest@ == line@.subrange(i + 1, n as int));
        assert(decode_spec(line@) == Some(b@));
    }
    Ok(b)
}

/// Encode a record as one line of the store file, without the trailing
/// newline.
pub fn encode_line(b: &Bookmark) -> (r: String)
    ensures
        r@ == line_of(b@),
{
    proof {
        reveal_strlit(";");
    }
    let mut out = String::new();
    out.append(b.alias.as_str());
    out.append(";");
    out.append(b.kind.as_str());
    out.append(";");
    out.append(b.value.as_str());
    proof {
        assert(out@ =~= line_of(b@));
    }
    out
}

/// Encode a record for appending to the store file: its line followed by a
/// newline character.
pub fn encode(b: &Bookmark) -> (r: String)
    ensures
        r@ == encode_spec(b@),
{
    proof {
        reveal_strlit("\n");
    }
    let mut out = encode_line(b);
    out.append("\n");
    proof {
        assert(out@ =~= encode_spec(b@));
    }
    out
}

/// A sequence free of the delimiter is unchanged by `strip_delims`.
pub proof fn lemma_strip_delims_clean(s: Seq<char>)
    requires
        !s.contains(DELIM),
    ensures
        strip_delims(s) == s,
    decreases s.len(),
{
    if s.len() > 0 {
        assert(s[s.len() - 1] != DELIM);
        assert(!s.drop_last().contains(DELIM)) by {
            if s.drop_last().contains(DELIM) {
                let j = choose|j: int| 0 <= j < s.drop_last().len() && s.drop_last()[j] == DELIM;
                assert(s[j] == DELIM);
            }
        }
        lemma_strip_delims_clean(s.drop_last());
        assert(strip_delims(s) =~= s);
    }
}

/// `strip_delims` never lengthens a sequence.
proof fn lemma_strip_delims_len(s: Seq<char>)
    ensures
        strip_delims(s).len() <= s.len(),
    decreases s.len(),
{
    if s.len() > 0 {
        lemma_strip_delims_len(s.drop_last());
    }
}

/// Removing the delimiters from a sequence that holds one strictly shortens
/// it.
pub proof fn lemma_strip_delims_shorter(s: Seq<char>)
    requires
        s.contains(DELIM),
    ensures
        strip_delims(s).len() < s.len(),
    decreases s.len(),
{
    if s.last() == DELIM {
        lemma_strip_delims_len(s.drop_last());
    } else {
        let j = choose|j: int| 0 <= j < s.len() && s[j] == DELIM;
        assert(s.drop_last()[j] == DELIM);
        assert(s.drop_last().contains(DELIM));
        lemma_strip_delims_shorter(s.drop_last());
    }
}

/// Decoding the encoded line of a record whose alias and kind are free of the
/// delimiter recovers the alias and the kind exactly, and recovers the value
/// with every delimiter character removed: rejoining the split segments is
/// lossy exactly there.
pub proof fn lemma_decode_line_of(r: BookmarkView)
    requires
        !r.alias.contains(DELIM),
        !r.kind.contains(DELIM),
    ensures
        decode_spec(line_of(r)) == Some(
            BookmarkView { alias: r.alias, kind: r.kind, value: strip_delims(r.value) },
        ),
{
    let l = line_of(r);
    let a = r.alias.len() as int;
    let k = r.kind.len() as int;
    assert(l.len() == a + k + r.value.len() + 2);
    assert forall|i: int| 0 <= i < a implies l[i] != DELIM by {
        assert(l[i] == r.alias[i]);
        if l[i] == DELIM {
            assert(r.alias.contains(DELIM));
        }
    }
    assert(l[a] == DELIM);
    lemma_find_delim_at(l, a);
    let rest = l.subrange(a + 1, l.len() as int);
    assert(rest =~= r.kind + seq![DELIM] + r.value);
    assert forall|i: int| 0 <= i < k implies rest[i] != DELIM by {
        assert(rest[i] == r.kind[i]);
        if rest[i] == DELIM {
            assert(r.kind.contains(DELIM));
        }
    }
    assert(rest[k] == DELIM);
    lemma_find_delim_at(rest, k);
    assert(k != rest.len());
    assert(l.subrange(0, a) =~= r.alias);
    assert(rest.subrange(0, k) =~= r.kind);
    assert(rest.subrange(k + 1, rest.len() as int) =~= r.value);
}

/// Round trip: for a record all of whose fields are free of the delimiter,
/// stripping the trailing newline from the encoded form gives the record's
/// line, and decoding that line gives the record back unchanged.
pub proof fn lemma_round_trip(r: BookmarkView)
    requires
        !r.alias.contains(DELIM),
        !r.kind.contains(DELIM),
        !r.value.contains(DELIM),
    ensures
        encode_spec(r).drop_last() == line_of(r),
        decode_spec(line_of(r)) == Some(r),
{
    lemma_decode_line_of(r);
    lemma_strip_delims_clean(r.value);
    assert(BookmarkView { alias: r.alias, kind: r.kind, value: strip_delims(r.value) } =~= r);
    assert(encode_spec(r).drop_last() =~= line_of(r));
}

/// A value that holds the delimiter does not round-trip: the decoded value is
/// the stored one with its delimiters dropped, a strictly shorter sequence.
pub proof fn lemma_lossy_value(r: BookmarkView)
    requires
        !r.alias.contains(DELIM),
        !r.kind.contains(DELIM),
        r.value.contains(DELIM),
    ensures
        decode_spec(line_of(r)) matches Some(b) && b.value != r.value,
{
    lemma_decode_line_of(r);
    lemma_strip_delims_shorter(r.value);
}

} // verus!
