//! Case-insensitive alias matching, as lookup uses it: removal matches
//! aliases exactly, lookup folds ASCII letter case first.

use vstd::prelude::*;
use crate::codec::{Bookmark, BookmarkView, views_of_records};

verus! {

/// The ASCII-lowercase scalar of a character: the letters A through Z fold
/// onto a through z, every other character stays itself.
pub open spec fn lower_scalar(c: char) -> u32 {
    if 65 <= c as u32 && c as u32 <= 90 {
        (c as u32 + 32) as u32
    } else {
        c as u32
    }
}

/// Two character sequences are equal ignoring ASCII letter case.
pub open spec fn eq_ignore_case(a: Seq<char>, b: Seq<char>) -> bool {
    &&& a.len() == b.len()
    &&& forall|i: int| 0 <= i < a.len() ==> lower_scalar(a[i]) == lower_scalar(#[trigger] b[i])
}

/// Whether two aliases match for lookup: equal ignoring ASCII letter case.
pub fn alias_matches(a: &str, b: &str) -> (r: bool)
    ensures
        r == eq_ignore_case(a@, b@),
{
    let la = a.unicode_len();
    let lb = b.unicode_len();
    if la != lb {
        return false;
    }
    let mut i: usize = 0;
    while i < la
        invariant
            i <= la,
            la == a@.len(),
            la == b@.len(),
            forall|k: int| 0 <= k < i ==> lower_scalar(a@[k]) == lower_scalar(#[trigger] b@[k]),
        decreases la - i,
    {
        let ca = a.get_char(i) as u32;
        let cb = b.get_char(i) as u32;
        let fa = if 65 <= ca && ca <= 90 { ca + 32 } else { ca };
        let fb = if 65 <= cb && cb <= 90 { cb + 32 } else { cb };
        if fa != fb {
            assert(lower_scalar(a@[i as int]) != lower_scalar(b@[i as int]));
            return false;
        }
        i += 1;
    }
    true
}

/// The positions, in order, of the records whose alias equals `target`
/// ignoring ASCII case: every match, not just the first.
pub open spec fn match_indices(v: Seq<BookmarkView>, target: Seq<char>) -> Seq<int>
    decreases v.len(),
{
    if v.len() == 0 {
        Seq::empty()
    } else if eq_ignore_case(v.last().alias, target) {
        match_indices(v.drop_last(), target).push(v.len() - 1)
    } else {
        match_indices(v.drop_last(), target)
    }
}

/// The positions, in file order, of every bookmark whose alias equals
/// `target` ignoring ASCII letter case — the records a lookup acts on.
pub fn find_matches(bookmarks: &Vec<Bookmark>, target: &str) -> (r: Vec<usize>)
    ensures
        Seq::new(r@.len(), |i: int| r@[i] as int) == match_indices(
            views_of_records(bookmarks@),
            target@,
        ),
        forall|i: int| 0 <= i < r@.len() ==> #[trigger] r@[i] < bookmarks@.len(),
{
    let ghost views = views_of_records(bookmarks@);
    let n = bookmarks.len();
    let mut r: Vec<usize> = Vec::new();
    let mut i: usize = 0;
    while i < n
        invariant
            i <= n,
            n == bookmarks@.len(),
            views == views_of_records(bookmarks@),
            Seq::new(r@.len(), |k: int| r@[k] as int) == match_indices(
                views.subrange(0, i as int),
                target@,
            ),
            forall|k: int| 0 <= k < r@.len() ==> #[trigger] r@[k] < n,
        decreases n - i,
    {
        let ghost r0 = r@;
        if alias_matches(bookmarks[i].alias.as_str(), target) {
            r.push(i);
        }
        proof {
            let pre = views.subrange(0, i + 1);
            assert(pre.drop_last() =~= views.subrange(0, i as int));
            assert(pre.last() == views[i as int]);
            assert(views[i as int] == bookmarks@[i as int]@);
            assert(Seq::new(r@.len(), |k: int| r@[k] as int) =~= match_indices(pre, target@));
        }
        i += 1;
    }
    proof {
        assert(views.subrange(0, n as int) =~= views);
    }
    r
}

} // verus!
