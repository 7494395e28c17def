//! Line classifiers for the block scanner: the whitespace-tolerant list
//! openers `dependencies = [` and `exports = [`, and the closing-bracket
//! test.

use vstd::prelude::*;
use vstd::string::StrSliceExecFns;
use crate::text::{contains_at, is_space, matches_at, seq_contains, space_char, str_contains};

verus! {

/// The keyword of a dependencies opener.
pub open spec fn deps_kw() -> Seq<char> {
    seq!['d', 'e', 'p', 'e', 'n', 'd', 'e', 'n', 'c', 'i', 'e', 's']
}

/// The keyword of an exports opener.
pub open spec fn exports_kw() -> Seq<char> {
    seq!['e', 'x', 'p', 'o', 'r', 't', 's']
}

/// After position `s`: spaces up to an '=' at `j`, spaces up to a '[' at `k`.
pub open spec fn tail_at(l: Seq<char>, s: int, j: int, k: int) -> bool {
    &&& s <= j < k < l.len()
    &&& l[j] == '='
    &&& l[k] == '['
    &&& (forall|m: int| s <= m < j ==> is_space(l[m]))
    &&& (forall|m: int| j < m < k ==> is_space(l[m]))
}

/// The opener pattern — keyword, optional spaces, '=', optional spaces,
/// '[' — starts at position `i`.
pub open spec fn opener_from(l: Seq<char>, kw: Seq<char>, i: int) -> bool {
    &&& contains_at(l, kw, i)
    &&& exists|j: int, k: int| #[trigger] tail_at(l, i + kw.len(), j, k)
}

/// The line contains the opener pattern for `kw` somewhere.
pub open spec fn matches_opener(l: Seq<char>, kw: Seq<char>) -> bool {
    exists|i: int| opener_from(l, kw, i)
}

/// Looks for '=' then '[' separated only by spaces, from position `s` on.
fn opener_tail(line: &str, n: usize, s: usize) -> (r: bool)
    requires
        n == line@.len(),
        s <= n,
    ensures
        r == exists|j: int, k: int| tail_at(line@, s as int, j, k),
{
    let l = line;
    let mut j: usize = s;
    while j < n && space_char(l.get_char(j))
        invariant
            n == l@.len(),
            s <= j <= n,
            forall|m: int| s <= m < j ==> is_space(l@[m]),
        decreases n - j,
    {
        j += 1;
    }
    if j >= n || l.get_char(j) != '=' {
        proof {
            if exists|j2: int, k: int| tail_at(l@, s as int, j2, k) {
                let (j2, k) = choose|j2: int, k: int| tail_at(l@, s as int, j2, k);
                if j2 < j {
                    assert(is_space(l@[j2]));
                } else if j2 > j {
                    assert(is_space(l@[j as int]));
                }
                assert(false);
            }
        }
        return false;
    }
    let e = j;
    let mut k: usize = e + 1;
    while k < n && space_char(l.get_char(k))
        invariant
            n == l@.len(),
            e + 1 <= k <= n,
            forall|m: int| e < m < k ==> is_space(l@[m]),
        decreases n - k,
    {
        k += 1;
    }
    if k < n && l.get_char(k) == '[' {
        proof {
            assert(tail_at(l@, s as int, e as int, k as int));
        }
        true
    } else {
        proof {
            if exists|j2: int, k2: int| tail_at(l@, s as int, j2, k2) {
                let (j2, k2) = choose|j2: int, k2: int| tail_at(l@, s as int, j2, k2);
                if j2 < e {
                    assert(is_space(l@[j2]));
                } else if j2 > e {
                    assert(is_space(l@[e as int]));
                }
                assert(j2 == e);
                if k2 < k {
                    assert(is_space(l@[k2]));
                } else if k2 > k {
                    assert(is_space(l@[k as int]));
                }
                assert(false);
            }
        }
        false
    }
}

/// Scans the line for the opener pattern of `kw`.
fn opener_match(line: &str, kw: &str) -> (r: bool)
    requires
        kw@.len() >= 1,
    ensures
        r == matches_opener(line@, kw@),
{
    let n = line.unicode_len();
    let m = kw.unicode_len();
    if m > n {
        assert(forall|p: int| !opener_from(line@, kw@, p));
        return false;
    }
    let mut i: usize = 0;
    while i <= n - m
        invariant
            n == line@.len(),
            m == kw@.len(),
            1 <= m <= n,
            i <= n - m + 1,
            forall|p: int| 0 <= p < i ==> !opener_from(line@, kw@, p),
        decreases n - m + 1 - i,
    {
        if matches_at(line, n, i, kw, m) {
            if opener_tail(line, n, i + m) {
                proof {
                    assert(opener_from(line@, kw@, i as int));
                }
                return true;
            }
        }
        i += 1;
    }
    assert(forall|p: int| !opener_from(line@, kw@, p)) by {
        assert(forall|p: int| p + m > n ==> !contains_at(line@, kw@, p));
    }
    false
}

/// The line opens a dependencies list: it matches `dependencies`, optional
/// whitespace, `=`, optional whitespace, `[`.
pub fn deps_block_start(line: &str) -> (r: bool)
    ensures
        r == matches_opener(line@, deps_kw()),
{
    proof {
        reveal_strlit("dependencies");
        assert("dependencies"@ =~= deps_kw());
    }
    opener_match(line, "dependencies")
}

/// The line opens an exports list, by the same pattern.
pub fn exports_block_start(line: &str) -> (r: bool)
    ensures
        r == matches_opener(line@, exports_kw()),
{
    proof {
        reveal_strlit("exports");
        assert("exports"@ =~= exports_kw());
    }
    opener_match(line, "exports")
}

/// The line closes a block: it contains a `]`.
pub fn block_ends(line: &str) -> (r: bool)
    ensures
        r == seq_contains(line@, seq![']']),
{
    proof {
        reveal_strlit("]");
        assert("]"@ =~= seq![']']);
    }
    str_contains(line, "]")
}

} // verus!
