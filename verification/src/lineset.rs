//! Block content as a deduplicated, ascending set of lines: the ordered
//! insertion that the scanner uses to rebuild a block canonically.

use vstd::prelude::*;
use crate::text::{lex_lt, lemma_lex_trichotomy, lemma_lex_trans, str_eq, str_lt};

verus! {

/// Strictly ascending (hence duplicate-free) sequence of lines.
pub open spec fn sorted_strict(s: Seq<Seq<char>>) -> bool {
    forall|i: int, j: int| 0 <= i < j < s.len() ==> lex_lt(s[i], s[j])
}

/// Insertion into an ascending sequence; inserting a member changes nothing.
pub open spec fn sorted_insert(s: Seq<Seq<char>>, x: Seq<char>) -> Seq<Seq<char>>
    decreases s.len(),
{
    if s.len() == 0 {
        seq![x]
    } else if lex_lt(x, s[0]) {
        seq![x] + s
    } else if x == s[0] {
        s
    } else {
        seq![s[0]] + sorted_insert(s.drop_first(), x)
    }
}

/// What `sorted_insert` does: keeps the order strict, adds exactly `x` to the
/// members, and leaves a sequence that already holds `x` unchanged.
pub proof fn lemma_sorted_insert_props(s: Seq<Seq<char>>, x: Seq<char>)
    requires
        sorted_strict(s),
    ensures
        sorted_strict(sorted_insert(s, x)),
        forall|y: Seq<char>| sorted_insert(s, x).contains(y) <==> (s.contains(y) || y == x),
        s.contains(x) ==> sorted_insert(s, x) == s,
        !s.contains(x) ==> sorted_insert(s, x).len() == s.len() + 1,
    decreases s.len(),
{
    let r = sorted_insert(s, x);
    if s.len() == 0 {
        assert(r =~= seq![x]);
        assert(r[0] == x);
        assert(forall|y: Seq<char>| r.contains(y) ==> y == x);
        assert(r.contains(x));
        assert(!s.contains(x));
    } else {
        lemma_lex_trichotomy(x, s[0]);
        if lex_lt(x, s[0]) {
            assert(r =~= seq![x] + s);
            assert forall|i: int, j: int| 0 <= i < j < r.len() implies lex_lt(r[i], r[j]) by {
                if i == 0 {
                    assert(r[0] == x);
                    assert(r[j] == s[j - 1]);
                    if j > 1 {
                        lemma_lex_trans(x, s[0], s[j - 1]);
                    }
                } else {
                    assert(r[i] == s[i - 1]);
                    assert(r[j] == s[j - 1]);
                }
            }
            assert forall|y: Seq<char>| r.contains(y) implies (s.contains(y) || y == x) by {
                let i = choose|i: int| 0 <= i < r.len() && r[i] == y;
                if i > 0 {
                    assert(s[i - 1] == y);
                    assert(s.contains(y));
                }
            }
            assert forall|y: Seq<char>| s.contains(y) || y == x implies r.contains(y) by {
                if s.contains(y) {
                    let i = choose|i: int| 0 <= i < s.len() && s[i] == y;
                    assert(r[i + 1] == y);
                } else {
                    assert(r[0] == y);
                }
            }
            if s.contains(x) {
                let i = choose|i: int| 0 <= i < s.len() && s[i] == x;
                if i == 0 {
                    assert(false);
                } else {
                    assert(lex_lt(s[0], s[i]));
                    lemma_lex_trichotomy(x, s[0]);
                    lemma_lex_trans(x, s[0], x);
                    lemma_lex_trichotomy(x, x);
                    assert(false);
                }
            }
        } else if x == s[0] {
            assert(r == s);
            assert(s.contains(x)) by {
                assert(s[0] == x);
            }
        } else {
            assert(lex_lt(s[0], x));
            let d = s.drop_first();
            assert(sorted_strict(d)) by {
                assert forall|i: int, j: int| 0 <= i < j < d.len() implies lex_lt(d[i], d[j]) by {
                    assert(d[i] == s[i + 1]);
                    assert(d[j] == s[j + 1]);
                }
            }
            lemma_sorted_insert_props(d, x);
            let t = sorted_insert(d, x);
            assert(r =~= seq![s[0]] + t);
            // every element of t is above s[0]
            assert forall|j: int| 0 <= j < t.len() implies lex_lt(s[0], t[j]) by {
                assert(t.contains(t[j]));
                if t[j] == x {
                } else {
                    assert(d.contains(t[j]));
                    let k = choose|k: int| 0 <= k < d.len() && d[k] == t[j];
                    assert(d[k] == s[k + 1]);
                    assert(lex_lt(s[0], s[k + 1]));
                }
            }
            assert forall|i: int, j: int| 0 <= i < j < r.len() implies lex_lt(r[i], r[j]) by {
                if i == 0 {
                    assert(r[j] == t[j - 1]);
                } else {
                    assert(r[i] == t[i - 1]);
                    assert(r[j] == t[j - 1]);
                }
            }
            assert forall|y: Seq<char>| r.contains(y) implies (s.contains(y) || y == x) by {
                let i = choose|i: int| 0 <= i < r.len() && r[i] == y;
                if i == 0 {
                    assert(s[0] == y);
                    assert(s.contains(y));
                } else {
                    assert(t[i - 1] == y);
                    assert(t.contains(y));
                    if d.contains(y) {
                        let k = choose|k: int| 0 <= k < d.len() && d[k] == y;
                        assert(s[k + 1] == y);
                        assert(s.contains(y));
                    }
                }
            }
            assert forall|y: Seq<char>| s.contains(y) || y == x implies r.contains(y) by {
                if s.contains(y) {
                    let i = choose|i: int| 0 <= i < s.len() && s[i] == y;
                    if i == 0 {
                        assert(r[0] == y);
                    } else {
                        assert(d[i - 1] == y);
                        assert(d.contains(y));
                        assert(t.contains(y));
                        let k = choose|k: int| 0 <= k < t.len() && t[k] == y;
                        assert(r[k + 1] == y);
                    }
                } else {
                    assert(t.contains(y));
                    let k = choose|k: int| 0 <= k < t.len() && t[k] == y;
                    assert(r[k + 1] == y);
                }
            }
            if s.contains(x) {
                let i = choose|i: int| 0 <= i < s.len() && s[i] == x;
                assert(i > 0);
                assert(d[i - 1] == x);
                assert(d.contains(x));
                assert(t == d);
                assert(r =~= s);
            }
            if !s.contains(x) {
                assert(!d.contains(x)) by {
                    if d.contains(x) {
                        let k = choose|k: int| 0 <= k < d.len() && d[k] == x;
                        assert(s[k + 1] == x);
                        assert(s.contains(x));
                    }
                }
            }
        }
    }
}

/// `sorted_insert` placed by position: at the first index whose element is
/// not below `x`, the insertion either finds `x` or splices it in there.
pub proof fn lemma_sorted_insert_position(s: Seq<Seq<char>>, x: Seq<char>, p: int)
    requires
        sorted_strict(s),
        0 <= p <= s.len(),
        forall|k: int| 0 <= k < p ==> lex_lt(s[k], x),
        p < s.len() ==> !lex_lt(s[p], x),
    ensures
        p < s.len() && s[p] == x ==> sorted_insert(s, x) == s,
        !(p < s.len() && s[p] == x) ==> sorted_insert(s, x) == s.insert(p, x),
    decreases s.len(),
{
    if s.len() == 0 {
        assert(sorted_insert(s, x) =~= s.insert(0, x));
    } else {
        lemma_lex_trichotomy(x, s[0]);
        if p == 0 {
            if s[0] == x {
            } else {
                assert(lex_lt(x, s[0]));
                assert(sorted_insert(s, x) =~= s.insert(0, x));
            }
        } else {
            assert(lex_lt(s[0], x));
            let d = s.drop_first();
            assert(sorted_strict(d)) by {
                assert forall|i: int, j: int| 0 <= i < j < d.len() implies lex_lt(d[i], d[j]) by {
                    assert(d[i] == s[i + 1]);
                    assert(d[j] == s[j + 1]);
                }
            }
            assert forall|k: int| 0 <= k < p - 1 implies lex_lt(d[k], x) by {
                assert(d[k] == s[k + 1]);
            }
            assert(p - 1 < d.len() ==> !lex_lt(d[p - 1], x)) by {
                if p < s.len() {
                    assert(d[p - 1] == s[p]);
                }
            }
            lemma_sorted_insert_position(d, x, p - 1);
            if p < s.len() && s[p] == x {
                assert(d[p - 1] == x);
                assert(sorted_insert(s, x) =~= seq![s[0]] + d);
                assert(sorted_insert(s, x) =~= s);
            } else {
                assert(sorted_insert(d, x) == d.insert(p - 1, x));
                assert(sorted_insert(s, x) =~= s.insert(p, x)) by {
                    assert forall|j: int|
                        0 <= j < s.insert(p, x).len() implies (seq![s[0]] + d.insert(
                        p - 1,
                        x,
                    ))[j] == s.insert(p, x)[j] by {
                        if j > 0 {
                            assert((seq![s[0]] + d.insert(p - 1, x))[j] == d.insert(p - 1, x)[j
                                - 1]);
                        }
                    }
                }
            }
        }
    }
}

/// Inserting an element above everything present appends it.
pub proof fn lemma_sorted_insert_above(s: Seq<Seq<char>>, x: Seq<char>)
    requires
        sorted_strict(s),
        forall|k: int| 0 <= k < s.len() ==> lex_lt(s[k], x),
    ensures
        sorted_insert(s, x) == s.push(x),
{
    lemma_sorted_insert_position(s, x, s.len() as int);
    assert(s.insert(s.len() as int, x) =~= s.push(x));
}

/// Block content under construction: deduplicated lines, kept ascending.
pub struct LineSet {
    pub lines: Vec<String>,
}

impl View for LineSet {
    type V = Seq<Seq<char>>;

    open spec fn view(&self) -> Seq<Seq<char>> {
        self.lines.deep_view()
    }
}

impl LineSet {
    /// An empty set.
    pub fn new() -> (r: LineSet)
        ensures
            r@ =~= Seq::<Seq<char>>::empty(),
    {
        LineSet { lines: Vec::new() }
    }

    /// Number of lines held.
    pub fn len(&self) -> (r: usize)
        ensures
            r == self@.len(),
    {
        self.lines.len()
    }

    /// Ordered, deduplicating insertion.
    pub fn insert(&mut self, line: String)
        requires
            sorted_strict(old(self)@),
        ensures
            final(self)@ == sorted_insert(old(self)@, line@),
            sorted_strict(final(self)@),
    {
        let n = self.lines.len();
        let mut p: usize = 0;
        while p < n && str_lt(self.lines[p].as_str(), line.as_str())
            invariant
                n == self.lines.len(),
                self.lines@ == old(self).lines@,
                p <= n,
                forall|k: int| 0 <= k < p ==> lex_lt(self@[k], line@),
            decreases n - p,
        {
            assert(self@[p as int] == self.lines@[p as int]@);
            p += 1;
        }
        proof {
            if p < n {
                assert(self@[p as int] == self.lines@[p as int]@);
            }
            lemma_sorted_insert_position(old(self)@, line@, p as int);
            lemma_sorted_insert_props(old(self)@, line@);
        }
        if p < n && str_eq(self.lines[p].as_str(), line.as_str()) {
            return ;
        }
        self.lines.insert(p, line);
        proof {
            assert(self@ =~= old(self)@.insert(p as int, line@));
        }
    }

    /// Hands the lines out, ascending.
    pub fn into_lines(self) -> (r: Vec<String>)
        ensures
            r.deep_view() == self@,
    {
        self.lines
    }
}

} // verus!
