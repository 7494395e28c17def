//! The address model: "folder:name" labels, the simple-target rule, and the
//! substring heuristics that decide whether a file line refers to an address.

use vstd::prelude::*;
use vstd::string::StrSliceExecFns;
use vstd::string::StringExecFns;
use crate::text::{contains_at, lex_lt, matches_at, seq_contains, str_contains};

verus! {

/// Mathematical image of an [`Address`].
pub struct AddressView {
    pub folder: Seq<char>,
    pub module_name: Seq<char>,
}

/// A build-target address: the folder holding the target file, and the
/// target's name inside it.
#[derive(Debug, Clone, PartialEq, Eq)]
pub struct Address {
    pub folder: String,
    pub module_name: String,
}

impl View for Address {
    type V = AddressView;

    open spec fn view(&self) -> AddressView {
        AddressView { folder: self.folder@, module_name: self.module_name@ }
    }
}

/// A label that cannot be split into a folder and a target name.
#[derive(Debug, Clone, PartialEq, Eq)]
pub struct AddressFormatError {
    pub label: String,
}

/// `p` is the position of the first ':' in `l`.
pub open spec fn is_first_colon(l: Seq<char>, p: int) -> bool {
    &&& 0 <= p < l.len()
    &&& l[p] == ':'
    &&& forall|q: int| 0 <= q < p ==> l[q] != ':'
}

/// The label splits on its first ':' into two non-empty parts.
pub open spec fn label_ok(l: Seq<char>) -> bool {
    exists|p: int| is_first_colon(l, p) && 0 < p && p + 1 < l.len()
}

/// The folder's last path segment equals the target name: the folder holds
/// exactly one target, named after the folder itself.
pub open spec fn spec_is_simple(a: AddressView) -> bool {
    &&& a.module_name.len() <= a.folder.len()
    &&& a.folder.subrange(
        a.folder.len() - a.module_name.len(),
        a.folder.len() as int,
    ) == a.module_name
    &&& (a.folder.len() == a.module_name.len() || a.folder[a.folder.len() - a.module_name.len()
        - 1] == '/')
    &&& forall|i: int| 0 <= i < a.module_name.len() ==> a.module_name[i] != '/'
}

/// The full "folder:name" form.
pub open spec fn full_label(a: AddressView) -> Seq<char> {
    a.folder + seq![':'] + a.module_name
}

/// Canonical text of an address: the folder alone when simple, else the full
/// label.
pub open spec fn spec_as_str(a: AddressView) -> Seq<char> {
    if spec_is_simple(a) {
        a.folder
    } else {
        full_label(a)
    }
}

/// `s` wrapped in single quotes, as target files spell their entries.
pub open spec fn quoted(s: Seq<char>) -> Seq<char> {
    seq!['\''] + s + seq!['\'']
}

/// The line refers to this address: it contains the quoted full label, or the
/// quoted folder alone (simple targets), or the quoted ":name" shorthand.
pub open spec fn spec_match_line(a: AddressView, line: Seq<char>) -> bool {
    ||| seq_contains(line, quoted(full_label(a)))
    ||| (spec_is_simple(a) && seq_contains(line, quoted(a.folder)))
    ||| seq_contains(line, quoted(seq![':'] + a.module_name))
}

/// Strict lexicographic order on (folder, module_name).
pub open spec fn addr_lt(a: AddressView, b: AddressView) -> bool {
    ||| lex_lt(a.folder, b.folder)
    ||| (a.folder == b.folder && lex_lt(a.module_name, b.module_name))
}

impl Address {
    /// Splits a label on its first ':' into folder and target name; fails
    /// when no ':' is present or either part is empty.
    pub fn from_str(label: &str) -> (r: Result<Address, AddressFormatError>)
        ensures
            match r {
                Ok(a) => label_ok(label@) && forall|p: int|
                    is_first_colon(label@, p) ==> a@.folder == label@.subrange(0, p)
                        && a@.module_name == label@.subrange(p + 1, label@.len() as int),
                Err(e) => !label_ok(label@) && e.label@ == label@,
            },
    {
        let n = label.unicode_len();
        let mut i: usize = 0;
        while i < n
            invariant
                n == label@.len(),
                i <= n,
                forall|q: int| 0 <= q < i ==> label@[q] != ':',
            decreases n - i,
        {
            if label.get_char(i) == ':' {
                proof {
                    assert(is_first_colon(label@, i as int));
                    assert forall|p: int| is_first_colon(label@, p) implies p == i as int by {
                        if p < i {
                            assert(label@[p] != ':');
                        } else if p > i {
                            assert(label@[i as int] != ':');
                        }
                    }
                }
                if i == 0 || i + 1 == n {
                    return Err(AddressFormatError { label: String::from_str(label) });
                }
                let folder = String::from_str(label.substring_char(0, i));
                let module_name = String::from_str(label.substring_char(i + 1, n));
                return Ok(Address { folder, module_name });
            }
            i += 1;
        }
        proof {
            assert forall|p: int| !is_first_colon(label@, p) by {
                if 0 <= p < label@.len() {
                    assert(label@[p] != ':');
                }
            }
        }
        Err(AddressFormatError { label: String::from_str(label) })
    }

    /// True when the folder's last path segment equals the target name.
    pub fn is_simple(&self) -> (r: bool)
        ensures
            r == spec_is_simple(self@),
    {
        let fl = self.folder.as_str().unicode_len();
        let ml = self.module_name.as_str().unicode_len();
        if ml > fl {
            return false;
        }
        let mut i: usize = 0;
        while i < ml
            invariant
                ml == self.module_name@.len(),
                i <= ml,
                forall|q: int| 0 <= q < i ==> self.module_name@[q] != '/',
            decreases ml - i,
        {
            if self.module_name.as_str().get_char(i) == '/' {
                return false;
            }
            i += 1;
        }
        if !matches_at(self.folder.as_str(), fl, fl - ml, self.module_name.as_str(), ml) {
            return false;
        }
        if fl == ml {
            true
        } else {
            self.folder.as_str().get_char(fl - ml - 1) == '/'
        }
    }

    /// The line refers to this address, by quoted-substring containment.
    pub fn match_line(&self, line: &str) -> (r: bool)
        ensures
            r == spec_match_line(self@, line@),
    {
        let mut full = String::new();
        full.append("'");
        full.append(self.folder.as_str());
        full.append(":");
        full.append(self.module_name.as_str());
        full.append("'");
        proof {
            reveal_strlit("'");
            reveal_strlit(":");
            assert(full@ =~= quoted(full_label(self@)));
        }
        if str_contains(line, full.as_str()) {
            return true;
        }
        if self.is_simple() {
            let mut qf = String::new();
            qf.append("'");
            qf.append(self.folder.as_str());
            qf.append("'");
            proof {
                reveal_strlit("'");
                assert(qf@ =~= quoted(self@.folder));
            }
            if str_contains(line, qf.as_str()) {
                return true;
            }
        }
        let mut qm = String::new();
        qm.append("'");
        qm.append(":");
        qm.append(self.module_name.as_str());
        qm.append("'");
        proof {
            reveal_strlit("'");
            reveal_strlit(":");
            assert(qm@ =~= quoted(seq![':'] + self@.module_name));
        }
        str_contains(line, qm.as_str())
    }

    /// Canonical text form: the folder alone when simple, else "folder:name".
    pub fn as_str(&self) -> (r: String)
        ensures
            r@ == spec_as_str(self@),
    {
        if self.is_simple() {
            self.folder.clone()
        } else {
            let mut r = String::new();
            r.append(self.folder.as_str());
            r.append(":");
            r.append(self.module_name.as_str());
            proof {
                reveal_strlit(":");
                assert(r@ =~= full_label(self@));
            }
            r
        }
    }

    /// Strict (folder, module_name) order, executably.
    pub fn lt(&self, other: &Address) -> (r: bool)
        ensures
            r == addr_lt(self@, other@),
    {
        if crate::text::str_lt(self.folder.as_str(), other.folder.as_str()) {
            true
        } else if crate::text::str_eq(self.folder.as_str(), other.folder.as_str()) {
            crate::text::str_lt(self.module_name.as_str(), other.module_name.as_str())
        } else {
            false
        }
    }
}

/// Every address matches the quoted form of its own canonical text.
pub proof fn lemma_match_line_as_str(a: AddressView)
    ensures
        spec_match_line(a, quoted(spec_as_str(a))),
{
    let line = quoted(spec_as_str(a));
    if spec_is_simple(a) {
        let pat = quoted(a.folder);
        assert(line.subrange(0, pat.len() as int) =~= pat);
        assert(contains_at(line, pat, 0));
    } else {
        let pat = quoted(full_label(a));
        assert(line.subrange(0, pat.len() as int) =~= pat);
        assert(contains_at(line, pat, 0));
    }
}

} // verus!
