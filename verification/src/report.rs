//! Report selection: maps the entries of a dependency-usage report with the
//! requested relation kind into an ordered owner-address to target-addresses
//! listing, applying the third-party and path-prefix exclusions.

use vstd::prelude::*;
use vstd::string::StrSliceExecFns;
use crate::address::{
    addr_lt, is_first_colon, label_ok, Address, AddressFormatError, AddressView,
};
use crate::text::{
    lemma_lex_trans, lemma_lex_trichotomy, seq_contains, spec_starts_with, str_contains, str_eq,
    str_starts_with,
};

verus! {

/// One dependency edge of a report entry.
pub struct Dependency {
    /// Alternative labels the report lists for the target.
    pub aliases: Vec<String>,
    /// The relation kind: "unused", "undeclared", "declared", ...
    pub dependency_type: String,
    /// How many of the target's products the owner uses.
    pub products_used: usize,
    /// The target's label, in "folder:name" form.
    pub target: String,
}

/// One report entry: a module and its dependency edges.
pub struct Info {
    /// The module's own cost figure.
    pub cost: usize,
    /// The module's transitive cost figure.
    pub cost_transitive: usize,
    /// The module's dependency edges, in report order.
    pub dependencies: Vec<Dependency>,
    /// How many products the module offers.
    pub products_total: usize,
}

/// The reserved third-party marker segment.
pub open spec fn third_party_kw() -> Seq<char> {
    seq!['3', 'r', 'd', 'p', 'a', 'r', 't', 'y']
}

/// The address a well-formed label denotes: split at its first ':'.
pub open spec fn addr_of(l: Seq<char>) -> AddressView {
    let p = choose|p: int| is_first_colon(l, p);
    AddressView { folder: l.subrange(0, p), module_name: l.subrange(p + 1, l.len() as int) }
}

/// The edge carries the requested relation kind.
pub open spec fn dep_matches(d: Dependency, kind: Seq<char>) -> bool {
    d.dependency_type@ == kind
}

/// The matching edges' target labels, in report order.
pub open spec fn dep_targets(deps: Seq<Dependency>, kind: Seq<char>) -> Seq<Seq<char>> {
    deps.filter(|d: Dependency| dep_matches(d, kind)).map_values(|d: Dependency| d.target@)
}

/// The matching edges' target addresses, in report order.
pub open spec fn dep_addrs(info: Info, kind: Seq<char>) -> Seq<AddressView> {
    dep_targets(info.dependencies@, kind).map_values(|t: Seq<char>| addr_of(t))
}

/// The owner passes the third-party and prefix exclusions.
pub open spec fn base_keep(owner: Seq<char>, prefix: Seq<char>) -> bool {
    !seq_contains(owner, third_party_kw()) && spec_starts_with(owner, prefix)
}

/// The entry contributes to the selection: it passes the exclusions and has
/// at least one matching edge.
pub open spec fn owner_selected(owner: Seq<char>, info: Info, kind: Seq<char>, prefix: Seq<char>) -> bool {
    base_keep(owner, prefix) && dep_targets(info.dependencies@, kind).len() > 0
}

/// Every label this entry would make the selection split is well formed.
pub open spec fn entry_labels_ok(owner: Seq<char>, info: Info, kind: Seq<char>, prefix: Seq<char>) -> bool {
    base_keep(owner, prefix) ==> {
        &&& forall|j: int|
            0 <= j < info.dependencies@.len() && dep_matches(
                #[trigger] info.dependencies@[j],
                kind,
            ) ==> label_ok(info.dependencies@[j].target@)
        &&& dep_targets(info.dependencies@, kind).len() > 0 ==> label_ok(owner)
    }
}

/// The selection an entry contributes.
pub open spec fn entry_keeps(p: (String, Info), kind: Seq<char>, prefix: Seq<char>) -> bool {
    owner_selected(p.0@, p.1, kind, prefix)
}

/// The selected pairs of the whole report, in report order.
pub open spec fn selected_pairs(r: Seq<(String, Info)>, kind: Seq<char>, prefix: Seq<char>) -> Seq<
    (AddressView, Seq<AddressView>),
> {
    r.filter(|p: (String, Info)| entry_keeps(p, kind, prefix)).map_values(
        |p: (String, Info)| (addr_of(p.0@), dep_addrs(p.1, kind)),
    )
}

/// The views of a selection as handed out.
pub open spec fn pairs_view(s: Seq<(Address, Vec<Address>)>) -> Seq<
    (AddressView, Seq<AddressView>),
> {
    s.map_values(
        |p: (Address, Vec<Address>)| (p.0@, crate::scan::addrs_view(p.1@)),
    )
}

/// The selection is ordered by owner address, never descending.
pub open spec fn sorted_keys(s: Seq<(AddressView, Seq<AddressView>)>) -> bool {
    forall|i: int, j: int| 0 <= i < j < s.len() ==> !addr_lt(s[j].0, s[i].0)
}

/// Address order is a strict total order.
proof fn lemma_addr_trichotomy(a: AddressView, b: AddressView)
    ensures
        addr_lt(a, b) || addr_lt(b, a) || a == b,
        addr_lt(a, b) ==> !addr_lt(b, a) && a != b,
{
    lemma_lex_trichotomy(a.folder, b.folder);
    lemma_lex_trichotomy(a.module_name, b.module_name);
}

/// Address order is transitive.
proof fn lemma_addr_trans(a: AddressView, b: AddressView, c: AddressView)
    requires
        addr_lt(a, b),
        addr_lt(b, c),
    ensures
        addr_lt(a, c),
{
    lemma_lex_trichotomy(a.folder, b.folder);
    lemma_lex_trichotomy(b.folder, c.folder);
    lemma_lex_trichotomy(a.folder, c.folder);
    if a.folder == b.folder && b.folder == c.folder {
        lemma_lex_trans(a.module_name, b.module_name, c.module_name);
    } else if a.folder == b.folder {
    } else if b.folder == c.folder {
    } else {
        lemma_lex_trans(a.folder, b.folder, c.folder);
    }
}

/// Splicing an element into a sequence adds it, and nothing else, to the
/// sequence's multiset.
proof fn lemma_seq_insert_multiset<A>(s: Seq<A>, p: int, x: A)
    requires
        0 <= p <= s.len(),
    ensures
        s.insert(p, x).to_multiset() == s.to_multiset().insert(x),
{
    broadcast use vstd::seq_lib::group_to_multiset_ensures;

    let t = s.insert(p, x);
    assert(t[p] == x);
    assert(t.remove(p) =~= s);
    assert(s.to_multiset() == t.to_multiset().remove(x));
    assert(t.to_multiset().contains(x)) by {
        assert(t.contains(x)) by {
            assert(t[p] == x);
        }
    }
    assert(t.to_multiset() =~= s.to_multiset().insert(x));
}

/// Splits one report entry: `None` when the exclusions drop it or no edge
/// matches; otherwise the owner address and the matching target addresses,
/// in report order. Fails on the first malformed label it must split.
fn select_entry(owner: &String, info: &Info, dependency_type: &str, prefix: &str) -> (r: Result<
    Option<(Address, Vec<Address>)>,
    AddressFormatError,
>)
    ensures
        match r {
            Ok(opt) => {
                &&& entry_labels_ok(owner@, *info, dependency_type@, prefix@)
                &&& match opt {
                    Option::Some(p) => owner_selected(owner@, *info, dependency_type@, prefix@)
                        && p.0@ == addr_of(owner@) && crate::scan::addrs_view(p.1@) == dep_addrs(
                        *info,
                        dependency_type@,
                    ),
                    Option::None => !owner_selected(owner@, *info, dependency_type@, prefix@),
                }
            },
            Err(e) => !entry_labels_ok(owner@, *info, dependency_type@, prefix@) && !label_ok(
                e.label@,
            ),
        },
{
    proof {
        reveal_strlit("3rdparty");
        assert("3rdparty"@ =~= third_party_kw());
    }
    if str_contains(owner.as_str(), "3rdparty") || !str_starts_with(owner.as_str(), prefix) {
        return Ok(Option::None);
    }
    let ghost kind = dependency_type@;
    let ghost depsv = info.dependencies@;
    let ghost keep = |d: Dependency| dep_matches(d, kind);
    let n = info.dependencies.len();
    let mut targets: Vec<Address> = Vec::new();
    let mut j: usize = 0;
    proof {
        reveal(Seq::filter);
        assert(depsv.take(0).filter(keep) =~= Seq::<Dependency>::empty());
        assert(dep_targets(depsv.take(0), kind) =~= Seq::<Seq<char>>::empty());
        assert(crate::scan::addrs_view(targets@) =~= Seq::<AddressView>::empty());
    }
    while j < n
        invariant
            n == info.dependencies@.len(),
            j <= n,
            kind == dependency_type@,
            depsv == info.dependencies@,
            keep == (|d: Dependency| dep_matches(d, kind)),
            base_keep(owner@, prefix@),
            crate::scan::addrs_view(targets@) == dep_targets(depsv.take(j as int), kind)
                .map_values(|t: Seq<char>| addr_of(t)),
            targets@.len() == dep_targets(depsv.take(j as int), kind).len(),
            forall|k: int|
                0 <= k < j && dep_matches(#[trigger] depsv[k], kind) ==> label_ok(
                    depsv[k].target@,
                ),
        decreases n - j,
    {
        let d = &info.dependencies[j];
        let ghost old_targets = targets@;
        proof {
            reveal(Seq::filter);
            assert(depsv.take(j + 1).drop_last() =~= depsv.take(j as int));
            assert(depsv.take(j + 1).last() == depsv[j as int]);
        }
        if str_eq(d.dependency_type.as_str(), dependency_type) {
            match Address::from_str(d.target.as_str()) {
                Ok(a) => {
                    let ghost av = a@;
                    proof {
                        let p0 = choose|p: int| is_first_colon(d.target@, p);
                        assert(is_first_colon(d.target@, p0));
                        assert(av == addr_of(d.target@));
                    }
                    targets.push(a);
                    proof {
                        reveal(Seq::filter);
                        assert(keep(depsv[j as int]));
                        assert(depsv.take(j + 1).filter(keep) == depsv.take(j as int).filter(
                            keep,
                        ).push(depsv[j as int]));
                        assert(dep_targets(depsv.take(j + 1), kind) =~= dep_targets(
                            depsv.take(j as int),
                            kind,
                        ).push(depsv[j as int].target@));
                        assert(targets@ == old_targets.push(a));
                        assert(crate::scan::addrs_view(targets@) =~= crate::scan::addrs_view(
                            old_targets,
                        ).push(av));
                        assert(crate::scan::addrs_view(targets@) =~= dep_targets(
                            depsv.take(j + 1),
                            kind,
                        ).map_values(|t: Seq<char>| addr_of(t)));
                    }
                },
                Err(e) => {
                    proof {
                        assert(dep_matches(depsv[j as int], kind));
                        assert(!label_ok(depsv[j as int].target@));
                        assert(!entry_labels_ok(owner@, *info, kind, prefix@));
                    }
                    return Err(e);
                },
            }
        } else {
            proof {
                reveal(Seq::filter);
                assert(!keep(depsv[j as int]));
                assert(depsv.take(j + 1).filter(keep) == depsv.take(j as int).filter(keep));
                assert(dep_targets(depsv.take(j + 1), kind) =~= dep_targets(
                    depsv.take(j as int),
                    kind,
                ));
            }
        }
        j += 1;
    }
    proof {
        assert(depsv.take(n as int) =~= depsv);
    }
    if targets.len() == 0 {
        proof {
            assert(dep_targets(depsv, kind).len() == 0);
        }
        return Ok(Option::None);
    }
    match Address::from_str(owner.as_str()) {
        Ok(a) => {
            proof {
                let p0 = choose|p: int| is_first_colon(owner@, p);
                assert(is_first_colon(owner@, p0));
                assert(a@ == addr_of(owner@));
            }
            Ok(Option::Some((a, targets)))
        },
        Err(e) => Err(e),
    }
}

/// Ordered insertion of one selected pair, by owner address.
fn insert_pair(out: &mut Vec<(Address, Vec<Address>)>, pair: (Address, Vec<Address>))
    requires
        sorted_keys(pairs_view(old(out)@)),
    ensures
        sorted_keys(pairs_view(final(out)@)),
        pairs_view(final(out)@).to_multiset() == pairs_view(old(out)@).to_multiset().insert(
            (pair.0@, crate::scan::addrs_view(pair.1@)),
        ),
{
    let n = out.len();
    let mut p: usize = 0;
    while p < n && out[p].0.lt(&pair.0)
        invariant
            n == out@.len(),
            out@ == old(out)@,
            p <= n,
            forall|k: int| 0 <= k < p ==> addr_lt(pairs_view(out@)[k].0, pair.0@),
        decreases n - p,
    {
        proof {
            assert(pairs_view(out@)[p as int].0 == out@[p as int].0@);
        }
        p += 1;
    }
    proof {
        if p < n {
            assert(pairs_view(out@)[p as int].0 == out@[p as int].0@);
            assert(!addr_lt(out@[p as int].0@, pair.0@));
        }
    }
    let ghost oldv = pairs_view(out@);
    let ghost x = (pair.0@, crate::scan::addrs_view(pair.1@));
    out.insert(p, pair);
    proof {
        assert(pairs_view(out@) =~= oldv.insert(p as int, x));
        lemma_seq_insert_multiset(oldv, p as int, x);
        let newv = oldv.insert(p as int, x);
        assert forall|i: int, j: int| 0 <= i < j < newv.len() implies !addr_lt(
            newv[j].0,
            newv[i].0,
        ) by {
            lemma_addr_trichotomy(x.0, oldv[p as int].0);
            if i < p && j == p {
                assert(newv[i] == oldv[i]);
                assert(newv[j] == x);
                lemma_addr_trichotomy(x.0, oldv[i].0);
            } else if i == p && j > p {
                assert(newv[i] == x);
                assert(newv[j] == oldv[j - 1]);
                if addr_lt(newv[j].0, x.0) {
                    assert(p < n);
                    assert(!addr_lt(oldv[p as int].0, x.0));
                    lemma_addr_trichotomy(oldv[p as int].0, x.0);
                    if oldv[p as int].0 == x.0 {
                        assert(addr_lt(oldv[j - 1].0, oldv[p as int].0));
                        assert(j - 1 >= p);
                        if j - 1 > p {
                            assert(!addr_lt(oldv[j - 1].0, oldv[p as int].0));
                        }
                        assert(false);
                    } else {
                        assert(addr_lt(x.0, oldv[p as int].0));
                        lemma_addr_trans(oldv[j - 1].0, x.0, oldv[p as int].0);
                        if j - 1 > p {
                            assert(!addr_lt(oldv[j - 1].0, oldv[p as int].0));
                        }
                        assert(false);
                    }
                }
            } else if i < p && j > p {
                assert(newv[i] == oldv[i]);
                assert(newv[j] == oldv[j - 1]);
            } else if j < p {
                assert(newv[i] == oldv[i]);
                assert(newv[j] == oldv[j]);
            } else if i > p {
                assert(newv[i] == oldv[i - 1]);
                assert(newv[j] == oldv[j - 1]);
            }
        }
    }
}

/// Selects, from a parsed report, every module owning dependency edges of
/// the requested kind, excluding third-party owners and owners outside the
/// prefix. The result maps each owner address to its matching target
/// addresses in report order, and is itself ordered by owner address. Fails
/// on the first label that cannot be split into an address.
pub fn select(report: &Vec<(String, Info)>, dependency_type: &str, prefix: &str) -> (r: Result<
    Vec<(Address, Vec<Address>)>,
    AddressFormatError,
>)
    ensures
        match r {
            Ok(out) => {
                &&& forall|i: int|
                    0 <= i < report@.len() ==> entry_labels_ok(
                        (#[trigger] report@[i]).0@,
                        report@[i].1,
                        dependency_type@,
                        prefix@,
                    )
                &&& pairs_view(out@).to_multiset() == selected_pairs(
                    report@,
                    dependency_type@,
                    prefix@,
                ).to_multiset()
                &&& sorted_keys(pairs_view(out@))
            },
            Err(e) => {
                &&& !label_ok(e.label@)
                &&& exists|i: int|
                    0 <= i < report@.len() && !entry_labels_ok(
                        (#[trigger] report@[i]).0@,
                        report@[i].1,
                        dependency_type@,
                        prefix@,
                    )
            },
        },
{
    let ghost kind = dependency_type@;
    let ghost pfx = prefix@;
    let ghost keep = |p: (String, Info)| entry_keeps(p, kind, pfx);
    let n = report.len();
    let mut out: Vec<(Address, Vec<Address>)> = Vec::new();
    let mut i: usize = 0;
    proof {
        reveal(Seq::filter);
        assert(report@.take(0).filter(keep) =~= Seq::<(String, Info)>::empty());
        assert(selected_pairs(report@.take(0), kind, pfx) =~= Seq::<
            (AddressView, Seq<AddressView>),
        >::empty());
        assert(pairs_view(out@) =~= Seq::<(AddressView, Seq<AddressView>)>::empty());
        Seq::<(AddressView, Seq<AddressView>)>::empty().to_multiset_ensures();
    }
    while i < n
        invariant
            n == report@.len(),
            i <= n,
            kind == dependency_type@,
            pfx == prefix@,
            keep == (|p: (String, Info)| entry_keeps(p, kind, pfx)),
            sorted_keys(pairs_view(out@)),
            pairs_view(out@).to_multiset() == selected_pairs(report@.take(i as int), kind, pfx)
                .to_multiset(),
            forall|k: int|
                0 <= k < i ==> entry_labels_ok((#[trigger] report@[k]).0@, report@[k].1, kind, pfx),
        decreases n - i,
    {
        let entry = &report[i];
        let ghost before = pairs_view(out@);
        let res = select_entry(&entry.0, &entry.1, dependency_type, prefix);
        match res {
            Err(e) => {
                proof {
                    assert(!entry_labels_ok(report@[i as int].0@, report@[i as int].1, kind, pfx));
                }
                return Err(e);
            },
            Ok(opt) => {
                match opt {
                    Option::Some(pair) => {
                        proof {
                            assert(keep(report@[i as int]));
                        }
                        insert_pair(&mut out, pair);
                    },
                    Option::None => {
                        proof {
                            assert(!keep(report@[i as int]));
                        }
                    },
                }
            },
        }
        proof {
            broadcast use vstd::seq_lib::group_to_multiset_ensures;

            reveal(Seq::filter);
            assert(report@.take(i + 1).drop_last() =~= report@.take(i as int));
            assert(report@.take(i + 1).last() == report@[i as int]);
            if keep(report@[i as int]) {
                assert(report@.take(i + 1).filter(keep) == report@.take(i as int).filter(
                    keep,
                ).push(report@[i as int]));
                assert(selected_pairs(report@.take(i + 1), kind, pfx) =~= selected_pairs(
                    report@.take(i as int),
                    kind,
                    pfx,
                ).push((addr_of(report@[i as int].0@), dep_addrs(report@[i as int].1, kind))));
            } else {
                assert(report@.take(i + 1).filter(keep) == report@.take(i as int).filter(keep));
                assert(selected_pairs(report@.take(i + 1), kind, pfx) =~= selected_pairs(
                    report@.take(i as int),
                    kind,
                    pfx,
                ));
            }
        }
        i += 1;
    }
    proof {
        assert(report@.take(n as int) =~= report@);
    }
    Ok(out)
}

/// How many lines a selection would touch in total.
pub open spec fn spec_total(s: Seq<(Address, Vec<Address>)>) -> int
    decreases s.len(),
{
    if s.len() == 0 {
        0
    } else {
        spec_total(s.drop_last()) + s.last().1@.len()
    }
}

/// The two numbers a run summary reports: modules affected, and entries of
/// the requested kind over all of them.
pub fn selection_totals(sel: &Vec<(Address, Vec<Address>)>) -> (r: (usize, usize))
    requires
        spec_total(sel@) <= usize::MAX,
    ensures
        r.0 == sel@.len(),
        r.1 == spec_total(sel@),
{
    let n = sel.len();
    let mut total: usize = 0;
    let mut i: usize = 0;
    proof {
        assert(spec_total(sel@.take(0)) == 0);
    }
    while i < n
        invariant
            n == sel@.len(),
            i <= n,
            total == spec_total(sel@.take(i as int)),
            spec_total(sel@) <= usize::MAX,
        decreases n - i,
    {
        proof {
            assert(sel@.take(i + 1).drop_last() =~= sel@.take(i as int));
            assert(sel@.take(i + 1).last() == sel@[i as int]);
            lemma_spec_total_bound(sel@, i + 1);
        }
        total = total + sel[i].1.len();
        i += 1;
    }
    proof {
        assert(sel@.take(n as int) =~= sel@);
    }
    (n, total)
}

/// A prefix of the selection never counts more lines than the whole.
proof fn lemma_spec_total_bound(s: Seq<(Address, Vec<Address>)>, k: int)
    requires
        0 <= k <= s.len(),
    ensures
        spec_total(s.take(k)) <= spec_total(s),
    decreases s.len() - k,
{
    if k == s.len() {
        assert(s.take(k) =~= s);
    } else {
        lemma_spec_total_bound(s, k + 1);
        assert(s.take(k + 1).drop_last() =~= s.take(k));
        assert(spec_total(s.take(k + 1)) == spec_total(s.take(k)) + s.take(k + 1).last().1@.len());
    }
}

} // verus!
