//! The block scanner/rewriter: a single left-to-right pass over a target
//! file's lines. Lines outside a recognised block pass through unchanged; the
//! content of a block is rebuilt as an ascending, deduplicated set of
//! normalised lines and rewritten through a transform when the block closes.

use vstd::prelude::*;
use vstd::string::StrSliceExecFns;
use vstd::string::StringExecFns;
use crate::address::{Address, AddressView, quoted, spec_as_str, spec_is_simple, spec_match_line};
use crate::blocks::{
    block_ends, deps_block_start, deps_kw, exports_block_start, exports_kw, matches_opener,
};
use crate::lineset::{
    lemma_sorted_insert_props, sorted_insert, sorted_strict, LineSet,
};
use crate::text::{norm_line, normalize_line, seq_contains, str_contains};

verus! {

/// Which list openers the scan recognises.
#[derive(Clone, Copy, PartialEq, Eq, Structural)]
pub enum OpenerKind {
    /// Only `dependencies = [` lines open a block.
    Deps,
    /// `exports = [` lines open one too.
    DepsAndExports,
}

/// The rewrite applied to a block's content when its end marker is reached.
pub enum Transform {
    /// Drop every line matching one of the dependencies, unless the line
    /// carries the skip marker.
    Remove { deps: Vec<Address>, skip_marker: String },
    /// Insert a formatted entry for each dependency.
    Add { deps: Vec<Address> },
    /// Keep the content as it is: the scan's set-based reconstruction
    /// already sorts and deduplicates it.
    Sort,
}

/// Mathematical image of a [`Transform`].
pub enum TransformView {
    Remove { deps: Seq<AddressView>, skip_marker: Seq<char> },
    Add { deps: Seq<AddressView> },
    Sort,
}

/// Views of a sequence of addresses.
pub open spec fn addrs_view(v: Seq<Address>) -> Seq<AddressView> {
    v.map_values(|a: Address| a@)
}

impl View for Transform {
    type V = TransformView;

    open spec fn view(&self) -> TransformView {
        match self {
            Transform::Remove { deps, skip_marker } => TransformView::Remove {
                deps: addrs_view(deps@),
                skip_marker: skip_marker@,
            },
            Transform::Add { deps } => TransformView::Add { deps: addrs_view(deps@) },
            Transform::Sort => TransformView::Sort,
        }
    }
}

/// What the scanner is told to look for and to do.
pub struct ScanConfig {
    /// The openers honoured.
    pub openers: OpenerKind,
    /// When set, an opener counts only once a line holding a `name=` token
    /// and this target name has been seen; `None` means from the first line.
    pub gate: Option<String>,
    /// The block rewrite.
    pub transform: Transform,
}

/// Mathematical image of a [`ScanConfig`].
pub struct ScanConfigView {
    pub openers: OpenerKind,
    pub gate: Option<Seq<char>>,
    pub transform: TransformView,
}

impl View for ScanConfig {
    type V = ScanConfigView;

    open spec fn view(&self) -> ScanConfigView {
        ScanConfigView {
            openers: self.openers,
            gate: match self.gate {
                Option::Some(ref g) => Option::Some(g@),
                Option::None => Option::None,
            },
            transform: self.transform@,
        }
    }
}

/// The file's block markers are malformed: a second opener inside a block,
/// or a block never closed.
#[derive(Debug, Clone, Copy, PartialEq, Eq, Structural)]
pub enum StructuralViolation {
    /// An opener line appeared inside an open block.
    Nested,
    /// A block was still open at the end of the file.
    Unterminated,
}

/// The `name=` token of a target-name assignment line.
pub open spec fn name_kw() -> Seq<char> {
    seq!['n', 'a', 'm', 'e', '=']
}

/// The line makes openers eligible: it holds a `name=` token and the target name.
pub open spec fn gate_hit(cfg: ScanConfigView, l: Seq<char>) -> bool {
    match cfg.gate {
        Option::Some(m) => seq_contains(l, name_kw()) && seq_contains(l, m),
        Option::None => false,
    }
}

/// The line matches one of the honoured openers.
pub open spec fn opener_hit(cfg: ScanConfigView, l: Seq<char>) -> bool {
    matches_opener(l, deps_kw()) || (cfg.openers == OpenerKind::DepsAndExports && matches_opener(
        l,
        exports_kw(),
    ))
}

/// The formatted entry for one added dependency: eight spaces of indent, the
/// quoted canonical text, a trailing comma.
pub open spec fn formatted_dep(a: AddressView) -> Seq<char> {
    seq![' ', ' ', ' ', ' ', ' ', ' ', ' ', ' '] + quoted(spec_as_str(a)) + seq![',']
}

/// Remove keeps a line when it carries the skip marker or matches no
/// dependency.
pub open spec fn keep_line(l: Seq<char>, deps: Seq<AddressView>, skip: Seq<char>) -> bool {
    seq_contains(l, skip) || !exists|i: int|
        0 <= i < deps.len() && #[trigger] spec_match_line(deps[i], l)
}

/// Each dependency's formatted entry inserted in turn.
pub open spec fn add_all(b: Seq<Seq<char>>, deps: Seq<AddressView>) -> Seq<Seq<char>>
    decreases deps.len(),
{
    if deps.len() == 0 {
        b
    } else {
        add_all(sorted_insert(b, formatted_dep(deps.first())), deps.drop_first())
    }
}

/// The Remove keep-test as a function value.
pub open spec fn remove_pred(deps: Seq<AddressView>, skip: Seq<char>) -> spec_fn(Seq<char>) -> bool {
    |l: Seq<char>| keep_line(l, deps, skip)
}

/// What a transform makes of a block's content set.
pub open spec fn apply_transform(t: TransformView, b: Seq<Seq<char>>) -> Seq<Seq<char>> {
    match t {
        TransformView::Remove { deps, skip_marker } => b.filter(remove_pred(deps, skip_marker)),
        TransformView::Add { deps } => add_all(b, deps),
        TransformView::Sort => b,
    }
}

/// How many lines a transform can add to a block.
pub open spec fn transform_extra(t: TransformView) -> int {
    match t {
        TransformView::Add { deps } => deps.len() as int,
        _ => 0,
    }
}

/// The scanner's state between lines.
pub struct ScanState {
    /// Whether a block is currently open.
    pub inside: bool,
    /// The normalised content of the open block, ascending.
    pub buf: Seq<Seq<char>>,
    /// Whether an opener would be honoured for the lines seen so far.
    pub gate: bool,
    /// The line-count delta of the last completed block.
    pub delta: int,
}

/// The scanner's starting state: outside, gate open only when ungated.
pub open spec fn init_state(cfg: ScanConfigView) -> ScanState {
    ScanState { inside: false, buf: Seq::empty(), gate: cfg.gate is None, delta: 0 }
}

/// The scan itself: the result of processing `lines` from state `st` is the
/// emitted lines and the last block's signed line-count delta, or the
/// structural violation that stopped the pass.
pub open spec fn scan(lines: Seq<Seq<char>>, cfg: ScanConfigView, st: ScanState) -> Result<
    (Seq<Seq<char>>, int),
    StructuralViolation,
>
    decreases lines.len(),
{
    if lines.len() == 0 {
        if st.inside {
            Err(StructuralViolation::Unterminated)
        } else {
            Ok((Seq::empty(), st.delta))
        }
    } else {
        let l = lines.first();
        let rest = lines.drop_first();
        if st.inside {
            if seq_contains(l, seq![']']) {
                let newb = apply_transform(cfg.transform, st.buf);
                let st2 = ScanState {
                    inside: false,
                    buf: Seq::empty(),
                    gate: st.gate,
                    delta: newb.len() - st.buf.len(),
                };
                match scan(rest, cfg, st2) {
                    Ok(p) => Ok((newb + seq![l] + p.0, p.1)),
                    Err(e) => Err(e),
                }
            } else if opener_hit(cfg, l) {
                Err(StructuralViolation::Nested)
            } else if l.len() == 0 {
                scan(rest, cfg, st)
            } else {
                scan(
                    rest,
                    cfg,
                    ScanState {
                        inside: true,
                        buf: sorted_insert(st.buf, norm_line(l)),
                        gate: st.gate,
                        delta: st.delta,
                    },
                )
            }
        } else {
            let g = st.gate || gate_hit(cfg, l);
            let st2 = if g && opener_hit(cfg, l) {
                ScanState { inside: true, buf: Seq::empty(), gate: g, delta: st.delta }
            } else {
                ScanState { inside: false, buf: st.buf, gate: g, delta: st.delta }
            };
            match scan(rest, cfg, st2) {
                Ok(p) => Ok((seq![l] + p.0, p.1)),
                Err(e) => Err(e),
            }
        }
    }
}

/// Composition view of a partly done pass: the whole scan equals the done
/// prefix glued onto the scan of the remaining lines.
pub open spec fn scan_step(
    full: Seq<Seq<char>>,
    cfg: ScanConfigView,
    done: Seq<Seq<char>>,
    i: int,
    st: ScanState,
) -> bool {
    scan(full, cfg, init_state(cfg)) == (match scan(full.skip(i), cfg, st) {
        Ok(p) => Ok::<(Seq<Seq<char>>, int), StructuralViolation>((done + p.0, p.1)),
        Err(e) => Err::<(Seq<Seq<char>>, int), StructuralViolation>(e),
    })
}

/// A field-for-field copy.
fn copy_address(a: &Address) -> (r: Address)
    ensures
        r@ == a@,
{
    Address { folder: a.folder.clone(), module_name: a.module_name.clone() }
}

/// Does the line match any of the dependencies.
fn matches_any(deps: &Vec<Address>, line: &str) -> (r: bool)
    ensures
        r == exists|i: int|
            0 <= i < deps@.len() && #[trigger] spec_match_line(addrs_view(deps@)[i], line@),
{
    let n = deps.len();
    let mut i: usize = 0;
    while i < n
        invariant
            n == deps@.len(),
            i <= n,
            forall|k: int| 0 <= k < i ==> !spec_match_line(addrs_view(deps@)[k], line@),
        decreases n - i,
    {
        proof {
            assert(addrs_view(deps@)[i as int] == deps@[i as int]@);
        }
        if deps[i].match_line(line) {
            return true;
        }
        i += 1;
    }
    false
}

/// Length bound: a transform adds at most `transform_extra` lines.
proof fn lemma_add_all_len(b: Seq<Seq<char>>, deps: Seq<AddressView>)
    requires
        sorted_strict(b),
    ensures
        add_all(b, deps).len() <= b.len() + deps.len(),
        sorted_strict(add_all(b, deps)),
    decreases deps.len(),
{
    if deps.len() == 0 {
    } else {
        lemma_sorted_insert_props(b, formatted_dep(deps.first()));
        let b2 = sorted_insert(b, formatted_dep(deps.first()));
        assert(b2.len() <= b.len() + 1);
        lemma_add_all_len(b2, deps.drop_first());
    }
}

/// Length bound over any transform.
proof fn lemma_apply_len(t: TransformView, b: Seq<Seq<char>>)
    requires
        sorted_strict(b),
    ensures
        apply_transform(t, b).len() <= b.len() + transform_extra(t),
        sorted_strict(apply_transform(t, b)),
{
    match t {
        TransformView::Remove { deps, skip_marker } => {
            lemma_filter_sorted(b, remove_pred(deps, skip_marker));
        },
        TransformView::Add { deps } => {
            lemma_add_all_len(b, deps);
        },
        TransformView::Sort => {},
    }
}

/// Filtering keeps the order strict and never grows the sequence.
pub proof fn lemma_filter_sorted(b: Seq<Seq<char>>, pred: spec_fn(Seq<char>) -> bool)
    requires
        sorted_strict(b),
    ensures
        b.filter(pred).len() <= b.len(),
        sorted_strict(b.filter(pred)),
        forall|y: Seq<char>| #[trigger] b.filter(pred).contains(y) <==> b.contains(y) && pred(y),
    decreases b.len(),
{
    reveal(Seq::filter);
    if b.len() == 0 {
        assert(b.filter(pred) =~= Seq::empty());
    } else {
        let fr = b.drop_last();
        assert(sorted_strict(fr)) by {
            assert(forall|i: int, j: int|
                0 <= i < j < fr.len() ==> fr[i] == b[i] && fr[j] == b[j]);
        }
        lemma_filter_sorted(fr, pred);
        let t = fr.filter(pred);
        if pred(b.last()) {
            assert(b.filter(pred) == t.push(b.last()));
            // everything in t sits below b.last()
            assert forall|j: int| 0 <= j < t.len() implies crate::text::lex_lt(
                t[j],
                b.last(),
            ) by {
                assert(t.contains(t[j]));
                assert(fr.contains(t[j]));
                let k = choose|k: int| 0 <= k < fr.len() && fr[k] == t[j];
                assert(b[k] == fr[k]);
            }
            assert(sorted_strict(t.push(b.last()))) by {
                assert forall|i: int, j: int|
                    0 <= i < j < t.push(b.last()).len() implies crate::text::lex_lt(
                    t.push(b.last())[i],
                    t.push(b.last())[j],
                ) by {
                    if j < t.len() {
                        assert(t.push(b.last())[i] == t[i]);
                        assert(t.push(b.last())[j] == t[j]);
                    } else {
                        assert(t.push(b.last())[i] == t[i]);
                        assert(t.push(b.last())[j] == b.last());
                    }
                }
            }
            assert forall|y: Seq<char>| #[trigger]
                b.filter(pred).contains(y) implies b.contains(y) && pred(y) by {
                let k = choose|k: int| 0 <= k < b.filter(pred).len() && b.filter(pred)[k] == y;
                if k < t.len() {
                    assert(t.contains(y));
                    assert(fr.contains(y));
                    let k2 = choose|k2: int| 0 <= k2 < fr.len() && fr[k2] == y;
                    assert(b[k2] == y);
                } else {
                    assert(y == b.last());
                }
            }
            assert forall|y: Seq<char>| b.contains(y) && pred(y) implies #[trigger]
                b.filter(pred).contains(y) by {
                let k = choose|k: int| 0 <= k < b.len() && b[k] == y;
                if k < b.len() - 1 {
                    assert(fr[k] == y);
                    assert(fr.contains(y));
                    assert(t.contains(y));
                    let k2 = choose|k2: int| 0 <= k2 < t.len() && t[k2] == y;
                    assert(b.filter(pred)[k2] == y);
                } else {
                    assert(b.filter(pred)[t.len() as int] == y);
                }
            }
        } else {
            assert(b.filter(pred) == t);
            assert forall|y: Seq<char>| #[trigger]
                b.filter(pred).contains(y) implies b.contains(y) && pred(y) by {
                assert(fr.contains(y));
                let k2 = choose|k2: int| 0 <= k2 < fr.len() && fr[k2] == y;
                assert(b[k2] == y);
            }
            assert forall|y: Seq<char>| b.contains(y) && pred(y) implies #[trigger]
                b.filter(pred).contains(y) by {
                let k = choose|k: int| 0 <= k < b.len() && b[k] == y;
                if k < b.len() - 1 {
                    assert(fr[k] == y);
                    assert(fr.contains(y));
                } else {
                    assert(y == b.last());
                    assert(!pred(y));
                }
            }
        }
    }
}

/// Applies a transform to a block's content set.
fn apply(t: &Transform, buf: &LineSet) -> (r: Vec<String>)
    requires
        sorted_strict(buf@),
    ensures
        r.deep_view() == apply_transform(t@, buf@),
{
    match t {
        Transform::Sort => {
            let r = buf.lines.clone();
            proof {
                assert(r.deep_view() =~= buf@);
            }
            r
        },
        Transform::Remove { deps, skip_marker } => {
            let ghost depsv = addrs_view(deps@);
            let ghost skipv = skip_marker@;
            let ghost pred = remove_pred(depsv, skipv);
            let n = buf.lines.len();
            let mut out: Vec<String> = Vec::new();
            let mut i: usize = 0;
            proof {
                reveal(Seq::filter);
                assert(buf@.take(0).filter(pred) =~= Seq::empty());
                assert(out.deep_view() =~= Seq::<Seq<char>>::empty());
            }
            while i < n
                invariant
                    n == buf.lines@.len(),
                    n == buf@.len(),
                    i <= n,
                    depsv == addrs_view(deps@),
                    skipv == skip_marker@,
                    pred == remove_pred(depsv, skipv),
                    out.deep_view() == buf@.take(i as int).filter(pred),
                decreases n - i,
            {
                proof {
                    assert(buf@[i as int] == buf.lines@[i as int]@);
                }
                let line = &buf.lines[i];
                let keep = str_contains(line.as_str(), skip_marker.as_str()) || !matches_any(
                    deps,
                    line.as_str(),
                );
                proof {
                    assert(keep == keep_line(buf@[i as int], depsv, skipv));
                    assert(pred(buf@[i as int]) == keep_line(buf@[i as int], depsv, skipv));
                }
                let ghost old_out = out.deep_view();
                if keep {
                    out.push(line.clone());
                    proof {
                        assert(out.deep_view() =~= old_out.push(buf@[i as int]));
                    }
                }
                proof {
                    reveal(Seq::filter);
                    assert(buf@.take(i + 1).drop_last() =~= buf@.take(i as int));
                    assert(buf@.take(i + 1).last() == buf@[i as int]);
                }
                i += 1;
            }
            proof {
                assert(buf@.take(n as int) =~= buf@);
            }
            out
        },
        Transform::Add { deps } => {
            let ghost depsv = addrs_view(deps@);
            let mut set = LineSet { lines: buf.lines.clone() };
            proof {
                assert(set@ =~= buf@);
                assert(depsv.skip(0) =~= depsv);
            }
            let n = deps.len();
            let mut i: usize = 0;
            while i < n
                invariant
                    n == deps@.len(),
                    i <= n,
                    depsv == addrs_view(deps@),
                    sorted_strict(set@),
                    add_all(buf@, depsv) == add_all(set@, depsv.skip(i as int)),
                decreases n - i,
            {
                let d = &deps[i];
                let text = d.as_str();
                let mut entry = String::new();
                entry.append("        '");
                entry.append(text.as_str());
                entry.append("',");
                proof {
                    reveal_strlit("        '");
                    reveal_strlit("',");
                    assert(entry@ =~= formatted_dep(d@));
                    assert(depsv[i as int] == deps@[i as int]@);
                    assert(depsv.skip(i as int).first() == depsv[i as int]);
                    assert(depsv.skip(i as int).drop_first() =~= depsv.skip(i + 1));
                }
                set.insert(entry);
                i += 1;
            }
            proof {
                assert(depsv.skip(n as int) =~= Seq::<AddressView>::empty());
            }
            set.into_lines()
        },
    }
}

/// Does the line match one of the honoured openers.
fn opener_check(cfg: &ScanConfig, line: &str) -> (r: bool)
    ensures
        r == opener_hit(cfg@, line@),
{
    if deps_block_start(line) {
        true
    } else {
        match cfg.openers {
            OpenerKind::DepsAndExports => exports_block_start(line),
            OpenerKind::Deps => false,
        }
    }
}

/// One pass of the scanner over a file's lines. Every line outside a matched
/// block is emitted byte-identical and in place; a matched block's content is
/// replaced by the transformed, ascending set, ahead of its unchanged end
/// marker. Returns the rewritten lines and the last block's signed
/// line-count delta, or the structural violation met.
pub fn run_for_block(lines: &Vec<String>, cfg: &ScanConfig) -> (r: Result<
    (Vec<String>, i32),
    StructuralViolation,
>)
    requires
        lines@.len() + transform_extra(cfg@.transform) < 0x8000_0000,
    ensures
        match r {
            Ok(p) => scan(lines.deep_view(), cfg@, init_state(cfg@)) == Ok::<
                (Seq<Seq<char>>, int),
                StructuralViolation,
            >((p.0.deep_view(), p.1 as int)) && -(lines@.len() as int) <= p.1 as int <= lines@.len()
                + transform_extra(cfg@.transform),
            Err(e) => scan(lines.deep_view(), cfg@, init_state(cfg@)) == Err::<
                (Seq<Seq<char>>, int),
                StructuralViolation,
            >(e),
        },
{
    let ghost lv = lines.deep_view();
    let ghost cfgv = cfg@;
    let n = lines.len();
    proof {
        assert(lv.len() == n);
    }
    let mut out: Vec<String> = Vec::new();
    let mut buf = LineSet::new();
    let mut inside = false;
    let mut gate = cfg.gate.is_none();
    let mut delta: i32 = 0;
    let mut i: usize = 0;
    proof {
        assert(lv.skip(0) =~= lv);
        assert(out.deep_view() =~= Seq::<Seq<char>>::empty());
        assert(ScanState { inside: false, buf: buf@, gate: gate, delta: delta as int }
            == init_state(cfgv));
        assert(Seq::<Seq<char>>::empty() + scan(lv, cfgv, init_state(cfgv))->Ok_0.0
            =~= scan(lv, cfgv, init_state(cfgv))->Ok_0.0);
        assert(scan_step(
            lv,
            cfgv,
            out.deep_view(),
            0,
            ScanState { inside: false, buf: buf@, gate: gate, delta: delta as int },
        ));
    }
    while i < n
        invariant
            n == lines@.len(),
            lv == lines.deep_view(),
            cfgv == cfg@,
            lv.len() == n,
            i <= n,
            sorted_strict(buf@),
            buf@.len() <= i,
            !inside ==> buf@ == Seq::<Seq<char>>::empty(),
            -(n as int) <= delta as int <= n + transform_extra(cfgv.transform),
            n + transform_extra(cfgv.transform) < 0x8000_0000,
            scan_step(
                lv,
                cfgv,
                out.deep_view(),
                i as int,
                ScanState { inside: inside, buf: buf@, gate: gate, delta: delta as int },
            ),
        decreases n - i,
    {
        let ghost st = ScanState { inside: inside, buf: buf@, gate: gate, delta: delta as int };
        let ghost suffix = lv.skip(i as int);
        proof {
            assert(lv[i as int] == lines@[i as int]@);
            assert(suffix.len() == n - i);
            assert(suffix.first() == lv[i as int]);
            assert(suffix.drop_first() =~= lv.skip(i + 1));
        }
        let line = &lines[i];
        if inside {
            if block_ends(line.as_str()) {
                let mut newlines = apply(&cfg.transform, &buf);
                proof {
                    lemma_apply_len(cfgv.transform, buf@);
                }
                let nl = newlines.len();
                let ol = buf.len();
                proof {
                    assert(newlines.deep_view().len() == nl);
                }
                delta = nl as i32 - ol as i32;
                let ghost st2 = ScanState {
                    inside: false,
                    buf: Seq::empty(),
                    gate: gate,
                    delta: delta as int,
                };
                let ghost done_old = out.deep_view();
                let ghost newb = newlines.deep_view();
                out.append(&mut newlines);
                out.push(line.clone());
                buf = LineSet::new();
                inside = false;
                proof {
                    assert(out.deep_view() =~= done_old + newb + seq![lv[i as int]]);
                    let res2 = scan(lv.skip(i + 1), cfgv, st2);
                    assert(scan(suffix, cfgv, st) == (match res2 {
                        Ok(p) => Ok::<(Seq<Seq<char>>, int), StructuralViolation>(
                            (newb + seq![suffix.first()] + p.0, p.1),
                        ),
                        Err(e) => Err::<(Seq<Seq<char>>, int), StructuralViolation>(e),
                    }));
                    if res2 is Ok {
                        let p = res2->Ok_0;
                        assert(done_old + (newb + seq![lv[i as int]] + p.0) =~= (done_old + newb
                            + seq![lv[i as int]]) + p.0);
                    }
                    assert(scan_step(
                        lv,
                        cfgv,
                        out.deep_view(),
                        i + 1,
                        ScanState {
                            inside: false,
                            buf: buf@,
                            gate: gate,
                            delta: delta as int,
                        },
                    ));
                }
            } else if opener_check(cfg, line.as_str()) {
                proof {
                    assert(scan(suffix, cfgv, st) == Err::<
                        (Seq<Seq<char>>, int),
                        StructuralViolation,
                    >(StructuralViolation::Nested));
                }
                return Err(StructuralViolation::Nested);
            } else if line.as_str().is_empty() {
                proof {
                    assert(lv[i as int].len() == 0);
                    assert(scan(suffix, cfgv, st) == scan(lv.skip(i + 1), cfgv, st));
                }
            } else {
                let normd = normalize_line(line.as_str());
                proof {
                    lemma_sorted_insert_props(buf@, normd@);
                }
                buf.insert(normd);
                proof {
                    assert(scan(suffix, cfgv, st) == scan(
                        lv.skip(i + 1),
                        cfgv,
                        ScanState { inside: inside, buf: buf@, gate: gate, delta: delta as int },
                    ));
                }
            }
        } else {
            if !gate {
                match &cfg.gate {
                    Option::Some(g) => {
                        proof {
                            reveal_strlit("name=");
                            assert("name="@ =~= name_kw());
                        }
                        if str_contains(line.as_str(), "name=") && str_contains(
                            line.as_str(),
                            g.as_str(),
                        ) {
                            gate = true;
                        }
                        proof {
                            assert(gate == (st.gate || gate_hit(cfgv, lv[i as int])));
                        }
                    },
                    Option::None => {
                        proof {
                            assert(gate == (st.gate || gate_hit(cfgv, lv[i as int])));
                        }
                    },
                }
            }
            let hit = opener_check(cfg, line.as_str());
            let ghost done_old = out.deep_view();
            out.push(line.clone());
            proof {
                assert(out.deep_view() =~= done_old.push(lv[i as int]));
                assert(done_old.push(lv[i as int]) =~= done_old + seq![lv[i as int]]);
            }
            if gate && hit {
                inside = true;
                proof {
                    let st2 = ScanState {
                        inside: true,
                        buf: Seq::empty(),
                        gate: gate,
                        delta: delta as int,
                    };
                    assert(scan(suffix, cfgv, st) == (match scan(lv.skip(i + 1), cfgv, st2) {
                        Ok(p) => Ok::<(Seq<Seq<char>>, int), StructuralViolation>(
                            (seq![suffix.first()] + p.0, p.1),
                        ),
                        Err(e) => Err::<(Seq<Seq<char>>, int), StructuralViolation>(e),
                    }));
                    let res2 = scan(lv.skip(i + 1), cfgv, st2);
                    if res2 is Ok {
                        let p = res2->Ok_0;
                        assert(done_old + (seq![lv[i as int]] + p.0) =~= (done_old + seq![
                            lv[i as int],
                        ]) + p.0);
                    }
                    assert(buf@ == Seq::<Seq<char>>::empty());
                    assert(scan_step(lv, cfgv, out.deep_view(), i + 1, st2));
                }
            } else {
                proof {
                    let st2 = ScanState {
                        inside: false,
                        buf: buf@,
                        gate: gate,
                        delta: delta as int,
                    };
                    assert(scan(suffix, cfgv, st) == (match scan(lv.skip(i + 1), cfgv, st2) {
                        Ok(p) => Ok::<(Seq<Seq<char>>, int), StructuralViolation>(
                            (seq![suffix.first()] + p.0, p.1),
                        ),
                        Err(e) => Err::<(Seq<Seq<char>>, int), StructuralViolation>(e),
                    }));
                    let res2 = scan(lv.skip(i + 1), cfgv, st2);
                    if res2 is Ok {
                        let p = res2->Ok_0;
                        assert(done_old + (seq![lv[i as int]] + p.0) =~= (done_old + seq![
                            lv[i as int],
                        ]) + p.0);
                    }
                    assert(scan_step(lv, cfgv, out.deep_view(), i + 1, st2));
                }
            }
        }
        i += 1;
    }
    proof {
        assert(lv.skip(n as int) =~= Seq::<Seq<char>>::empty());
    }
    if inside {
        proof {
            assert(scan(lv.skip(n as int), cfgv, ScanState {
                inside: true,
                buf: buf@,
                gate: gate,
                delta: delta as int,
            }) == Err::<(Seq<Seq<char>>, int), StructuralViolation>(
                StructuralViolation::Unterminated,
            ));
        }
        return Err(StructuralViolation::Unterminated);
    }
    proof {
        assert(scan(lv.skip(n as int), cfgv, ScanState {
            inside: false,
            buf: buf@,
            gate: gate,
            delta: delta as int,
        }) == Ok::<(Seq<Seq<char>>, int), StructuralViolation>((Seq::empty(), delta as int)));
        assert(out.deep_view() + Seq::<Seq<char>>::empty() =~= out.deep_view());
    }
    Ok((out, delta))
}


/// Scanner configuration for removing a module's unused dependencies.
pub open spec fn remove_cfg(m: AddressView, deps: Seq<AddressView>, skip: Seq<char>) -> ScanConfigView {
    ScanConfigView {
        openers: OpenerKind::Deps,
        gate: if spec_is_simple(m) {
            Option::None
        } else {
            Option::Some(m.module_name)
        },
        transform: TransformView::Remove { deps, skip_marker: skip },
    }
}

/// Scanner configuration for adding a module's undeclared dependencies.
pub open spec fn add_cfg(m: AddressView, deps: Seq<AddressView>) -> ScanConfigView {
    ScanConfigView {
        openers: OpenerKind::Deps,
        gate: if spec_is_simple(m) {
            Option::None
        } else {
            Option::Some(m.module_name)
        },
        transform: TransformView::Add { deps },
    }
}

/// Scanner configuration for sorting every dependencies and exports block.
pub open spec fn sort_cfg() -> ScanConfigView {
    ScanConfigView {
        openers: OpenerKind::DepsAndExports,
        gate: Option::None,
        transform: TransformView::Sort,
    }
}

/// Copies a list of addresses field for field.
fn copy_addresses(v: &Vec<Address>) -> (r: Vec<Address>)
    ensures
        addrs_view(r@) == addrs_view(v@),
{
    let n = v.len();
    let mut r: Vec<Address> = Vec::new();
    let mut i: usize = 0;
    while i < n
        invariant
            n == v@.len(),
            i <= n,
            r@.len() == i,
            forall|k: int| 0 <= k < i ==> (#[trigger] r@[k])@ == v@[k]@,
        decreases n - i,
    {
        r.push(copy_address(&v[i]));
        i += 1;
    }
    proof {
        assert(addrs_view(r@) =~= addrs_view(v@));
    }
    r
}

/// Rewrites the module's dependencies block, dropping every line that
/// matches one of `deps` unless the line carries the skip marker. Returns
/// the rewritten lines and the number of lines the last rewritten block
/// lost.
pub fn remove_deps(
    lines: &Vec<String>,
    module: &Address,
    deps: &Vec<Address>,
    skip_marker: &str,
) -> (r: Result<(Vec<String>, i32), StructuralViolation>)
    requires
        lines@.len() < 0x8000_0000,
    ensures
        ({
            let cfg = remove_cfg(module@, addrs_view(deps@), skip_marker@);
            let res = scan(lines.deep_view(), cfg, init_state(cfg));
            match r {
                Ok(p) => res matches Ok(q) && p.0.deep_view() == q.0 && p.1 as int == (if q.1 >= 0 {
                    q.1
                } else {
                    -q.1
                }),
                Err(e) => res == Err::<(Seq<Seq<char>>, int), StructuralViolation>(e),
            }
        }),
{
    let gate = if module.is_simple() {
        Option::None
    } else {
        Option::Some(module.module_name.clone())
    };
    let cfg = ScanConfig {
        openers: OpenerKind::Deps,
        gate,
        transform: Transform::Remove {
            deps: copy_addresses(deps),
            skip_marker: String::from_str(skip_marker),
        },
    };
    proof {
        assert(cfg@ == remove_cfg(module@, addrs_view(deps@), skip_marker@));
    }
    match run_for_block(lines, &cfg) {
        Ok((out, d)) => {
            let c = if d < 0 {
                -d
            } else {
                d
            };
            Ok((out, c))
        },
        Err(e) => Err(e),
    }
}

/// Rewrites the module's dependencies block, inserting a formatted entry for
/// each dependency. Returns the rewritten lines and the number of lines the
/// last rewritten block gained.
pub fn add_deps(
    lines: &Vec<String>,
    module: &Address,
    deps: &Vec<Address>,
) -> (r: Result<(Vec<String>, i32), StructuralViolation>)
    requires
        lines@.len() + deps@.len() < 0x8000_0000,
    ensures
        ({
            let cfg = add_cfg(module@, addrs_view(deps@));
            let res = scan(lines.deep_view(), cfg, init_state(cfg));
            match r {
                Ok(p) => res matches Ok(q) && p.0.deep_view() == q.0 && p.1 as int == q.1,
                Err(e) => res == Err::<(Seq<Seq<char>>, int), StructuralViolation>(e),
            }
        }),
{
    let gate = if module.is_simple() {
        Option::None
    } else {
        Option::Some(module.module_name.clone())
    };
    let cfg = ScanConfig {
        openers: OpenerKind::Deps,
        gate,
        transform: Transform::Add { deps: copy_addresses(deps) },
    };
    proof {
        assert(cfg@ == add_cfg(module@, addrs_view(deps@)));
    }
    run_for_block(lines, &cfg)
}

/// Rewrites every dependencies and exports block into its canonical sorted,
/// deduplicated form, leaving all other lines untouched.
pub fn sort_blocks(lines: &Vec<String>) -> (r: Result<(Vec<String>, i32), StructuralViolation>)
    requires
        lines@.len() < 0x8000_0000,
    ensures
        ({
            let res = scan(lines.deep_view(), sort_cfg(), init_state(sort_cfg()));
            match r {
                Ok(p) => res matches Ok(q) && p.0.deep_view() == q.0 && p.1 as int == q.1,
                Err(e) => res == Err::<(Seq<Seq<char>>, int), StructuralViolation>(e),
            }
        }),
{
    let cfg = ScanConfig {
        openers: OpenerKind::DepsAndExports,
        gate: Option::None,
        transform: Transform::Sort,
    };
    proof {
        assert(cfg@ == sort_cfg());
    }
    run_for_block(lines, &cfg)
}

} // verus!
