//! The library's stated laws: what the transforms and the scanner promise
//! beyond their own contracts — skip-marker retention, pass-through of lines
//! outside blocks, the nested-opener failure, and idempotence of the
//! rewrites.

use vstd::prelude::*;
use crate::address::AddressView;
use crate::blocks::{deps_kw, exports_kw, matches_opener, opener_from, tail_at};
use crate::lineset::{
    lemma_sorted_insert_above, lemma_sorted_insert_props, sorted_insert, sorted_strict,
};
use crate::scan::{
    add_all, add_cfg, apply_transform, formatted_dep, gate_hit, init_state, keep_line,
    lemma_filter_sorted, opener_hit, remove_cfg, remove_pred, scan, sort_cfg, OpenerKind,
    ScanConfigView, ScanState, StructuralViolation, TransformView,
};
use crate::text::{contains_at, dequote, is_space, lex_lt, norm_line, seq_contains};

verus! {

/// Containment of a one-character pattern is having that character.
pub proof fn lemma_contains_single(l: Seq<char>, c: char)
    ensures
        seq_contains(l, seq![c]) <==> exists|i: int| 0 <= i < l.len() && l[i] == c,
{
    if seq_contains(l, seq![c]) {
        let i = choose|i: int| contains_at(l, seq![c], i);
        assert(l.subrange(i, i + 1)[0] == l[i]);
    }
    if exists|i: int| 0 <= i < l.len() && l[i] == c {
        let i = choose|i: int| 0 <= i < l.len() && l[i] == c;
        assert(l.subrange(i, i + 1) =~= seq![c]);
        assert(contains_at(l, seq![c], i));
    }
}

/// The opener keywords hold lower-case letters only: no quote of either
/// kind, no bracket, no comma.
proof fn lemma_kw_plain(kw: Seq<char>)
    requires
        kw == deps_kw() || kw == exports_kw(),
    ensures
        forall|i: int| 0 <= i < kw.len() ==> #[trigger] kw[i] != '\'' && kw[i] != '"',
{
    if kw == deps_kw() {
        assert forall|i: int| 0 <= i < kw.len() implies #[trigger] kw[i] != '\'' && kw[i]
            != '"' by {
            if i < 6 {
                if i < 3 {
                    if i == 0 {
                        assert(kw[0] == 'd');
                    } else if i == 1 {
                        assert(kw[1] == 'e');
                    } else {
                        assert(kw[2] == 'p');
                    }
                } else {
                    if i == 3 {
                        assert(kw[3] == 'e');
                    } else if i == 4 {
                        assert(kw[4] == 'n');
                    } else {
                        assert(kw[5] == 'd');
                    }
                }
            } else {
                if i < 9 {
                    if i == 6 {
                        assert(kw[6] == 'e');
                    } else if i == 7 {
                        assert(kw[7] == 'n');
                    } else {
                        assert(kw[8] == 'c');
                    }
                } else {
                    if i == 9 {
                        assert(kw[9] == 'i');
                    } else if i == 10 {
                        assert(kw[10] == 'e');
                    } else {
                        assert(kw[11] == 's');
                    }
                }
            }
        }
    } else {
        assert forall|i: int| 0 <= i < kw.len() implies #[trigger] kw[i] != '\'' && kw[i]
            != '"' by {
            if i < 4 {
                if i == 0 {
                    assert(kw[0] == 'e');
                } else if i == 1 {
                    assert(kw[1] == 'x');
                } else if i == 2 {
                    assert(kw[2] == 'p');
                } else {
                    assert(kw[3] == 'o');
                }
            } else {
                if i == 4 {
                    assert(kw[4] == 'r');
                } else if i == 5 {
                    assert(kw[5] == 't');
                } else {
                    assert(kw[6] == 's');
                }
            }
        }
    }
}

/// Rewriting double quotes to single quotes cannot manufacture an opener:
/// a match in the rewritten line was already there.
proof fn lemma_dequote_keeps_no_opener(l: Seq<char>, kw: Seq<char>)
    requires
        kw == deps_kw() || kw == exports_kw(),
        matches_opener(dequote(l), kw),
    ensures
        matches_opener(l, kw),
{
    lemma_kw_plain(kw);
    let d = dequote(l);
    assert(d.len() == l.len());
    let i = choose|i: int| opener_from(d, kw, i);
    let (j, k) = choose|j: int, k: int| #[trigger] tail_at(d, i + kw.len(), j, k);
    // on every position the pattern touches, the original equals the rewrite
    assert forall|m: int| i <= m < i + kw.len() implies l[m] == d[m] by {
        assert(d.subrange(i, i + kw.len() as int)[m - i] == d[m]);
        assert(d[m] == kw[m - i]);
        if l[m] == '"' {
            assert(d[m] == '\'');
        }
    }
    assert forall|m: int| i + kw.len() <= m <= k implies l[m] == d[m] by {
        if l[m] == '"' {
            assert(d[m] == '\'');
            if m < j {
                assert(is_space(d[m]));
            } else if m == j {
            } else if m < k {
                assert(is_space(d[m]));
            }
            assert(false);
        }
    }
    assert(l.subrange(i, i + kw.len() as int) =~= kw);
    assert(tail_at(l, i + kw.len(), j, k));
    assert(opener_from(l, kw, i));
}

/// Appending a separator cannot manufacture an opener either.
proof fn lemma_push_comma_keeps_no_opener(d: Seq<char>, kw: Seq<char>)
    requires
        kw == deps_kw() || kw == exports_kw(),
        matches_opener(d.push(','), kw),
    ensures
        matches_opener(d, kw),
{
    let e = d.push(',');
    let i = choose|i: int| opener_from(e, kw, i);
    let (j, k) = choose|j: int, k: int| #[trigger] tail_at(e, i + kw.len(), j, k);
    assert(e[k] == '[');
    assert(k < d.len()) by {
        if k == d.len() {
            assert(e[k] == ',');
        }
    }
    assert(e.subrange(i, i + kw.len() as int) == d.subrange(i, i + kw.len() as int)) by {
        assert(e.subrange(i, i + kw.len() as int) =~= d.subrange(i, i + kw.len() as int));
    }
    assert(contains_at(d, kw, i));
    assert forall|m: int| i + kw.len() <= m <= k implies e[m] == d[m] by {}
    assert(tail_at(d, i + kw.len(), j, k));
    assert(opener_from(d, kw, i));
}

/// A line as a rewritten block emits it: non-empty, comma-terminated, free
/// of double quotes, of closing brackets, and of list openers.
pub open spec fn line_normal(cfg: ScanConfigView, l: Seq<char>) -> bool {
    &&& l.len() > 0
    &&& l.last() == ','
    &&& forall|i: int| 0 <= i < l.len() ==> l[i] != '"'
    &&& !seq_contains(l, seq![']'])
    &&& !opener_hit(cfg, l)
}

/// A block as a pass emits it: ascending, every line normal.
pub open spec fn block_normal(cfg: ScanConfigView, b: Seq<Seq<char>>) -> bool {
    &&& sorted_strict(b)
    &&& forall|k: int| 0 <= k < b.len() ==> line_normal(cfg, #[trigger] b[k])
}

/// Normalising a line the scanner accumulated yields a normal line, and a
/// normal line is already in normal form.
proof fn lemma_norm_line_normal(cfg: ScanConfigView, l: Seq<char>)
    requires
        l.len() > 0,
        !seq_contains(l, seq![']']),
        !opener_hit(cfg, l),
    ensures
        line_normal(cfg, norm_line(l)),
{
    let d = dequote(l);
    let r = norm_line(l);
    assert(d.len() == l.len());
    // no double quote survives the rewrite
    assert(forall|i: int| 0 <= i < d.len() ==> d[i] != '"');
    assert(forall|i: int| 0 <= i < r.len() ==> r[i] != '"') by {
        if !(d.len() > 0 && d.last() == ',') {
            assert(forall|i: int| 0 <= i < r.len() - 1 ==> r[i] == d[i]);
            assert(r.last() == ',');
        }
    }
    // no closing bracket appears
    lemma_contains_single(l, ']');
    lemma_contains_single(d, ']');
    lemma_contains_single(r, ']');
    assert(forall|i: int| 0 <= i < d.len() ==> d[i] != ']') by {
        assert(forall|i: int| 0 <= i < l.len() ==> l[i] != ']');
    }
    assert(forall|i: int| 0 <= i < r.len() ==> r[i] != ']') by {
        if !(d.len() > 0 && d.last() == ',') {
            assert(forall|i: int| 0 <= i < r.len() - 1 ==> r[i] == d[i]);
            assert(r.last() == ',');
        }
    }
    // no opener appears
    assert(!opener_hit(cfg, r)) by {
        if matches_opener(r, deps_kw()) {
            if !(d.len() > 0 && d.last() == ',') {
                lemma_push_comma_keeps_no_opener(d, deps_kw());
            }
            lemma_dequote_keeps_no_opener(l, deps_kw());
            assert(opener_hit(cfg, l));
        }
        if cfg.openers == OpenerKind::DepsAndExports && matches_opener(r, exports_kw()) {
            if !(d.len() > 0 && d.last() == ',') {
                lemma_push_comma_keeps_no_opener(d, exports_kw());
            }
            lemma_dequote_keeps_no_opener(l, exports_kw());
            assert(opener_hit(cfg, l));
        }
    }
    assert(r.last() == ',');
}

/// A normal line passes through normalisation unchanged.
proof fn lemma_norm_identity(l: Seq<char>)
    requires
        l.len() > 0,
        l.last() == ',',
        forall|i: int| 0 <= i < l.len() ==> l[i] != '"',
    ensures
        norm_line(l) == l,
{
    assert(dequote(l) =~= l);
}

/// THE SKIP-MARKER LAW: whatever the configured skip-marker string, a block
/// line containing it is retained by Remove, even when it matches one of the
/// dependencies being removed.
pub proof fn lemma_skip_marker_retained(
    b: Seq<Seq<char>>,
    deps: Seq<AddressView>,
    skip: Seq<char>,
    i: int,
)
    requires
        sorted_strict(b),
        0 <= i < b.len(),
        seq_contains(b[i], skip),
    ensures
        apply_transform(TransformView::Remove { deps, skip_marker: skip }, b).contains(b[i]),
{
    lemma_filter_sorted(b, remove_pred(deps, skip));
    assert(b.contains(b[i]));
    assert(keep_line(b[i], deps, skip));
    assert(remove_pred(deps, skip)(b[i]) == keep_line(b[i], deps, skip));
}


/// The opener-eligibility flag once the scanner has consumed `pre` outside a block.
pub open spec fn gate_after(cfg: ScanConfigView, g: bool, pre: Seq<Seq<char>>) -> bool
    decreases pre.len(),
{
    if pre.len() == 0 {
        g
    } else {
        gate_after(cfg, g || gate_hit(cfg, pre.first()), pre.drop_first())
    }
}

/// No line of `pre` would open a block, as opener eligibility evolves over it.
pub open spec fn no_opener_in(cfg: ScanConfigView, g: bool, pre: Seq<Seq<char>>) -> bool
    decreases pre.len(),
{
    if pre.len() == 0 {
        true
    } else {
        let g2 = g || gate_hit(cfg, pre.first());
        !(g2 && opener_hit(cfg, pre.first())) && no_opener_in(cfg, g2, pre.drop_first())
    }
}

/// THE PASS-THROUGH LAW, outside any block: lines in which the scanner
/// recognises no opener are emitted byte-identical, in their places,
/// whatever follows them.
pub proof fn lemma_scan_passthrough(
    pre: Seq<Seq<char>>,
    rest: Seq<Seq<char>>,
    cfg: ScanConfigView,
    st: ScanState,
)
    requires
        !st.inside,
        no_opener_in(cfg, st.gate, pre),
    ensures
        scan(pre + rest, cfg, st) == (match scan(
            rest,
            cfg,
            ScanState { gate: gate_after(cfg, st.gate, pre), ..st },
        ) {
            Ok(p) => Ok::<(Seq<Seq<char>>, int), StructuralViolation>((pre + p.0, p.1)),
            Err(e) => Err::<(Seq<Seq<char>>, int), StructuralViolation>(e),
        }),
    decreases pre.len(),
{
    if pre.len() == 0 {
        assert(pre + rest =~= rest);
        assert(ScanState { gate: gate_after(cfg, st.gate, pre), ..st } == st);
        let res = scan(rest, cfg, st);
        if res is Ok {
            assert(pre + res->Ok_0.0 =~= res->Ok_0.0);
        }
    } else {
        let l = pre.first();
        let all = pre + rest;
        assert(all.len() > 0);
        assert(all.first() == l);
        assert(all.drop_first() =~= pre.drop_first() + rest);
        let g2 = st.gate || gate_hit(cfg, l);
        let st2 = ScanState { inside: false, buf: st.buf, gate: g2, delta: st.delta };
        assert(!(g2 && opener_hit(cfg, l)));
        lemma_scan_passthrough(pre.drop_first(), rest, cfg, st2);
        assert(gate_after(cfg, st.gate, pre) == gate_after(cfg, g2, pre.drop_first()));
        let res = scan(rest, cfg, ScanState { gate: gate_after(cfg, st.gate, pre), ..st });
        if res is Ok {
            let p = res->Ok_0;
            assert(seq![l] + (pre.drop_first() + p.0) =~= pre + p.0);
        }
    }
}

/// With no opener recognised anywhere, the whole file passes through
/// unchanged, and the reported delta is untouched.
pub proof fn lemma_scan_no_blocks(lines: Seq<Seq<char>>, cfg: ScanConfigView, st: ScanState)
    requires
        !st.inside,
        no_opener_in(cfg, st.gate, lines),
    ensures
        scan(lines, cfg, st) == Ok::<(Seq<Seq<char>>, int), StructuralViolation>(
            (lines, st.delta),
        ),
{
    lemma_scan_passthrough(lines, Seq::empty(), cfg, st);
    assert(lines + Seq::<Seq<char>>::empty() =~= lines);
}

/// Block content as the scanner accumulates it: empty lines dropped, the
/// rest normalised into the ascending set.
pub open spec fn accum(b: Seq<Seq<char>>, content: Seq<Seq<char>>) -> Seq<Seq<char>>
    decreases content.len(),
{
    if content.len() == 0 {
        b
    } else {
        let l = content.first();
        accum(
            if l.len() == 0 {
                b
            } else {
                sorted_insert(b, norm_line(l))
            },
            content.drop_first(),
        )
    }
}

/// Inside a block, lines free of end markers and openers are consumed into
/// the buffer and emit nothing yet.
pub proof fn lemma_scan_feed(
    content: Seq<Seq<char>>,
    tail: Seq<Seq<char>>,
    cfg: ScanConfigView,
    st: ScanState,
)
    requires
        st.inside,
        forall|k: int|
            0 <= k < content.len() ==> !seq_contains(#[trigger] content[k], seq![']'])
                && !opener_hit(cfg, content[k]),
    ensures
        scan(content + tail, cfg, st) == scan(
            tail,
            cfg,
            ScanState { buf: accum(st.buf, content), ..st },
        ),
    decreases content.len(),
{
    if content.len() == 0 {
        assert(content + tail =~= tail);
        assert(ScanState { buf: accum(st.buf, content), ..st } == st);
    } else {
        let l = content.first();
        let all = content + tail;
        assert(all.len() > 0);
        assert(all.first() == l);
        assert(all.drop_first() =~= content.drop_first() + tail);
        assert(!seq_contains(l, seq![']']) && !opener_hit(cfg, l));
        if l.len() == 0 {
            lemma_scan_feed(content.drop_first(), tail, cfg, st);
        } else {
            let st2 = ScanState {
                inside: true,
                buf: sorted_insert(st.buf, norm_line(l)),
                gate: st.gate,
                delta: st.delta,
            };
            assert(st2 == ScanState { buf: sorted_insert(st.buf, norm_line(l)), ..st });
            lemma_scan_feed(content.drop_first(), tail, cfg, st2);
        }
    }
}

/// THE PASS-THROUGH LAW, around a block: a recognised block is rewritten in
/// place. The opener line, the end-marker line and everything after them are
/// emitted unchanged; only the content between them is replaced, by the
/// transformed set.
pub proof fn lemma_scan_block(
    opener: Seq<char>,
    content: Seq<Seq<char>>,
    end: Seq<char>,
    post: Seq<Seq<char>>,
    cfg: ScanConfigView,
    st: ScanState,
)
    requires
        !st.inside,
        (st.gate || gate_hit(cfg, opener)) && opener_hit(cfg, opener),
        !seq_contains(opener, seq![']']),
        forall|k: int|
            0 <= k < content.len() ==> !seq_contains(#[trigger] content[k], seq![']'])
                && !opener_hit(cfg, content[k]),
        seq_contains(end, seq![']']),
    ensures
        ({
            let c = accum(Seq::empty(), content);
            let newb = apply_transform(cfg.transform, c);
            let st2 = ScanState {
                inside: false,
                buf: Seq::empty(),
                gate: st.gate || gate_hit(cfg, opener),
                delta: newb.len() - c.len(),
            };
            scan(seq![opener] + content + seq![end] + post, cfg, st) == (match scan(
                post,
                cfg,
                st2,
            ) {
                Ok(p) => Ok::<(Seq<Seq<char>>, int), StructuralViolation>(
                    (seq![opener] + newb + seq![end] + p.0, p.1),
                ),
                Err(e) => Err::<(Seq<Seq<char>>, int), StructuralViolation>(e),
            })
        }),
{
    let g2 = st.gate || gate_hit(cfg, opener);
    let all = seq![opener] + content + seq![end] + post;
    assert(all.len() > 0);
    assert(all.first() == opener);
    assert(all.drop_first() =~= content + (seq![end] + post));
    let st_in = ScanState { inside: true, buf: Seq::empty(), gate: g2, delta: st.delta };
    lemma_scan_feed(content, seq![end] + post, cfg, st_in);
    let c = accum(Seq::empty(), content);
    let st_full = ScanState { buf: c, ..st_in };
    let mid = seq![end] + post;
    assert(mid.first() == end);
    assert(mid.drop_first() =~= post);
    let newb = apply_transform(cfg.transform, c);
    let st2 = ScanState { inside: false, buf: Seq::empty(), gate: g2, delta: newb.len() - c.len() };
    assert(scan(mid, cfg, st_full) == (match scan(post, cfg, st2) {
        Ok(p) => Ok::<(Seq<Seq<char>>, int), StructuralViolation>((newb + seq![end] + p.0, p.1)),
        Err(e) => Err::<(Seq<Seq<char>>, int), StructuralViolation>(e),
    }));
    let res = scan(post, cfg, st2);
    if res is Ok {
        let p = res->Ok_0;
        assert(seq![opener] + (newb + seq![end] + p.0) =~= seq![opener] + newb + seq![end] + p.0);
    }
}

/// THE NESTED-OPENER LAW: a second block-start marker, before any end
/// marker has closed the first, stops the pass with the nested structural
/// violation — the rewrite hands back no lines, so nothing is written.
pub proof fn lemma_nested_openers(
    pre: Seq<Seq<char>>,
    o1: Seq<char>,
    o2: Seq<char>,
    rest: Seq<Seq<char>>,
    cfg: ScanConfigView,
    st: ScanState,
)
    requires
        !st.inside,
        no_opener_in(cfg, st.gate, pre),
        (gate_after(cfg, st.gate, pre) || gate_hit(cfg, o1)) && opener_hit(cfg, o1),
        !seq_contains(o1, seq![']']),
        !seq_contains(o2, seq![']']),
        opener_hit(cfg, o2),
    ensures
        scan(pre + seq![o1] + seq![o2] + rest, cfg, st) == Err::<
            (Seq<Seq<char>>, int),
            StructuralViolation,
        >(StructuralViolation::Nested),
{
    let tail = seq![o1] + (seq![o2] + rest);
    assert(pre + seq![o1] + seq![o2] + rest =~= pre + tail);
    lemma_scan_passthrough(pre, tail, cfg, st);
    let ga = gate_after(cfg, st.gate, pre);
    let st1 = ScanState { gate: ga, ..st };
    assert(tail.first() == o1);
    assert(tail.drop_first() =~= seq![o2] + rest);
    let g2 = ga || gate_hit(cfg, o1);
    let st_in = ScanState { inside: true, buf: Seq::empty(), gate: g2, delta: st.delta };
    let tail2 = seq![o2] + rest;
    assert(tail2.first() == o2);
    assert(scan(tail2, cfg, st_in) == Err::<(Seq<Seq<char>>, int), StructuralViolation>(
        StructuralViolation::Nested,
    ));
}


/// What `add_all` holds: the old members and each formatted entry.
proof fn lemma_add_all_members(b: Seq<Seq<char>>, deps: Seq<AddressView>)
    requires
        sorted_strict(b),
    ensures
        sorted_strict(add_all(b, deps)),
        forall|y: Seq<char>| #[trigger]
            add_all(b, deps).contains(y) <==> (b.contains(y) || exists|i: int|
                0 <= i < deps.len() && y == formatted_dep(#[trigger] deps[i])),
    decreases deps.len(),
{
    if deps.len() == 0 {
    } else {
        let f0 = formatted_dep(deps.first());
        lemma_sorted_insert_props(b, f0);
        let b2 = sorted_insert(b, f0);
        lemma_add_all_members(b2, deps.drop_first());
        assert(add_all(b, deps) == add_all(b2, deps.drop_first()));
        assert forall|y: Seq<char>| #[trigger]
            add_all(b, deps).contains(y) <==> (b.contains(y) || exists|i: int|
                0 <= i < deps.len() && y == formatted_dep(#[trigger] deps[i])) by {
            if add_all(b, deps).contains(y) {
                if b2.contains(y) {
                    if !b.contains(y) {
                        assert(y == f0);
                        assert(deps.first() == deps[0]);
                        assert(y == formatted_dep(deps[0]));
                    }
                } else {
                    let i = choose|i: int|
                        0 <= i < deps.drop_first().len() && y == formatted_dep(
                            #[trigger] deps.drop_first()[i],
                        );
                    assert(deps.drop_first()[i] == deps[i + 1]);
                    assert(y == formatted_dep(deps[i + 1]));
                }
            }
            if b.contains(y) {
                assert(b2.contains(y));
            }
            if exists|i: int| 0 <= i < deps.len() && y == formatted_dep(#[trigger] deps[i]) {
                let i = choose|i: int|
                    0 <= i < deps.len() && y == formatted_dep(#[trigger] deps[i]);
                if i == 0 {
                    assert(y == f0);
                    assert(b2.contains(y));
                } else {
                    assert(deps.drop_first()[i - 1] == deps[i]);
                    assert(y == formatted_dep(deps.drop_first()[i - 1]));
                }
            }
        }
    }
}

/// Inserting entries already present changes nothing.
proof fn lemma_add_all_absorbed(b: Seq<Seq<char>>, deps: Seq<AddressView>)
    requires
        sorted_strict(b),
        forall|i: int| 0 <= i < deps.len() ==> b.contains(formatted_dep(#[trigger] deps[i])),
    ensures
        add_all(b, deps) == b,
    decreases deps.len(),
{
    if deps.len() == 0 {
    } else {
        assert(b.contains(formatted_dep(deps[0])));
        lemma_sorted_insert_props(b, formatted_dep(deps.first()));
        assert(sorted_insert(b, formatted_dep(deps.first())) == b);
        assert forall|i: int|
            0 <= i < deps.drop_first().len() implies b.contains(
            formatted_dep(#[trigger] deps.drop_first()[i]),
        ) by {
            assert(deps.drop_first()[i] == deps[i + 1]);
        }
        lemma_add_all_absorbed(b, deps.drop_first());
    }
}

/// THE ADD-IDEMPOTENCE LAW: running Add with the same dependency set twice
/// on the same block is a fixed point — the second run changes nothing.
pub proof fn lemma_add_idempotent(b: Seq<Seq<char>>, deps: Seq<AddressView>)
    requires
        sorted_strict(b),
    ensures
        apply_transform(
            TransformView::Add { deps },
            apply_transform(TransformView::Add { deps }, b),
        ) == apply_transform(TransformView::Add { deps }, b),
{
    lemma_add_all_members(b, deps);
    let b1 = add_all(b, deps);
    assert forall|i: int|
        0 <= i < deps.len() implies b1.contains(formatted_dep(#[trigger] deps[i])) by {
        let y = formatted_dep(deps[i]);
        assert(exists|k: int| 0 <= k < deps.len() && y == formatted_dep(#[trigger] deps[k])) by {
            assert(y == formatted_dep(deps[i]));
        }
        assert(add_all(b, deps).contains(y));
    }
    lemma_add_all_absorbed(b1, deps);
}

/// Filtering a filter's own output removes nothing more.
proof fn lemma_filter_idempotent<A>(s: Seq<A>, pred: spec_fn(A) -> bool)
    ensures
        s.filter(pred).filter(pred) == s.filter(pred),
    decreases s.len(),
{
    reveal(Seq::filter);
    if s.len() == 0 {
        assert(s.filter(pred) =~= Seq::<A>::empty());
    } else {
        let fr = s.drop_last();
        lemma_filter_idempotent(fr, pred);
        if pred(s.last()) {
            assert(s.filter(pred) == fr.filter(pred).push(s.last()));
            let t = fr.filter(pred).push(s.last());
            assert(t.drop_last() =~= fr.filter(pred));
            assert(t.last() == s.last());
            assert(t.filter(pred) == fr.filter(pred).filter(pred).push(s.last()));
        } else {
            assert(s.filter(pred) == fr.filter(pred));
        }
    }
}

/// THE REMOVE-IDEMPOTENCE LAW: re-running Remove on its own output yields no
/// further change.
pub proof fn lemma_remove_idempotent(b: Seq<Seq<char>>, deps: Seq<AddressView>, skip: Seq<char>)
    ensures
        apply_transform(
            TransformView::Remove { deps, skip_marker: skip },
            apply_transform(TransformView::Remove { deps, skip_marker: skip }, b),
        ) == apply_transform(TransformView::Remove { deps, skip_marker: skip }, b),
{
    lemma_filter_idempotent(b, remove_pred(deps, skip));
}


/// The transform keeps normal blocks normal and is idempotent on them.
pub open spec fn transform_tame(cfg: ScanConfigView) -> bool {
    forall|b: Seq<Seq<char>>|
        block_normal(cfg, b) ==> {
            &&& block_normal(cfg, #[trigger] apply_transform(cfg.transform, b))
            &&& apply_transform(cfg.transform, apply_transform(cfg.transform, b))
                == apply_transform(cfg.transform, b)
        }
}

/// A normal, ascending block above the buffer feeds back in unchanged.
proof fn lemma_accum_normal(c: Seq<Seq<char>>, s: Seq<Seq<char>>, cfg: ScanConfigView)
    requires
        sorted_strict(c + s),
        forall|k: int| 0 <= k < s.len() ==> line_normal(cfg, #[trigger] s[k]),
    ensures
        accum(c, s) == c + s,
    decreases s.len(),
{
    if s.len() == 0 {
        assert(c + s =~= c);
    } else {
        let l = s.first();
        assert(line_normal(cfg, l)) by {
            assert(s[0] == l);
        }
        lemma_norm_identity(l);
        assert(sorted_strict(c)) by {
            assert forall|i: int, j: int| 0 <= i < j < c.len() implies lex_lt(c[i], c[j]) by {
                assert(c[i] == (c + s)[i]);
                assert(c[j] == (c + s)[j]);
            }
        }
        assert forall|k: int| 0 <= k < c.len() implies lex_lt(c[k], l) by {
            assert(c[k] == (c + s)[k]);
            assert(l == (c + s)[c.len() as int]);
        }
        lemma_sorted_insert_above(c, l);
        assert(c.push(l) + s.drop_first() =~= c + s);
        assert forall|k: int|
            0 <= k < s.drop_first().len() implies line_normal(
            cfg,
            #[trigger] s.drop_first()[k],
        ) by {
            assert(s.drop_first()[k] == s[k + 1]);
        }
        lemma_accum_normal(c.push(l), s.drop_first(), cfg);
    }
}

/// THE RECONSTRUCTION LAW: whatever a block held, the scanner's set-based
/// rebuild of its content is canonical — strictly ascending, so free of
/// duplicates.
pub proof fn lemma_accum_canonical(b: Seq<Seq<char>>, content: Seq<Seq<char>>)
    requires
        sorted_strict(b),
    ensures
        sorted_strict(accum(b, content)),
    decreases content.len(),
{
    if content.len() == 0 {
    } else {
        let l = content.first();
        if l.len() == 0 {
            lemma_accum_canonical(b, content.drop_first());
        } else {
            lemma_sorted_insert_props(b, norm_line(l));
            lemma_accum_canonical(sorted_insert(b, norm_line(l)), content.drop_first());
        }
    }
}

/// Rescanning a pass's output from outside a block reproduces it unchanged,
/// with a zero delta.
proof fn lemma_rescan_out(
    lines: Seq<Seq<char>>,
    cfg: ScanConfigView,
    g: bool,
    d0: int,
    out: Seq<Seq<char>>,
    d: int,
)
    requires
        transform_tame(cfg),
        scan(lines, cfg, ScanState { inside: false, buf: Seq::empty(), gate: g, delta: d0 })
            == Ok::<(Seq<Seq<char>>, int), StructuralViolation>((out, d)),
    ensures
        scan(out, cfg, ScanState { inside: false, buf: Seq::empty(), gate: g, delta: 0 })
            == Ok::<(Seq<Seq<char>>, int), StructuralViolation>((out, 0)),
    decreases lines.len(),
{
    let st = ScanState { inside: false, buf: Seq::empty(), gate: g, delta: d0 };
    if lines.len() == 0 {
        assert(out == Seq::<Seq<char>>::empty());
    } else {
        let l = lines.first();
        let rest = lines.drop_first();
        let g2 = g || gate_hit(cfg, l);
        if g2 && opener_hit(cfg, l) {
            let st_in = ScanState { inside: true, buf: Seq::empty(), gate: g2, delta: d0 };
            let res = scan(rest, cfg, st_in);
            assert(res is Ok);
            let out2 = res->Ok_0.0;
            assert(out == seq![l] + out2);
            lemma_rescan_in(rest, cfg, g2, Seq::empty(), d0, out2, res->Ok_0.1);
            assert(out.len() > 0);
            assert(out.first() == l);
            assert(out.drop_first() =~= out2);
        } else {
            let st2 = ScanState { inside: false, buf: Seq::empty(), gate: g2, delta: d0 };
            let res = scan(rest, cfg, st2);
            assert(res is Ok);
            let out2 = res->Ok_0.0;
            assert(out == seq![l] + out2);
            lemma_rescan_out(rest, cfg, g2, d0, out2, res->Ok_0.1);
            assert(out.len() > 0);
            assert(out.first() == l);
            assert(out.drop_first() =~= out2);
        }
    }
}

/// Rescanning a pass's output from inside a just-opened block reproduces it
/// unchanged, with a zero delta.
proof fn lemma_rescan_in(
    lines: Seq<Seq<char>>,
    cfg: ScanConfigView,
    g: bool,
    b: Seq<Seq<char>>,
    d0: int,
    out: Seq<Seq<char>>,
    d: int,
)
    requires
        transform_tame(cfg),
        block_normal(cfg, b),
        scan(lines, cfg, ScanState { inside: true, buf: b, gate: g, delta: d0 }) == Ok::<
            (Seq<Seq<char>>, int),
            StructuralViolation,
        >((out, d)),
    ensures
        scan(out, cfg, ScanState { inside: true, buf: Seq::empty(), gate: g, delta: 0 }) == Ok::<
            (Seq<Seq<char>>, int),
            StructuralViolation,
        >((out, 0)),
    decreases lines.len(),
{
    let st = ScanState { inside: true, buf: b, gate: g, delta: d0 };
    assert(lines.len() > 0);
    let l = lines.first();
    let rest = lines.drop_first();
    if seq_contains(l, seq![']']) {
        let newb = apply_transform(cfg.transform, b);
        assert(block_normal(cfg, newb));
        assert(apply_transform(cfg.transform, newb) == newb);
        let delta1 = newb.len() - b.len();
        let st2 = ScanState { inside: false, buf: Seq::empty(), gate: g, delta: delta1 };
        let res = scan(rest, cfg, st2);
        assert(res is Ok);
        let out2 = res->Ok_0.0;
        assert(out == newb + seq![l] + out2);
        lemma_rescan_out(rest, cfg, g, delta1, out2, res->Ok_0.1);
        // the rescan feeds the emitted block back into an empty buffer
        assert forall|k: int|
            0 <= k < newb.len() implies !seq_contains(#[trigger] newb[k], seq![']'])
                && !opener_hit(cfg, newb[k]) by {
            assert(line_normal(cfg, newb[k]));
        }
        assert(out =~= newb + (seq![l] + out2));
        let st0 = ScanState { inside: true, buf: Seq::empty(), gate: g, delta: 0 };
        lemma_scan_feed(newb, seq![l] + out2, cfg, st0);
        assert(Seq::<Seq<char>>::empty() + newb =~= newb);
        lemma_accum_normal(Seq::empty(), newb, cfg);
        assert(accum(Seq::empty(), newb) == newb);
        assert(ScanState { buf: accum(st0.buf, newb), ..st0 } == ScanState {
            inside: true,
            buf: newb,
            gate: g,
            delta: 0,
        });
        let m2 = seq![l] + out2;
        assert(m2.len() > 0);
        assert(m2.first() == l);
        assert(m2.drop_first() =~= out2);
        assert(newb + seq![l] + out2 =~= newb + (seq![l] + out2));
    } else if opener_hit(cfg, l) {
        assert(false);
    } else if l.len() == 0 {
        lemma_rescan_in(rest, cfg, g, b, d0, out, d);
    } else {
        let b2 = sorted_insert(b, norm_line(l));
        lemma_norm_line_normal(cfg, l);
        lemma_sorted_insert_props(b, norm_line(l));
        assert(block_normal(cfg, b2)) by {
            assert forall|k: int| 0 <= k < b2.len() implies line_normal(cfg, #[trigger] b2[k]) by {
                assert(b2.contains(b2[k]));
                if b.contains(b2[k]) {
                    let k2 = choose|k2: int| 0 <= k2 < b.len() && b[k2] == b2[k];
                    assert(line_normal(cfg, b[k2]));
                } else {
                    assert(b2[k] == norm_line(l));
                }
            }
        }
        lemma_rescan_in(rest, cfg, g, b2, d0, out, d);
    }
}

/// THE SORT-IDEMPOTENCE LAW: a file one sorting pass has canonicalised is
/// re-emitted byte-identical by the next — sorting a sorted, deduplicated
/// file is a no-op, and the second pass reports a zero delta.
pub proof fn lemma_sort_idempotent(lines: Seq<Seq<char>>, out: Seq<Seq<char>>, d: int)
    requires
        scan(lines, sort_cfg(), init_state(sort_cfg())) == Ok::<
            (Seq<Seq<char>>, int),
            StructuralViolation,
        >((out, d)),
    ensures
        scan(out, sort_cfg(), init_state(sort_cfg())) == Ok::<
            (Seq<Seq<char>>, int),
            StructuralViolation,
        >((out, 0)),
{
    let cfg = sort_cfg();
    assert(transform_tame(cfg)) by {
        assert forall|b: Seq<Seq<char>>| block_normal(cfg, b) implies {
            &&& block_normal(cfg, #[trigger] apply_transform(cfg.transform, b))
            &&& apply_transform(cfg.transform, apply_transform(cfg.transform, b))
                == apply_transform(cfg.transform, b)
        } by {
            assert(apply_transform(cfg.transform, b) == b);
        }
    }
    assert(init_state(cfg) == ScanState {
        inside: false,
        buf: Seq::<Seq<char>>::empty(),
        gate: true,
        delta: 0,
    });
    lemma_rescan_out(lines, cfg, true, 0, out, d);
}

/// THE REMOVE-IDEMPOTENCE LAW, over a whole pass: rewriting a file that a
/// Remove pass produced, with the same dependencies and skip marker, emits
/// it back byte-identical with a zero delta.
pub proof fn lemma_remove_pass_idempotent(
    lines: Seq<Seq<char>>,
    m: AddressView,
    deps: Seq<AddressView>,
    skip: Seq<char>,
    out: Seq<Seq<char>>,
    d: int,
)
    requires
        scan(lines, remove_cfg(m, deps, skip), init_state(remove_cfg(m, deps, skip))) == Ok::<
            (Seq<Seq<char>>, int),
            StructuralViolation,
        >((out, d)),
    ensures
        scan(out, remove_cfg(m, deps, skip), init_state(remove_cfg(m, deps, skip))) == Ok::<
            (Seq<Seq<char>>, int),
            StructuralViolation,
        >((out, 0)),
{
    let cfg = remove_cfg(m, deps, skip);
    assert(transform_tame(cfg)) by {
        assert forall|b: Seq<Seq<char>>| block_normal(cfg, b) implies {
            &&& block_normal(cfg, #[trigger] apply_transform(cfg.transform, b))
            &&& apply_transform(cfg.transform, apply_transform(cfg.transform, b))
                == apply_transform(cfg.transform, b)
        } by {
            let pred = remove_pred(deps, skip);
            lemma_filter_sorted(b, pred);
            let t = b.filter(pred);
            assert(block_normal(cfg, t)) by {
                assert forall|k: int|
                    0 <= k < t.len() implies line_normal(cfg, #[trigger] t[k]) by {
                    assert(t.contains(t[k]));
                    assert(b.contains(t[k]));
                    let k2 = choose|k2: int| 0 <= k2 < b.len() && b[k2] == t[k];
                    assert(line_normal(cfg, b[k2]));
                }
            }
            lemma_filter_idempotent(b, pred);
        }
    }
    let g0 = cfg.gate is None;
    assert(init_state(cfg) == ScanState {
        inside: false,
        buf: Seq::<Seq<char>>::empty(),
        gate: g0,
        delta: 0,
    });
    lemma_rescan_out(lines, cfg, g0, 0, out, d);
}

/// THE ADD-IDEMPOTENCE LAW, over a whole pass: rewriting a file that an Add
/// pass produced, with the same dependency set, emits it back byte-identical
/// with a zero delta — provided each formatted entry is itself a normal
/// block line (it holds no bracket, double quote or opener of its own).
pub proof fn lemma_add_pass_idempotent(
    lines: Seq<Seq<char>>,
    m: AddressView,
    deps: Seq<AddressView>,
    out: Seq<Seq<char>>,
    d: int,
)
    requires
        forall|i: int|
            0 <= i < deps.len() ==> line_normal(
                add_cfg(m, deps),
                formatted_dep(#[trigger] deps[i]),
            ),
        scan(lines, add_cfg(m, deps), init_state(add_cfg(m, deps))) == Ok::<
            (Seq<Seq<char>>, int),
            StructuralViolation,
        >((out, d)),
    ensures
        scan(out, add_cfg(m, deps), init_state(add_cfg(m, deps))) == Ok::<
            (Seq<Seq<char>>, int),
            StructuralViolation,
        >((out, 0)),
{
    let cfg = add_cfg(m, deps);
    assert(transform_tame(cfg)) by {
        assert forall|b: Seq<Seq<char>>| block_normal(cfg, b) implies {
            &&& block_normal(cfg, #[trigger] apply_transform(cfg.transform, b))
            &&& apply_transform(cfg.transform, apply_transform(cfg.transform, b))
                == apply_transform(cfg.transform, b)
        } by {
            lemma_add_all_members(b, deps);
            let t = add_all(b, deps);
            assert(block_normal(cfg, t)) by {
                assert forall|k: int|
                    0 <= k < t.len() implies line_normal(cfg, #[trigger] t[k]) by {
                    assert(t.contains(t[k]));
                    if b.contains(t[k]) {
                        let k2 = choose|k2: int| 0 <= k2 < b.len() && b[k2] == t[k];
                        assert(line_normal(cfg, b[k2]));
                    } else {
                        let i = choose|i: int|
                            0 <= i < deps.len() && t[k] == formatted_dep(#[trigger] deps[i]);
                        assert(line_normal(cfg, formatted_dep(deps[i])));
                    }
                }
            }
            lemma_add_idempotent(b, deps);
        }
    }
    let g0 = cfg.gate is None;
    assert(init_state(cfg) == ScanState {
        inside: false,
        buf: Seq::<Seq<char>>::empty(),
        gate: g0,
        delta: 0,
    });
    lemma_rescan_out(lines, cfg, g0, 0, out, d);
}

} // verus!
