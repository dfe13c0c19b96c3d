//! The node renderer: the recursive core of the formatter.  It walks a
//! parse node over the window of the chunk text it occupies, dispatches on
//! the node's kind, and produces the flat render instruction sequence,
//! preserving the raw gaps around and between productions through the
//! whitespace normalizer.
//!
//! Its contract pins the instruction stream exactly: the rendering of a
//! window is [`render_spec`] of it, from which the character-preservation
//! guarantee — every non-whitespace character of the window survives
//! exactly as often — and the well-nestedness of the stream follow.

use vstd::prelude::*;

use crate::chars::{
    char_at, count_in, is_ws, lemma_count_single, lemma_same_concat, lemma_same_pad, lemma_same_refl,
    lemma_same_sym, lemma_same_trans, same_nonws, subrange_chars,
};
use crate::inst::{
    chars_of, deep, deep2, lemma_chars_of_concat, lemma_chars_of_push, lemma_chars_of_single,
    lemma_deep_concat, lemma_wn_concat, lemma_wn_empty, lemma_wn_push_flat, push_inst,
    well_nested, Inst, R,
};
use crate::layout::{
    container_spec, format_container, format_seq, format_seq_spec, inline_choice,
    lemma_container_same, lemma_container_wn, lemma_join_same, lemma_join_wn,
    lemma_sibs_chars_push, lemma_wn_sibs_push, sibs_chars,
};
use crate::tree::{
    gseq, gview, lemma_gap_after_children, lemma_gap_before_child, lemma_gview_children, node_wf,
    role_wf, walked_to, GNode, Kind, Node, Role,
};
use crate::whitespace::{lemma_minimize_same, lemma_minimize_wn, minimize_spec, minimize_whitespace};

verus! {

/// Append the normalized raw text of the window `[a, b)` to `out`.
fn emit_gap(out: &mut Vec<R>, data: &Vec<char>, a: usize, b: usize)
    requires
        a <= b,
        b <= data@.len(),
    ensures
        deep(final(out)@) == deep(old(out)@) + minimize_spec(data@.subrange(a as int, b as int)),
{
    let g = subrange_chars(data, a, b);
    let mut m = minimize_whitespace(&g);
    let ghost pre = out@;
    let ghost mr = m@;
    out.append(&mut m);
    proof {
        lemma_deep_concat(pre, mr);
    }
}

/// A space never counts as a meaningful character.
proof fn lemma_space_counts_nothing()
    ensures
        forall|c: char| !is_ws(c) ==> #[trigger] count_in(seq![' '], c) == 0,
{
    assert forall|c: char| !is_ws(c) implies #[trigger] count_in(seq![' '], c) == 0 by {
        lemma_count_single(' ', c);
    }
}

/// Whether a child rendering already begins with whitespace, so that the
/// operand-operator join adds no space of its own before it.
pub open spec fn starts_unspaced(rs: Seq<Inst>) -> bool {
    rs.len() == 0 || !(rs[0] matches Inst::Space || rs[0] matches Inst::Newline)
}

/// The sibling lists one operand-operator child contributes: a single-char
/// symbol becomes an unbreakable delimiter with a leading space (none for
/// the colon, and none in first position), a longer symbol literal text
/// with the same spacing, and any other child its own rendering, preceded by
/// a lone space unless that rendering already begins with whitespace.
pub open spec fn binop_child_sibs(child: Node, d: Seq<char>, first: bool) -> Seq<Seq<Inst>>
    decreases child, child.children@.len() as int + 2,
{
    if (child.kind matches Kind::Symbol) {
        if child.end == child.start + 1 {
            let c0 = d[child.start as int];
            if c0 != ':' && !first {
                seq![seq![Inst::Space, Inst::Delimiter(c0, false)]]
            } else {
                seq![seq![Inst::Delimiter(c0, false)]]
            }
        } else {
            let t = Inst::Text(d.subrange(child.start as int, child.end as int));
            if !first {
                seq![seq![Inst::Space, t]]
            } else {
                seq![seq![t]]
            }
        }
    } else {
        let rs = node_spec(child, d);
        if !first && starts_unspaced(rs) {
            seq![seq![Inst::Space], rs]
        } else {
            seq![rs]
        }
    }
}

/// The rendered sibling lists of the first `k` children of an
/// operand-operator chain.
pub open spec fn binop_sibs(n: Node, d: Seq<char>, k: int) -> Seq<Seq<Inst>>
    decreases n, k,
{
    if k <= 0 || k > n.children@.len() {
        Seq::empty()
    } else {
        binop_sibs(n, d, k - 1) + binop_child_sibs(n.children@[k - 1], d, k - 1 == 0)
    }
}

/// The rendered sibling lists of the first `k` children of a
/// comma-delimited sequence: each child over exactly its own span.
pub open spec fn plain_sibs(n: Node, d: Seq<char>, k: int) -> Seq<Seq<Inst>>
    decreases n, k,
{
    if k <= 0 || k > n.children@.len() {
        Seq::empty()
    } else {
        plain_sibs(n, d, k - 1).push(node_spec(n.children@[k - 1], d))
    }
}

/// The rendered sibling lists of the first `k` children of a generic group
/// or a container: each child over the window reaching back to its previous
/// sibling's end, so the raw gap between siblings is normalized and kept.
/// In a container the bracket-supplying children contribute no list.
pub open spec fn windowed_sibs(n: Node, d: Seq<char>, k: int) -> Seq<Seq<Inst>>
    decreases n, k,
{
    if k <= 0 || k > n.children@.len() {
        Seq::empty()
    } else {
        let rest = windowed_sibs(n, d, k - 1);
        let child = n.children@[k - 1];
        if (child.role matches Role::General) {
            rest.push(
                render_spec(
                    child,
                    d,
                    walked_to(n.children@, k - 1, n.start as int),
                    child.end as int,
                ),
            )
        } else {
            rest
        }
    }
}

/// The opening bracket character of a container: supplied by a first child
/// with the opening role, a plain space otherwise.
pub open spec fn container_open(n: Node, d: Seq<char>) -> char {
    let ch = n.children@;
    if ch.len() > 0 && (ch[0].role matches Role::Open) {
        d[ch[0].start as int]
    } else {
        ' '
    }
}

/// The closing bracket character of a container: supplied by a last child
/// with the closing role, a plain space otherwise.
pub open spec fn container_close(n: Node, d: Seq<char>) -> char {
    let ch = n.children@;
    if ch.len() > 0 && (ch[ch.len() - 1].role matches Role::Close) {
        d[ch[ch.len() - 1].start as int]
    } else {
        ' '
    }
}

/// What the renderer produces for the node's own span: the exact dispatch
/// on the node's kind.  A single-character symbol is the one unbreakable
/// delimiter; the comma production is the one breakable delimiter the whole
/// engine ever emits; verbatim leaves go through the whitespace normalizer;
/// the branch kinds render their children and join them through the
/// sequence layout, a container additionally through the container layout.
pub open spec fn node_spec(n: Node, d: Seq<char>) -> Seq<Inst>
    decreases n, n.children@.len() as int + 1,
{
    match n.kind {
        Kind::Symbol => if n.end == n.start + 1 {
            seq![Inst::Delimiter(d[n.start as int], false)]
        } else {
            seq![Inst::Text(d.subrange(n.start as int, n.end as int))]
        },
        Kind::Text | Kind::Time => minimize_spec(d.subrange(n.start as int, n.end as int)),
        Kind::Comma => seq![Inst::Delimiter(',', true)],
        Kind::BinaryOp => format_seq_spec(binop_sibs(n, d, n.children@.len() as int)),
        Kind::CommaSeq => format_seq_spec(plain_sibs(n, d, n.children@.len() as int)),
        Kind::Group => format_seq_spec(windowed_sibs(n, d, n.children@.len() as int)),
        Kind::Container => container_spec(
            container_open(n, d),
            container_close(n, d),
            format_seq_spec(windowed_sibs(n, d, n.children@.len() as int)),
        ),
    }
}

/// What the renderer produces for a node over the window `[from, to)`: the
/// normalized gap before the node's span, the node's own rendering, and the
/// normalized gap after it.
pub open spec fn render_spec(n: Node, d: Seq<char>, from: int, to: int) -> Seq<Inst>
    decreases n, n.children@.len() as int + 2,
{
    minimize_spec(d.subrange(from, n.start as int)) + node_spec(n, d) + minimize_spec(
        d.subrange(n.end as int, to),
    )
}


/// [`walked_to`] over mathematical nodes.
pub open spec fn gwalked_to(ch: Seq<GNode>, k: int, s: int) -> int {
    if k == 0 {
        s
    } else {
        ch[k - 1].end
    }
}

/// [`binop_child_sibs`] over a mathematical node.
pub open spec fn gbinop_child_sibs(child: GNode, d: Seq<char>, first: bool) -> Seq<Seq<Inst>>
    decreases child, child.children.len() as int + 2,
{
    if (child.kind matches Kind::Symbol) {
        if child.end == child.start + 1 {
            let c0 = d[child.start];
            if c0 != ':' && !first {
                seq![seq![Inst::Space, Inst::Delimiter(c0, false)]]
            } else {
                seq![seq![Inst::Delimiter(c0, false)]]
            }
        } else {
            let t = Inst::Text(d.subrange(child.start, child.end));
            if !first {
                seq![seq![Inst::Space, t]]
            } else {
                seq![seq![t]]
            }
        }
    } else {
        let rs = gnode_spec(child, d);
        if !first && starts_unspaced(rs) {
            seq![seq![Inst::Space], rs]
        } else {
            seq![rs]
        }
    }
}

/// [`binop_sibs`] over a mathematical node.
pub open spec fn gbinop_sibs(n: GNode, d: Seq<char>, k: int) -> Seq<Seq<Inst>>
    decreases n, k,
{
    if k <= 0 || k > n.children.len() {
        Seq::empty()
    } else {
        gbinop_sibs(n, d, k - 1) + gbinop_child_sibs(n.children[k - 1], d, k - 1 == 0)
    }
}

/// [`plain_sibs`] over a mathematical node.
pub open spec fn gplain_sibs(n: GNode, d: Seq<char>, k: int) -> Seq<Seq<Inst>>
    decreases n, k,
{
    if k <= 0 || k > n.children.len() {
        Seq::empty()
    } else {
        gplain_sibs(n, d, k - 1).push(gnode_spec(n.children[k - 1], d))
    }
}

/// [`windowed_sibs`] over a mathematical node.
pub open spec fn gwindowed_sibs(n: GNode, d: Seq<char>, k: int) -> Seq<Seq<Inst>>
    decreases n, k,
{
    if k <= 0 || k > n.children.len() {
        Seq::empty()
    } else {
        let rest = gwindowed_sibs(n, d, k - 1);
        let child = n.children[k - 1];
        if (child.role matches Role::General) {
            rest.push(grender_spec(child, d, gwalked_to(n.children, k - 1, n.start), child.end))
        } else {
            rest
        }
    }
}

/// [`container_open`] over a mathematical node.
pub open spec fn gcontainer_open(n: GNode, d: Seq<char>) -> char {
    let ch = n.children;
    if ch.len() > 0 && (ch[0].role matches Role::Open) {
        d[ch[0].start]
    } else {
        ' '
    }
}

/// [`container_close`] over a mathematical node.
pub open spec fn gcontainer_close(n: GNode, d: Seq<char>) -> char {
    let ch = n.children;
    if ch.len() > 0 && (ch[ch.len() - 1].role matches Role::Close) {
        d[ch[ch.len() - 1].start]
    } else {
        ' '
    }
}

/// [`node_spec`] over a mathematical node.
pub open spec fn gnode_spec(n: GNode, d: Seq<char>) -> Seq<Inst>
    decreases n, n.children.len() as int + 1,
{
    match n.kind {
        Kind::Symbol => if n.end == n.start + 1 {
            seq![Inst::Delimiter(d[n.start], false)]
        } else {
            seq![Inst::Text(d.subrange(n.start, n.end))]
        },
        Kind::Text | Kind::Time => minimize_spec(d.subrange(n.start, n.end)),
        Kind::Comma => seq![Inst::Delimiter(',', true)],
        Kind::BinaryOp => format_seq_spec(gbinop_sibs(n, d, n.children.len() as int)),
        Kind::CommaSeq => format_seq_spec(gplain_sibs(n, d, n.children.len() as int)),
        Kind::Group => format_seq_spec(gwindowed_sibs(n, d, n.children.len() as int)),
        Kind::Container => container_spec(
            gcontainer_open(n, d),
            gcontainer_close(n, d),
            format_seq_spec(gwindowed_sibs(n, d, n.children.len() as int)),
        ),
    }
}

/// [`render_spec`] over a mathematical node: the form the parser's
/// mathematical tree renders to.
pub open spec fn grender_spec(n: GNode, d: Seq<char>, from: int, to: int) -> Seq<Inst>
    decreases n, n.children.len() as int + 2,
{
    minimize_spec(d.subrange(from, n.start)) + gnode_spec(n, d) + minimize_spec(
        d.subrange(n.end, to),
    )
}

pub proof fn lemma_gbinop_child_eq(child: Node, d: Seq<char>, first: bool)
    ensures
        binop_child_sibs(child, d, first) == gbinop_child_sibs(gview(child), d, first),
    decreases child, child.children@.len() as int + 2,
{
    if !(child.kind matches Kind::Symbol) {
        lemma_gnode_eq(child, d);
    }
}

pub proof fn lemma_gbinop_sibs_eq(n: Node, d: Seq<char>, k: int)
    ensures
        binop_sibs(n, d, k) == gbinop_sibs(gview(n), d, k),
    decreases n, k,
{
    lemma_gview_children(n);
    if 0 < k <= n.children@.len() {
        lemma_gbinop_sibs_eq(n, d, k - 1);
        lemma_gbinop_child_eq(n.children@[k - 1], d, k - 1 == 0);
        assert(gview(n).children[k - 1] == gview(n.children@[k - 1]));
    }
}

pub proof fn lemma_gplain_sibs_eq(n: Node, d: Seq<char>, k: int)
    ensures
        plain_sibs(n, d, k) == gplain_sibs(gview(n), d, k),
    decreases n, k,
{
    lemma_gview_children(n);
    if 0 < k <= n.children@.len() {
        lemma_gplain_sibs_eq(n, d, k - 1);
        lemma_gnode_eq(n.children@[k - 1], d);
        assert(gview(n).children[k - 1] == gview(n.children@[k - 1]));
    }
}

pub proof fn lemma_gwindowed_sibs_eq(n: Node, d: Seq<char>, k: int)
    ensures
        windowed_sibs(n, d, k) == gwindowed_sibs(gview(n), d, k),
    decreases n, k,
{
    lemma_gview_children(n);
    if 0 < k <= n.children@.len() {
        lemma_gwindowed_sibs_eq(n, d, k - 1);
        lemma_grender_eq(
            n.children@[k - 1],
            d,
            walked_to(n.children@, k - 1, n.start as int),
            n.children@[k - 1].end as int,
        );
        assert(gview(n).children[k - 1] == gview(n.children@[k - 1]));
        if k - 1 > 0 {
            assert(gview(n).children[k - 2] == gview(n.children@[k - 2]));
        }
        assert(gwalked_to(gview(n).children, k - 1, gview(n).start) == walked_to(
            n.children@,
            k - 1,
            n.start as int,
        ));
    }
}

/// The renderer's dispatch is the same over a node and its mathematical
/// form.
pub proof fn lemma_gnode_eq(n: Node, d: Seq<char>)
    ensures
        node_spec(n, d) == gnode_spec(gview(n), d),
    decreases n, n.children@.len() as int + 1,
{
    lemma_gview_children(n);
    match n.kind {
        Kind::BinaryOp => {
            lemma_gbinop_sibs_eq(n, d, n.children@.len() as int);
        },
        Kind::CommaSeq => {
            lemma_gplain_sibs_eq(n, d, n.children@.len() as int);
        },
        Kind::Group => {
            lemma_gwindowed_sibs_eq(n, d, n.children@.len() as int);
        },
        Kind::Container => {
            lemma_gwindowed_sibs_eq(n, d, n.children@.len() as int);
            if n.children@.len() > 0 {
                assert(gview(n).children[0] == gview(n.children@[0]));
                assert(gview(n).children[n.children@.len() - 1] == gview(
                    n.children@[n.children@.len() - 1],
                ));
            }
            assert(gcontainer_open(gview(n), d) == container_open(n, d));
            assert(gcontainer_close(gview(n), d) == container_close(n, d));
        },
        _ => {},
    }
}

/// The rendering of a window is the same over a node and its mathematical
/// form.
pub proof fn lemma_grender_eq(n: Node, d: Seq<char>, from: int, to: int)
    ensures
        render_spec(n, d, from, to) == grender_spec(gview(n), d, from, to),
    decreases n, n.children@.len() as int + 2,
{
    lemma_gnode_eq(n, d);
}

/// Over a node's own span the window gaps are empty, so the windowed
/// rendering is the node's own.
pub proof fn lemma_render_tight(n: Node, d: Seq<char>)
    requires
        n.start <= n.end <= d.len(),
    ensures
        render_spec(n, d, n.start as int, n.end as int) == node_spec(n, d),
{
    assert(d.subrange(n.start as int, n.start as int) =~= Seq::<char>::empty());
    assert(d.subrange(n.end as int, n.end as int) =~= Seq::<char>::empty());
    assert(Seq::<Inst>::empty() + node_spec(n, d) + Seq::<Inst>::empty() =~= node_spec(n, d));
}

/// Render `node` over the window `[from, to)` of the chunk text.  The raw
/// gaps between `from`/`to` and the node's own span are normalized and
/// kept, so stray text outside the grammar's productions is never dropped.
///
/// The instructions are exactly [`render_spec`] of the window; in
/// particular every non-whitespace character of the window survives into
/// them exactly as often as the window holds it.
pub fn format_parse_cursor(node: &Node, data: &Vec<char>, from: usize, to: usize) -> (out: Vec<R>)
    requires
        node_wf(*node, data@),
        from <= node.start,
        node.end <= to,
        to <= data@.len(),
    ensures
        deep(out@) == render_spec(*node, data@, from as int, to as int),
        same_nonws(chars_of(deep(out@)), data@.subrange(from as int, to as int)),
        well_nested(deep(out@)),
    decreases *node,
{
    let ghost d = data@;
    let ghost s = node.start as int;
    let ghost e = node.end as int;
    let mut out: Vec<R> = Vec::new();
    proof {
        assert(deep(out@) =~= Seq::<Inst>::empty());
    }
    emit_gap(&mut out, data, from, node.start);
    let ghost g1 = deep(out@);
    proof {
        assert(g1 =~= minimize_spec(d.subrange(from as int, s)));
        lemma_minimize_same(d.subrange(from as int, s));
        lemma_minimize_wn(d.subrange(from as int, s));
        assert(well_nested(g1));
    }
    match node.kind {
        Kind::Symbol => {
            if node.end - node.start == 1 {
                push_inst(&mut out, R::Delimiter(char_at(data, node.start), false));
                proof {
                    assert(deep(out@) == g1.push(Inst::Delimiter(d[s], false)));
                    lemma_wn_push_flat(g1, Inst::Delimiter(d[s], false));
                    lemma_chars_of_push(g1, Inst::Delimiter(d[s], false));
                    assert(chars_of(deep(out@)) == chars_of(g1) + seq![d[s]]);
                    assert(seq![d[s]] =~= d.subrange(s, e));
                    lemma_same_refl(d.subrange(s, e));
                    lemma_same_concat(
                        chars_of(g1),
                        d.subrange(s, e),
                        d.subrange(from as int, s),
                        d.subrange(s, e),
                    );
                    assert(deep(out@) =~= g1 + node_spec(*node, d));
                }
            } else {
                let t = subrange_chars(data, node.start, node.end);
                push_inst(&mut out, R::Text(t));
                proof {
                    assert(deep(out@) == g1.push(Inst::Text(d.subrange(s, e))));
                    lemma_wn_push_flat(g1, Inst::Text(d.subrange(s, e)));
                    lemma_chars_of_push(g1, Inst::Text(d.subrange(s, e)));
                    lemma_same_refl(d.subrange(s, e));
                    lemma_same_concat(
                        chars_of(g1),
                        d.subrange(s, e),
                        d.subrange(from as int, s),
                        d.subrange(s, e),
                    );
                    assert(deep(out@) =~= g1 + node_spec(*node, d));
                }
            }
        },
        Kind::Text | Kind::Time => {
            emit_gap(&mut out, data, node.start, node.end);
            proof {
                lemma_chars_of_concat(g1, minimize_spec(d.subrange(s, e)));
                lemma_minimize_same(d.subrange(s, e));
                lemma_minimize_wn(d.subrange(s, e));
                lemma_wn_concat(g1, minimize_spec(d.subrange(s, e)));
                lemma_same_concat(
                    chars_of(g1),
                    chars_of(minimize_spec(d.subrange(s, e))),
                    d.subrange(from as int, s),
                    d.subrange(s, e),
                );
                assert(deep(out@) =~= g1 + node_spec(*node, d));
            }
        },
        Kind::Comma => {
            push_inst(&mut out, R::Delimiter(',', true));
            proof {
                assert(deep(out@) == g1.push(Inst::Delimiter(',', true)));
                lemma_wn_push_flat(g1, Inst::Delimiter(',', true));
                lemma_chars_of_push(g1, Inst::Delimiter(',', true));
                assert(chars_of(deep(out@)) == chars_of(g1) + seq![',']);
                assert(seq![','] =~= d.subrange(s, e));
                lemma_same_refl(d.subrange(s, e));
                lemma_same_concat(
                    chars_of(g1),
                    d.subrange(s, e),
                    d.subrange(from as int, s),
                    d.subrange(s, e),
                );
                assert(deep(out@) =~= g1 + node_spec(*node, d));
            }
        },
        Kind::BinaryOp => {
            let ghost ch = node.children@;
            let mut formatted: Vec<Vec<R>> = Vec::new();
            let mut k: usize = 0;
            proof {
                assert(deep2(formatted@) =~= Seq::<Seq<Inst>>::empty());
                assert(d.subrange(s, s) =~= Seq::<char>::empty());
                assert(sibs_chars(deep2(formatted@)) == Seq::<char>::empty());
                lemma_same_refl(Seq::<char>::empty());
            }
            while k < node.children.len()
                invariant
                    node_wf(*node, d),
                    d == data@,
                    s == node.start as int,
                    e == node.end as int,
                    node.kind matches Kind::BinaryOp,
                    k <= node.children@.len(),
                    ch == node.children@,
                    deep2(formatted@) == binop_sibs(*node, d, k as int),
                    (formatted@.len() == 0) <==> (k == 0),
                    same_nonws(
                        sibs_chars(deep2(formatted@)),
                        d.subrange(s, walked_to(ch, k as int, s)),
                    ),
                    forall|kk: int|
                        0 <= kk < deep2(formatted@).len() ==> well_nested(
                            #[trigger] deep2(formatted@)[kk],
                        ),
                decreases node.children@.len() - k,
            {
                let ghost prev = walked_to(ch, k as int, s);
                let ghost sibs0 = deep2(formatted@);
                let child = &node.children[k];
                proof {
                    assert(node_wf(ch[k as int], d));
                    lemma_gap_before_child(ch, d, s, e, k as int);
                }
                let ghost gap = d.subrange(prev, ch[k as int].start as int);
                let ghost csl = d.subrange(ch[k as int].start as int, ch[k as int].end as int);
                let ghost nxt = ch[k as int].end as int;
                let is_symbol = match child.kind {
                    Kind::Symbol => true,
                    _ => false,
                };
                if is_symbol && child.end - child.start == 1 {
                    let c0 = char_at(data, child.start);
                    let mut sib: Vec<R> = Vec::new();
                    proof {
                        assert(deep(sib@) =~= Seq::<Inst>::empty());
                    }
                    if c0 != ':' && formatted.len() > 0 {
                        push_inst(&mut sib, R::Space);
                        proof {
                            assert(deep(sib@) =~= seq![Inst::Space]);
                        }
                    }
                    let ghost sib0 = deep(sib@);
                    push_inst(&mut sib, R::Delimiter(c0, false));
                    let ghost sr = deep(sib@);
                    proof {
                        assert(sr == sib0.push(Inst::Delimiter(c0, false)));
                    }
                    proof {
                        assert(seq![c0] =~= csl);
                        lemma_same_refl(csl);
                        if sr.len() == 2 {
                            assert(sib0 =~= seq![Inst::Space]);
                            assert(sr =~= seq![Inst::Space] + seq![Inst::Delimiter(c0, false)]);
                            lemma_chars_of_concat(
                                seq![Inst::Space],
                                seq![Inst::Delimiter(c0, false)],
                            );
                            lemma_chars_of_single(Inst::Space);
                            lemma_chars_of_single(Inst::Delimiter(c0, false));
                            lemma_space_counts_nothing();
                            lemma_same_pad(csl, csl, seq![' ']);
                            lemma_same_sym(csl, seq![' '] + csl);
                            assert(chars_of(sr) == seq![' '] + csl);
                            lemma_same_trans(chars_of(sr), seq![' '] + csl, csl);
                        } else {
                            assert(sib0 =~= Seq::<Inst>::empty());
                            assert(sr =~= seq![Inst::Delimiter(c0, false)]);
                            lemma_chars_of_single(Inst::Delimiter(c0, false));
                        }
                        assert(same_nonws(chars_of(sr), csl));
                    }
                    formatted.push(sib);
                    proof {
                        assert(deep2(formatted@) =~= sibs0.push(sr));
                        lemma_sibs_chars_push(sibs0, sr);
                        assert(well_nested(sib0)) by {
                            if sib0.len() > 0 {
                                assert(sib0 =~= seq![Inst::Space]);
                                lemma_wn_empty();
                                assert(seq![Inst::Space] =~= Seq::<Inst>::empty().push(
                                    Inst::Space,
                                ));
                                lemma_wn_push_flat(Seq::<Inst>::empty(), Inst::Space);
                            } else {
                                assert(sib0 =~= Seq::<Inst>::empty());
                                lemma_wn_empty();
                            }
                        }
                        lemma_wn_push_flat(sib0, Inst::Delimiter(c0, false));
                        lemma_wn_sibs_push(sibs0, deep2(formatted@), sr);
                        lemma_same_pad(chars_of(sr), csl, gap);
                        lemma_same_concat(
                            sibs_chars(sibs0),
                            chars_of(sr),
                            d.subrange(s, prev),
                            gap + csl,
                        );
                        assert(d.subrange(s, nxt) =~= d.subrange(s, prev) + (gap + csl));
                        assert(ch[k as int].end == ch[k as int].start + 1);
                        if c0 != ':' && k > 0 {
                            assert(sr =~= seq![Inst::Space, Inst::Delimiter(c0, false)]);
                        } else {
                            assert(sr =~= seq![Inst::Delimiter(c0, false)]);
                        }
                        assert(binop_child_sibs(ch[k as int], d, k == 0) == seq![sr]);
                        assert(deep2(formatted@) =~= sibs0 + seq![sr]);
                        assert(deep2(formatted@) == binop_sibs(*node, d, k as int + 1));
                    }
                } else if is_symbol {
                    let mut sib: Vec<R> = Vec::new();
                    proof {
                        assert(deep(sib@) =~= Seq::<Inst>::empty());
                    }
                    if formatted.len() > 0 {
                        push_inst(&mut sib, R::Space);
                        proof {
                            assert(deep(sib@) =~= seq![Inst::Space]);
                        }
                    }
                    let ghost sib0 = deep(sib@);
                    let t = subrange_chars(data, child.start, child.end);
                    push_inst(&mut sib, R::Text(t));
                    let ghost sr = deep(sib@);
                    proof {
                        assert(sr == sib0.push(Inst::Text(csl)));
                    }
                    proof {
                        lemma_same_refl(csl);
                        if sr.len() == 2 {
                            assert(sib0 =~= seq![Inst::Space]);
                            assert(sr =~= seq![Inst::Space] + seq![Inst::Text(csl)]);
                            lemma_chars_of_concat(seq![Inst::Space], seq![Inst::Text(csl)]);
                            lemma_chars_of_single(Inst::Space);
                            lemma_chars_of_single(Inst::Text(csl));
                            lemma_space_counts_nothing();
                            lemma_same_pad(csl, csl, seq![' ']);
                            lemma_same_sym(csl, seq![' '] + csl);
                            assert(chars_of(sr) == seq![' '] + csl);
                            lemma_same_trans(chars_of(sr), seq![' '] + csl, csl);
                        } else {
                            assert(sib0 =~= Seq::<Inst>::empty());
                            assert(sr =~= seq![Inst::Text(csl)]);
                            lemma_chars_of_single(Inst::Text(csl));
                        }
                        assert(same_nonws(chars_of(sr), csl));
                    }
                    formatted.push(sib);
                    proof {
                        assert(deep2(formatted@) =~= sibs0.push(sr));
                        lemma_sibs_chars_push(sibs0, sr);
                        assert(well_nested(sib0)) by {
                            if sib0.len() > 0 {
                                assert(sib0 =~= seq![Inst::Space]);
                                lemma_wn_empty();
                                assert(seq![Inst::Space] =~= Seq::<Inst>::empty().push(
                                    Inst::Space,
                                ));
                                lemma_wn_push_flat(Seq::<Inst>::empty(), Inst::Space);
                            } else {
                                assert(sib0 =~= Seq::<Inst>::empty());
                                lemma_wn_empty();
                            }
                        }
                        lemma_wn_push_flat(sib0, Inst::Text(csl));
                        lemma_wn_sibs_push(sibs0, deep2(formatted@), sr);
                        lemma_same_pad(chars_of(sr), csl, gap);
                        lemma_same_concat(
                            sibs_chars(sibs0),
                            chars_of(sr),
                            d.subrange(s, prev),
                            gap + csl,
                        );
                        assert(d.subrange(s, nxt) =~= d.subrange(s, prev) + (gap + csl));
                        assert(ch[k as int].end != ch[k as int].start + 1);
                        if k > 0 {
                            assert(sr =~= seq![Inst::Space, Inst::Text(csl)]);
                        } else {
                            assert(sr =~= seq![Inst::Text(csl)]);
                        }
                        assert(binop_child_sibs(ch[k as int], d, k == 0) == seq![sr]);
                        assert(deep2(formatted@) =~= sibs0 + seq![sr]);
                        assert(deep2(formatted@) == binop_sibs(*node, d, k as int + 1));
                    }
                } else {
                    let res = format_parse_cursor(child, data, child.start, child.end);
                    let mut spaced = false;
                    if formatted.len() > 0 {
                        if res.len() == 0 {
                            spaced = true;
                        } else {
                            spaced = match &res[0] {
                                R::Space => false,
                                R::Newline => false,
                                _ => true,
                            };
                        }
                    }
                    let ghost rs = deep(res@);
                    proof {
                        assert(!(ch[k as int].kind matches Kind::Symbol));
                        lemma_render_tight(ch[k as int], d);
                        assert(rs == node_spec(ch[k as int], d));
                        if res@.len() > 0 {
                            assert(rs[0] == res@[0].deep_view());
                        }
                        assert(spaced == (k > 0 && starts_unspaced(rs)));
                    }
                    let ghost withsp: Seq<char> = if spaced {
                        seq![' '] + chars_of(rs)
                    } else {
                        chars_of(rs)
                    };
                    if spaced {
                        let mut sp: Vec<R> = Vec::new();
                        push_inst(&mut sp, R::Space);
                        proof {
                            assert(deep(sp@) =~= seq![Inst::Space]);
                        }
                        let ghost spr = deep(sp@);
                        formatted.push(sp);
                        proof {
                            assert(deep2(formatted@) =~= sibs0.push(spr));
                            lemma_sibs_chars_push(sibs0, spr);
                            lemma_chars_of_single(Inst::Space);
                            lemma_wn_empty();
                            assert(spr =~= Seq::<Inst>::empty().push(Inst::Space));
                            lemma_wn_push_flat(Seq::<Inst>::empty(), Inst::Space);
                            lemma_wn_sibs_push(sibs0, deep2(formatted@), spr);
                        }
                    }
                    let ghost sibs1 = deep2(formatted@);
                    formatted.push(res);
                    proof {
                        assert(deep2(formatted@) =~= sibs1.push(rs));
                        lemma_sibs_chars_push(sibs1, rs);
                        lemma_wn_sibs_push(sibs1, deep2(formatted@), rs);
                        if spaced {
                            assert(sibs_chars(sibs1) == sibs_chars(sibs0) + seq![' ']);
                            assert(sibs_chars(deep2(formatted@)) =~= sibs_chars(sibs0) + (seq![
                                ' ',
                            ] + chars_of(rs)));
                        }
                        assert(sibs_chars(deep2(formatted@)) =~= sibs_chars(sibs0) + withsp);
                        // The child rendering matches its slice; a space and
                        // the gap add nothing meaningful.
                        assert(same_nonws(chars_of(rs), csl));
                        if spaced {
                            lemma_space_counts_nothing();
                            lemma_same_sym(chars_of(rs), csl);
                            lemma_same_pad(csl, chars_of(rs), seq![' ']);
                            lemma_same_sym(csl, seq![' '] + chars_of(rs));
                        }
                        assert(same_nonws(withsp, csl));
                        lemma_same_pad(withsp, csl, gap);
                        lemma_same_concat(
                            sibs_chars(sibs0),
                            withsp,
                            d.subrange(s, prev),
                            gap + csl,
                        );
                        assert(d.subrange(s, nxt) =~= d.subrange(s, prev) + (gap + csl));
                        if spaced {
                            assert(deep2(formatted@) =~= sibs0 + seq![seq![Inst::Space], rs]);
                            assert(binop_child_sibs(ch[k as int], d, k == 0) == seq![
                                seq![Inst::Space],
                                rs,
                            ]);
                        } else {
                            assert(deep2(formatted@) =~= sibs0 + seq![rs]);
                            assert(binop_child_sibs(ch[k as int], d, k == 0) == seq![rs]);
                        }
                        assert(deep2(formatted@) == binop_sibs(*node, d, k as int + 1));
                    }
                }
                k = k + 1;
            }
            let ghost fsibs = deep2(formatted@);
            format_seq(formatted, &mut out);
            proof {
                let last = walked_to(ch, ch.len() as int, s);
                lemma_gap_after_children(ch, d, s, e);
                lemma_join_same(fsibs, inline_choice(fsibs));
                lemma_same_trans(
                    chars_of(format_seq_spec(fsibs)),
                    sibs_chars(fsibs),
                    d.subrange(s, last),
                );
                lemma_same_pad(
                    chars_of(format_seq_spec(fsibs)),
                    d.subrange(s, last),
                    d.subrange(last, e),
                );
                assert(d.subrange(s, last) + d.subrange(last, e) =~= d.subrange(s, e));
                lemma_chars_of_concat(g1, format_seq_spec(fsibs));
                lemma_same_concat(
                    chars_of(g1),
                    chars_of(format_seq_spec(fsibs)),
                    d.subrange(from as int, s),
                    d.subrange(s, e),
                );
                lemma_join_wn(fsibs, inline_choice(fsibs));
                lemma_wn_concat(g1, format_seq_spec(fsibs));
                assert(fsibs == binop_sibs(*node, d, node.children@.len() as int));
                assert(deep(out@) =~= g1 + node_spec(*node, d));
            }
        },
        Kind::CommaSeq => {
            let ghost ch = node.children@;
            let mut formatted: Vec<Vec<R>> = Vec::new();
            let mut k: usize = 0;
            proof {
                assert(deep2(formatted@) =~= Seq::<Seq<Inst>>::empty());
                assert(d.subrange(s, s) =~= Seq::<char>::empty());
                assert(sibs_chars(deep2(formatted@)) == Seq::<char>::empty());
                lemma_same_refl(Seq::<char>::empty());
            }
            while k < node.children.len()
                invariant
                    node_wf(*node, d),
                    d == data@,
                    s == node.start as int,
                    e == node.end as int,
                    node.kind matches Kind::CommaSeq,
                    k <= node.children@.len(),
                    ch == node.children@,
                    deep2(formatted@) == plain_sibs(*node, d, k as int),
                    same_nonws(
                        sibs_chars(deep2(formatted@)),
                        d.subrange(s, walked_to(ch, k as int, s)),
                    ),
                    forall|kk: int|
                        0 <= kk < deep2(formatted@).len() ==> well_nested(
                            #[trigger] deep2(formatted@)[kk],
                        ),
                decreases node.children@.len() - k,
            {
                let ghost prev = walked_to(ch, k as int, s);
                let ghost sibs0 = deep2(formatted@);
                let child = &node.children[k];
                proof {
                    assert(node_wf(ch[k as int], d));
                    lemma_gap_before_child(ch, d, s, e, k as int);
                }
                let ghost gap = d.subrange(prev, ch[k as int].start as int);
                let ghost csl = d.subrange(ch[k as int].start as int, ch[k as int].end as int);
                let ghost nxt = ch[k as int].end as int;
                let res = format_parse_cursor(child, data, child.start, child.end);
                let ghost rs = deep(res@);
                formatted.push(res);
                proof {
                    assert(deep2(formatted@) =~= sibs0.push(rs));
                    lemma_render_tight(ch[k as int], d);
                    assert(rs == node_spec(ch[k as int], d));
                    assert(deep2(formatted@) == plain_sibs(*node, d, k as int + 1));
                    lemma_sibs_chars_push(sibs0, rs);
                    lemma_wn_sibs_push(sibs0, deep2(formatted@), rs);
                    assert(same_nonws(chars_of(rs), csl));
                    lemma_same_pad(chars_of(rs), csl, gap);
                    lemma_same_concat(
                        sibs_chars(sibs0),
                        chars_of(rs),
                        d.subrange(s, prev),
                        gap + csl,
                    );
                    assert(d.subrange(s, nxt) =~= d.subrange(s, prev) + (gap + csl));
                }
                k = k + 1;
            }
            let ghost fsibs = deep2(formatted@);
            format_seq(formatted, &mut out);
            proof {
                let last = walked_to(ch, ch.len() as int, s);
                lemma_gap_after_children(ch, d, s, e);
                lemma_join_same(fsibs, inline_choice(fsibs));
                lemma_same_trans(
                    chars_of(format_seq_spec(fsibs)),
                    sibs_chars(fsibs),
                    d.subrange(s, last),
                );
                lemma_same_pad(
                    chars_of(format_seq_spec(fsibs)),
                    d.subrange(s, last),
                    d.subrange(last, e),
                );
                assert(d.subrange(s, last) + d.subrange(last, e) =~= d.subrange(s, e));
                lemma_chars_of_concat(g1, format_seq_spec(fsibs));
                lemma_same_concat(
                    chars_of(g1),
                    chars_of(format_seq_spec(fsibs)),
                    d.subrange(from as int, s),
                    d.subrange(s, e),
                );
                lemma_join_wn(fsibs, inline_choice(fsibs));
                lemma_wn_concat(g1, format_seq_spec(fsibs));
                assert(fsibs == plain_sibs(*node, d, node.children@.len() as int));
                assert(deep(out@) =~= g1 + node_spec(*node, d));
            }
        },
        Kind::Group => {
            let ghost ch = node.children@;
            let mut formatted: Vec<Vec<R>> = Vec::new();
            let mut seqpos: usize = node.start;
            let mut k: usize = 0;
            proof {
                assert(deep2(formatted@) =~= Seq::<Seq<Inst>>::empty());
                assert(d.subrange(s, s) =~= Seq::<char>::empty());
                assert(sibs_chars(deep2(formatted@)) == Seq::<char>::empty());
                lemma_same_refl(Seq::<char>::empty());
            }
            while k < node.children.len()
                invariant
                    node_wf(*node, d),
                    d == data@,
                    s == node.start as int,
                    e == node.end as int,
                    node.kind matches Kind::Group,
                    k <= node.children@.len(),
                    ch == node.children@,
                    seqpos as int == walked_to(ch, k as int, s),
                    deep2(formatted@) == windowed_sibs(*node, d, k as int),
                    same_nonws(
                        sibs_chars(deep2(formatted@)),
                        d.subrange(s, walked_to(ch, k as int, s)),
                    ),
                    forall|kk: int|
                        0 <= kk < deep2(formatted@).len() ==> well_nested(
                            #[trigger] deep2(formatted@)[kk],
                        ),
                decreases node.children@.len() - k,
            {
                let ghost prev = walked_to(ch, k as int, s);
                let ghost sibs0 = deep2(formatted@);
                let child = &node.children[k];
                proof {
                    assert(node_wf(ch[k as int], d));
                    lemma_gap_before_child(ch, d, s, e, k as int);
                }
                let ghost nxt = ch[k as int].end as int;
                let res = format_parse_cursor(child, data, seqpos, child.end);
                let ghost rs = deep(res@);
                formatted.push(res);
                seqpos = child.end;
                proof {
                    assert(deep2(formatted@) =~= sibs0.push(rs));
                    assert(ch[k as int].role matches Role::General);
                    assert(rs == render_spec(ch[k as int], d, prev, nxt));
                    assert(deep2(formatted@) == windowed_sibs(*node, d, k as int + 1));
                    lemma_sibs_chars_push(sibs0, rs);
                    lemma_wn_sibs_push(sibs0, deep2(formatted@), rs);
                    assert(same_nonws(chars_of(rs), d.subrange(prev, nxt)));
                    lemma_same_concat(
                        sibs_chars(sibs0),
                        chars_of(rs),
                        d.subrange(s, prev),
                        d.subrange(prev, nxt),
                    );
                    assert(d.subrange(s, nxt) =~= d.subrange(s, prev) + d.subrange(prev, nxt));
                }
                k = k + 1;
            }
            let ghost fsibs = deep2(formatted@);
            format_seq(formatted, &mut out);
            proof {
                let last = walked_to(ch, ch.len() as int, s);
                lemma_gap_after_children(ch, d, s, e);
                lemma_join_same(fsibs, inline_choice(fsibs));
                lemma_same_trans(
                    chars_of(format_seq_spec(fsibs)),
                    sibs_chars(fsibs),
                    d.subrange(s, last),
                );
                lemma_same_pad(
                    chars_of(format_seq_spec(fsibs)),
                    d.subrange(s, last),
                    d.subrange(last, e),
                );
                assert(d.subrange(s, last) + d.subrange(last, e) =~= d.subrange(s, e));
                lemma_chars_of_concat(g1, format_seq_spec(fsibs));
                lemma_same_concat(
                    chars_of(g1),
                    chars_of(format_seq_spec(fsibs)),
                    d.subrange(from as int, s),
                    d.subrange(s, e),
                );
                lemma_join_wn(fsibs, inline_choice(fsibs));
                lemma_wn_concat(g1, format_seq_spec(fsibs));
                assert(fsibs == windowed_sibs(*node, d, node.children@.len() as int));
                assert(deep(out@) =~= g1 + node_spec(*node, d));
            }
        },
        Kind::Container => {
            let ghost ch = node.children@;
            let mut formatted: Vec<Vec<R>> = Vec::new();
            let mut open: char = ' ';
            let mut close: char = ' ';
            let ghost mut openc: Seq<char> = Seq::empty();
            let ghost mut closec: Seq<char> = Seq::empty();
            let mut seqpos: usize = node.start;
            let mut k: usize = 0;
            proof {
                assert(deep2(formatted@) =~= Seq::<Seq<Inst>>::empty());
                assert(d.subrange(s, s) =~= Seq::<char>::empty());
                assert(sibs_chars(deep2(formatted@)) == Seq::<char>::empty());
                assert(openc + sibs_chars(deep2(formatted@)) + closec =~= Seq::<char>::empty());
                lemma_same_refl(Seq::<char>::empty());
            }
            while k < node.children.len()
                invariant
                    node_wf(*node, d),
                    d == data@,
                    s == node.start as int,
                    e == node.end as int,
                    node.kind matches Kind::Container,
                    k <= node.children@.len(),
                    ch == node.children@,
                    seqpos as int == walked_to(ch, k as int, s),
                    deep2(formatted@) == windowed_sibs(*node, d, k as int),
                    (openc == Seq::<char>::empty() && open == ' ') || openc == seq![open],
                    (closec == Seq::<char>::empty() && close == ' ') || closec == seq![close],
                    k == 0 ==> openc == Seq::<char>::empty() && open == ' ',
                    k == 0 ==> closec == Seq::<char>::empty() && close == ' ',
                    k > 0 ==> open == container_open(*node, d),
                    k < node.children@.len() ==> closec == Seq::<char>::empty() && close == ' ',
                    k == node.children@.len() && node.children@.len() > 0 ==> close
                        == container_close(*node, d),
                    same_nonws(
                        openc + sibs_chars(deep2(formatted@)) + closec,
                        d.subrange(s, walked_to(ch, k as int, s)),
                    ),
                    forall|kk: int|
                        0 <= kk < deep2(formatted@).len() ==> well_nested(
                            #[trigger] deep2(formatted@)[kk],
                        ),
                decreases node.children@.len() - k,
            {
                let ghost prev = walked_to(ch, k as int, s);
                let ghost sibs0 = deep2(formatted@);
                let child = &node.children[k];
                proof {
                    assert(node_wf(ch[k as int], d));
                    assert(role_wf(ch[k as int], k as int, ch.len() as int));
                    lemma_gap_before_child(ch, d, s, e, k as int);
                }
                let ghost gap = d.subrange(prev, ch[k as int].start as int);
                let ghost nxt = ch[k as int].end as int;
                match child.role {
                    Role::Open => {
                        open = char_at(data, child.start);
                        proof {
                            openc = seq![open];
                            assert(k == 0);
                            assert(prev == s);
                            assert(sibs0 =~= Seq::<Seq<Inst>>::empty());
                            assert(openc + sibs_chars(sibs0) + closec =~= seq![open]);
                            assert(d.subrange(ch[k as int].start as int, nxt) =~= seq![open]);
                            lemma_same_refl(seq![open]);
                            lemma_same_pad(seq![open], seq![open], gap);
                            assert(d.subrange(s, nxt) =~= gap + seq![open]);
                            assert(windowed_sibs(*node, d, k as int + 1) == windowed_sibs(
                                *node,
                                d,
                                k as int,
                            ));
                            assert(open == container_open(*node, d));
                            if k as int + 1 == ch.len() {
                                assert(container_close(*node, d) == ' ');
                            }
                        }
                    },
                    Role::Close => {
                        close = char_at(data, child.start);
                        proof {
                            closec = seq![close];
                            assert(d.subrange(ch[k as int].start as int, nxt) =~= seq![close]);
                            lemma_same_refl(seq![close]);
                            lemma_same_pad(seq![close], seq![close], gap);
                            assert(openc + sibs_chars(sibs0) + Seq::<char>::empty() =~= openc
                                + sibs_chars(sibs0));
                            lemma_same_concat(
                                openc + sibs_chars(sibs0),
                                seq![close],
                                d.subrange(s, prev),
                                gap + seq![close],
                            );
                            assert(openc + sibs_chars(sibs0) + closec =~= (openc + sibs_chars(
                                sibs0,
                            )) + seq![close]);
                            assert(d.subrange(s, nxt) =~= d.subrange(s, prev) + (gap + seq![
                                close,
                            ]));
                            assert(windowed_sibs(*node, d, k as int + 1) == windowed_sibs(
                                *node,
                                d,
                                k as int,
                            ));
                            assert(k as int + 1 == ch.len());
                            assert(ch[k as int].role matches Role::Close);
                            assert(ch.len() - 1 == k as int);
                            assert(ch[ch.len() - 1].role matches Role::Close);
                            assert(close == d[ch[k as int].start as int]);
                            assert(close == container_close(*node, d));
                            if k == 0 {
                                assert(container_open(*node, d) == ' ');
                            }
                        }
                    },
                    Role::General => {
                        let res = format_parse_cursor(child, data, seqpos, child.end);
                        let ghost rs = deep(res@);
                        formatted.push(res);
                        proof {
                            assert(deep2(formatted@) =~= sibs0.push(rs));
                            assert(rs == render_spec(ch[k as int], d, prev, nxt));
                            assert(deep2(formatted@) == windowed_sibs(*node, d, k as int + 1));
                            lemma_sibs_chars_push(sibs0, rs);
                            lemma_wn_sibs_push(sibs0, deep2(formatted@), rs);
                            assert(same_nonws(chars_of(rs), d.subrange(prev, nxt)));
                            assert(openc + sibs_chars(sibs0) + Seq::<char>::empty() =~= openc
                                + sibs_chars(sibs0));
                            lemma_same_concat(
                                openc + sibs_chars(sibs0),
                                chars_of(rs),
                                d.subrange(s, prev),
                                d.subrange(prev, nxt),
                            );
                            assert(openc + sibs_chars(deep2(formatted@)) + closec =~= (openc
                                + sibs_chars(sibs0)) + chars_of(rs));
                            assert(d.subrange(s, nxt) =~= d.subrange(s, prev) + d.subrange(
                                prev,
                                nxt,
                            ));
                            if k == 0 {
                                assert(container_open(*node, d) == ' ');
                            }
                            if k as int + 1 == ch.len() {
                                assert(container_close(*node, d) == ' ');
                            }
                        }
                    },
                }
                seqpos = child.end;
                k = k + 1;
            }
            let ghost fsibs = deep2(formatted@);
            let mut e_insts: Vec<R> = Vec::new();
            format_seq(formatted, &mut e_insts);
            let ghost einner = deep(e_insts@);
            proof {
                assert(einner =~= Seq::<Inst>::empty() + format_seq_spec(fsibs));
                assert(einner =~= format_seq_spec(fsibs));
            }
            format_container(open, close, e_insts, &mut out);
            proof {
                let last = walked_to(ch, ch.len() as int, s);
                lemma_gap_after_children(ch, d, s, e);
                lemma_join_same(fsibs, inline_choice(fsibs));
                lemma_container_same(open, close, einner);
                let body = chars_of(container_spec(open, close, einner));
                assert forall|c: char| !is_ws(c) implies #[trigger] count_in(body, c) == count_in(
                    d.subrange(s, e),
                    c,
                ) by {
                    crate::chars::lemma_count_concat(seq![open, close], chars_of(einner), c);
                    assert(seq![open, close] =~= seq![open] + seq![close]);
                    crate::chars::lemma_count_concat(seq![open], seq![close], c);
                    lemma_count_single(open, c);
                    lemma_count_single(close, c);
                    crate::chars::lemma_count_concat(
                        openc + sibs_chars(fsibs),
                        closec,
                        c,
                    );
                    crate::chars::lemma_count_concat(openc, sibs_chars(fsibs), c);
                    if openc.len() > 0 {
                        crate::chars::lemma_count_single(openc[0], c);
                        assert(openc =~= seq![openc[0]]);
                    }
                    if closec.len() > 0 {
                        crate::chars::lemma_count_single(closec[0], c);
                        assert(closec =~= seq![closec[0]]);
                    }
                    assert(count_in(seq![open], c) == count_in(openc, c));
                    assert(count_in(seq![close], c) == count_in(closec, c));
                    assert(count_in(chars_of(einner), c) == count_in(sibs_chars(fsibs), c));
                    assert(count_in(openc + sibs_chars(fsibs) + closec, c) == count_in(
                        d.subrange(s, last),
                        c,
                    ));
                    crate::chars::lemma_count_concat(d.subrange(s, last), d.subrange(last, e), c);
                    assert(d.subrange(s, last) + d.subrange(last, e) =~= d.subrange(s, e));
                }
                lemma_chars_of_concat(g1, container_spec(open, close, einner));
                lemma_same_concat(
                    chars_of(g1),
                    body,
                    d.subrange(from as int, s),
                    d.subrange(s, e),
                );
                lemma_join_wn(fsibs, inline_choice(fsibs));
                assert(well_nested(einner));
                lemma_container_wn(open, close, einner);
                lemma_wn_concat(g1, container_spec(open, close, einner));
                assert(fsibs == windowed_sibs(*node, d, node.children@.len() as int));
                if ch.len() == 0 {
                    assert(container_open(*node, d) == ' ');
                    assert(container_close(*node, d) == ' ');
                }
                assert(open == container_open(*node, d));
                assert(close == container_close(*node, d));
                assert(deep(out@) =~= g1 + node_spec(*node, d));
            }
        },
    }
    proof {
        assert(d.subrange(from as int, s) + d.subrange(s, e) =~= d.subrange(from as int, e));
    }
    let ghost mid = deep(out@);
    emit_gap(&mut out, data, node.end, to);
    proof {
        lemma_chars_of_concat(mid, minimize_spec(d.subrange(e, to as int)));
        lemma_minimize_same(d.subrange(e, to as int));
        lemma_minimize_wn(d.subrange(e, to as int));
        lemma_wn_concat(mid, minimize_spec(d.subrange(e, to as int)));
        lemma_same_concat(
            chars_of(mid),
            chars_of(minimize_spec(d.subrange(e, to as int))),
            d.subrange(from as int, e),
            d.subrange(e, to as int),
        );
        assert(d.subrange(from as int, e) + d.subrange(e, to as int) =~= d.subrange(
            from as int,
            to as int,
        ));
        assert(mid == g1 + node_spec(*node, d));
        assert(deep(out@) =~= render_spec(*node, d, from as int, to as int));
    }
    out
}

} // verus!
