//! The layout deciders: how a list of rendered sibling sequences is joined
//! into one sequence (inline, or broken after each breakable delimiter), and
//! how a container's inner sequence is wrapped in its brackets (compact,
//! padded, or exploded over indented lines).

use vstd::prelude::*;

use crate::chars::{
    count_in, is_ws, lemma_count_concat, lemma_count_single, lemma_same_refl, same_nonws,
};
use crate::inst::{
    chars_of, deep, deep2, depth_of, flat, has_breakable, has_newline, inst_chars,
    is_breakable_inst, is_newline_inst, lemma_chars_of_concat, lemma_chars_of_push,
    lemma_chars_of_single, lemma_deep_concat, lemma_depth_concat, lemma_depth_single,
    lemma_flat_depth, lemma_flat_wn, lemma_total_len_push, lemma_wn_concat, push_inst, total_len,
    well_nested, Inst, R,
};

verus! {

/// The line-width budget: a sibling list whose total measure reaches this
/// many units is broken after each breakable delimiter.
pub const WIDTH_BUDGET: usize = 32;

/// The largest inner measure at which a container still renders compact,
/// with no padding inside its brackets.
pub const COMPACT_BUDGET: usize = 5;

/// `n` capped at the width budget: all the layout decisions need of a total
/// length is where it stands against the budget, so the executable code
/// never sums further than this.
pub open spec fn min_budget(n: nat) -> nat {
    if n < WIDTH_BUDGET as nat {
        n
    } else {
        WIDTH_BUDGET as nat
    }
}

/// The total measure of a list of sibling sequences.
pub open spec fn seqs_total(sibs: Seq<Seq<Inst>>) -> nat
    decreases sibs.len(),
{
    if sibs.len() == 0 {
        0
    } else {
        total_len(sibs[0]) + seqs_total(sibs.drop_first())
    }
}

/// Whether any sibling holds a breakable delimiter.
pub open spec fn seqs_breakable(sibs: Seq<Seq<Inst>>) -> bool {
    exists|i: int| 0 <= i < sibs.len() && has_breakable(#[trigger] sibs[i])
}

/// The sequence layout decision: inline unless a breakable delimiter is
/// present and the total measure reaches the width budget.
pub open spec fn inline_choice(sibs: Seq<Seq<Inst>>) -> bool {
    !seqs_breakable(sibs) || seqs_total(sibs) < WIDTH_BUDGET as nat
}

/// A sibling whose whole rendering is one breakable delimiter: the only
/// place the sequence layout inserts anything.
pub open spec fn lone_breakable(sib: Seq<Inst>) -> bool {
    sib.len() == 1 && is_breakable_inst(sib[0])
}

/// The join of sibling sequences under a fixed layout choice: inline
/// appends one space after each lone breakable delimiter but the last,
/// exploded appends one line break after every lone breakable delimiter.
pub open spec fn seq_join(sibs: Seq<Seq<Inst>>, inline: bool) -> Seq<Inst>
    decreases sibs.len(),
{
    if sibs.len() == 0 {
        Seq::empty()
    } else {
        let sep: Seq<Inst> = if lone_breakable(sibs[0]) && (!inline || sibs.len() > 1) {
            seq![if inline {
                Inst::Space
            } else {
                Inst::Newline
            }]
        } else {
            Seq::empty()
        };
        sibs[0] + sep + seq_join(sibs.drop_first(), inline)
    }
}

/// What the sequence layout produces for a list of rendered siblings.
pub open spec fn format_seq_spec(sibs: Seq<Seq<Inst>>) -> Seq<Inst> {
    seq_join(sibs, inline_choice(sibs))
}

/// The inner sequence of an exploded container with its trailing spaces and
/// line breaks dropped, so that the closing bracket lands directly after the
/// last entry's line.
pub open spec fn strip_trailing(e: Seq<Inst>) -> Seq<Inst>
    decreases e.len(),
{
    if e.len() > 0 && (is_newline_inst(e.last()) || e.last() matches Inst::Space) {
        strip_trailing(e.drop_last())
    } else {
        e
    }
}

/// The container layout decision over the rendered inner sequence `e`:
/// compact below the compact budget, padded below the width budget (both
/// only without a forced line break inside), else exploded one level deeper
/// with the closing bracket dedented onto its own line.
pub open spec fn container_spec(open: char, close: char, e: Seq<Inst>) -> Seq<Inst> {
    if total_len(e) < COMPACT_BUDGET as nat && !has_newline(e) {
        seq![Inst::Char(open)] + e + seq![Inst::Char(close)]
    } else if total_len(e) < WIDTH_BUDGET as nat && !has_newline(e) {
        seq![Inst::Char(open), Inst::Space] + e + seq![Inst::Space, Inst::Char(close)]
    } else {
        seq![Inst::Char(open), Inst::Indent, Inst::Newline] + strip_trailing(e) + seq![
            Inst::Unindent,
            Inst::Newline,
            Inst::Char(close),
        ]
    }
}

/// The characters of a list of sibling sequences, in order.
pub open spec fn sibs_chars(sibs: Seq<Seq<Inst>>) -> Seq<char>
    decreases sibs.len(),
{
    if sibs.len() == 0 {
        Seq::empty()
    } else {
        chars_of(sibs[0]) + sibs_chars(sibs.drop_first())
    }
}

pub proof fn lemma_sibs_chars_push(sibs: Seq<Seq<Inst>>, x: Seq<Inst>)
    ensures
        sibs_chars(sibs.push(x)) == sibs_chars(sibs) + chars_of(x),
    decreases sibs.len(),
{
    if sibs.len() == 0 {
        assert(sibs.push(x).drop_first() =~= Seq::<Seq<Inst>>::empty());
        assert(sibs.push(x)[0] == x);
        assert(sibs_chars(Seq::<Seq<Inst>>::empty()) == Seq::<char>::empty());
        assert(chars_of(x) + Seq::<char>::empty() =~= chars_of(x));
        assert(sibs_chars(sibs) + chars_of(x) =~= chars_of(x));
    } else {
        assert(sibs.push(x).drop_first() =~= sibs.drop_first().push(x));
        lemma_sibs_chars_push(sibs.drop_first(), x);
        assert(chars_of(sibs[0]) + (sibs_chars(sibs.drop_first()) + chars_of(x)) =~= (chars_of(
            sibs[0],
        ) + sibs_chars(sibs.drop_first())) + chars_of(x));
    }
}

/// The join inserts only spaces and line breaks: every non-whitespace
/// character of the siblings comes through exactly as often.
pub proof fn lemma_join_same(sibs: Seq<Seq<Inst>>, inline: bool)
    ensures
        same_nonws(chars_of(seq_join(sibs, inline)), sibs_chars(sibs)),
    decreases sibs.len(),
{
    if sibs.len() == 0 {
        lemma_same_refl(sibs_chars(sibs));
    } else {
        lemma_join_same(sibs.drop_first(), inline);
        let sep: Seq<Inst> = if lone_breakable(sibs[0]) && (!inline || sibs.len() > 1) {
            seq![if inline {
                Inst::Space
            } else {
                Inst::Newline
            }]
        } else {
            Seq::empty()
        };
        let rec = seq_join(sibs.drop_first(), inline);
        lemma_chars_of_concat(sibs[0] + sep, rec);
        lemma_chars_of_concat(sibs[0], sep);
        if sep.len() > 0 {
            lemma_chars_of_single(sep[0]);
            assert(sep =~= seq![sep[0]]);
        }
        assert forall|c: char| !is_ws(c) implies #[trigger] count_in(
            chars_of(seq_join(sibs, inline)),
            c,
        ) == count_in(sibs_chars(sibs), c) by {
            lemma_count_concat(chars_of(sibs[0] + sep), chars_of(rec), c);
            lemma_count_concat(chars_of(sibs[0]), chars_of(sep), c);
            if sep.len() > 0 {
                lemma_count_single(' ', c);
                lemma_count_single('\n', c);
                assert(count_in(chars_of(sep), c) == 0);
            } else {
                assert(chars_of(sep) =~= Seq::<char>::empty());
            }
            lemma_count_concat(chars_of(sibs[0]), sibs_chars(sibs.drop_first()), c);
            assert(sibs_chars(sibs) == chars_of(sibs[0]) + sibs_chars(sibs.drop_first()));
        }
    }
}

/// Dropping trailing spaces and line breaks keeps every non-whitespace
/// character.
pub proof fn lemma_strip_same(e: Seq<Inst>)
    ensures
        same_nonws(chars_of(strip_trailing(e)), chars_of(e)),
    decreases e.len(),
{
    if e.len() > 0 && (is_newline_inst(e.last()) || e.last() matches Inst::Space) {
        lemma_strip_same(e.drop_last());
        assert(e =~= e.drop_last().push(e.last()));
        lemma_chars_of_push(e.drop_last(), e.last());
        assert forall|c: char| !is_ws(c) implies #[trigger] count_in(
            chars_of(strip_trailing(e)),
            c,
        ) == count_in(chars_of(e), c) by {
            lemma_count_concat(chars_of(e.drop_last()), inst_chars(e.last()), c);
            lemma_count_single(' ', c);
            lemma_count_single('\n', c);
            assert(count_in(inst_chars(e.last()), c) == 0);
            assert(count_in(chars_of(strip_trailing(e)), c) == count_in(
                chars_of(strip_trailing(e.drop_last())),
                c,
            ));
        }
    } else {
        lemma_same_refl(chars_of(e));
    }
}

/// The container layout writes exactly its two bracket characters and the
/// meaningful characters of its inner sequence.
pub proof fn lemma_container_same(open: char, close: char, e: Seq<Inst>)
    ensures
        same_nonws(chars_of(container_spec(open, close, e)), seq![open, close] + chars_of(e)),
{
    let res = container_spec(open, close, e);
    lemma_strip_same(e);
    assert forall|c: char| !is_ws(c) implies #[trigger] count_in(chars_of(res), c) == count_in(
        seq![open, close] + chars_of(e),
        c,
    ) by {
        lemma_count_concat(seq![open, close], chars_of(e), c);
        assert(seq![open, close] =~= seq![open] + seq![close]);
        lemma_count_concat(seq![open], seq![close], c);
        lemma_count_single(open, c);
        lemma_count_single(close, c);
        if total_len(e) < COMPACT_BUDGET as nat && !has_newline(e) {
            lemma_chars_of_concat(seq![Inst::Char(open)] + e, seq![Inst::Char(close)]);
            lemma_chars_of_concat(seq![Inst::Char(open)], e);
            lemma_chars_of_single(Inst::Char(open));
            lemma_chars_of_single(Inst::Char(close));
            lemma_count_concat(chars_of(seq![Inst::Char(open)] + e), seq![close], c);
            lemma_count_concat(seq![open], chars_of(e), c);
        } else if total_len(e) < WIDTH_BUDGET as nat && !has_newline(e) {
            let pre = seq![Inst::Char(open), Inst::Space];
            let post = seq![Inst::Space, Inst::Char(close)];
            lemma_chars_of_concat(pre + e, post);
            lemma_chars_of_concat(pre, e);
            assert(pre =~= seq![Inst::Char(open)] + seq![Inst::Space]);
            lemma_chars_of_concat(seq![Inst::Char(open)], seq![Inst::Space]);
            lemma_chars_of_single(Inst::Char(open));
            lemma_chars_of_single(Inst::Space);
            assert(post =~= seq![Inst::Space] + seq![Inst::Char(close)]);
            lemma_chars_of_concat(seq![Inst::Space], seq![Inst::Char(close)]);
            lemma_chars_of_single(Inst::Char(close));
            lemma_count_concat(chars_of(pre + e), chars_of(post), c);
            lemma_count_concat(chars_of(pre), chars_of(e), c);
            lemma_count_concat(seq![open] + seq![' '], Seq::<char>::empty(), c);
            lemma_count_concat(seq![open], seq![' '], c);
            lemma_count_concat(seq![' '], seq![close], c);
            lemma_count_single(' ', c);
            assert(chars_of(pre) =~= seq![open] + seq![' ']);
            assert(chars_of(post) =~= seq![' '] + seq![close]);
        } else {
            let pre = seq![Inst::Char(open), Inst::Indent, Inst::Newline];
            let post = seq![Inst::Unindent, Inst::Newline, Inst::Char(close)];
            let stripped = strip_trailing(e);
            lemma_chars_of_concat(pre + stripped, post);
            lemma_chars_of_concat(pre, stripped);
            assert(pre =~= seq![Inst::Char(open)] + seq![Inst::Indent] + seq![Inst::Newline]);
            lemma_chars_of_concat(seq![Inst::Char(open)] + seq![Inst::Indent], seq![Inst::Newline]);
            lemma_chars_of_concat(seq![Inst::Char(open)], seq![Inst::Indent]);
            lemma_chars_of_single(Inst::Char(open));
            lemma_chars_of_single(Inst::Indent);
            lemma_chars_of_single(Inst::Newline);
            assert(post =~= seq![Inst::Unindent] + seq![Inst::Newline] + seq![Inst::Char(close)]);
            lemma_chars_of_concat(seq![Inst::Unindent] + seq![Inst::Newline], seq![
                Inst::Char(close),
            ]);
            lemma_chars_of_concat(seq![Inst::Unindent], seq![Inst::Newline]);
            lemma_chars_of_single(Inst::Unindent);
            lemma_chars_of_single(Inst::Char(close));
            assert(chars_of(pre) =~= seq![open] + seq!['\n']);
            assert(chars_of(post) =~= seq!['\n'] + seq![close]);
            lemma_count_concat(chars_of(pre + stripped), chars_of(post), c);
            lemma_count_concat(chars_of(pre), chars_of(stripped), c);
            lemma_count_concat(seq![open], seq!['\n'], c);
            lemma_count_concat(seq!['\n'], seq![close], c);
            lemma_count_single('\n', c);
            assert(count_in(chars_of(stripped), c) == count_in(chars_of(e), c));
        }
    }
}

/// The join of well-nested siblings is well nested: the separators it
/// inserts never move the indent level.
pub proof fn lemma_join_wn(sibs: Seq<Seq<Inst>>, inline: bool)
    requires
        forall|k: int| 0 <= k < sibs.len() ==> well_nested(#[trigger] sibs[k]),
    ensures
        well_nested(seq_join(sibs, inline)),
    decreases sibs.len(),
{
    if sibs.len() == 0 {
        assert(flat(seq_join(sibs, inline)));
        lemma_flat_wn(seq_join(sibs, inline));
    } else {
        let sep: Seq<Inst> = if lone_breakable(sibs[0]) && (!inline || sibs.len() > 1) {
            seq![if inline {
                Inst::Space
            } else {
                Inst::Newline
            }]
        } else {
            Seq::empty()
        };
        assert(flat(sep));
        lemma_flat_wn(sep);
        assert(forall|k: int|
            0 <= k < sibs.drop_first().len() ==> #[trigger] sibs.drop_first()[k] == sibs[k + 1]);
        lemma_join_wn(sibs.drop_first(), inline);
        lemma_wn_concat(sibs[0], sep);
        lemma_wn_concat(sibs[0] + sep, seq_join(sibs.drop_first(), inline));
    }
}

/// Appending one more well-nested sibling keeps every sibling well nested.
pub proof fn lemma_wn_sibs_push(sibs0: Seq<Seq<Inst>>, sibs1: Seq<Seq<Inst>>, x: Seq<Inst>)
    requires
        sibs1 == sibs0.push(x),
        forall|k: int| 0 <= k < sibs0.len() ==> well_nested(#[trigger] sibs0[k]),
        well_nested(x),
    ensures
        forall|k: int| 0 <= k < sibs1.len() ==> well_nested(#[trigger] sibs1[k]),
{
    assert forall|k: int| 0 <= k < sibs1.len() implies well_nested(#[trigger] sibs1[k]) by {
        if k < sibs0.len() {
            assert(sibs1[k] == sibs0[k]);
        } else {
            assert(sibs1[k] == x);
        }
    }
}

/// Dropping trailing spaces and line breaks keeps a stream well nested.
pub proof fn lemma_strip_wn(e: Seq<Inst>)
    requires
        well_nested(e),
    ensures
        well_nested(strip_trailing(e)),
    decreases e.len(),
{
    if e.len() > 0 && (is_newline_inst(e.last()) || e.last() matches Inst::Space) {
        assert(e =~= e.drop_last() + seq![e.last()]);
        lemma_depth_concat(e.drop_last(), seq![e.last()]);
        lemma_depth_single(e.last());
        assert(well_nested(e.drop_last())) by {
            assert forall|k: int| 0 <= k <= e.drop_last().len() implies depth_of(
                #[trigger] e.drop_last().take(k),
            ) >= 0 by {
                assert(e.drop_last().take(k) =~= e.take(k));
            }
        }
        lemma_strip_wn(e.drop_last());
    }
}

/// The container layout wraps a well-nested inner stream in one matched
/// `Indent`/`Unindent` pair at most: the result is well nested.
pub proof fn lemma_container_wn(open: char, close: char, e: Seq<Inst>)
    requires
        well_nested(e),
    ensures
        well_nested(container_spec(open, close, e)),
{
    if total_len(e) < COMPACT_BUDGET as nat && !has_newline(e) {
        assert(flat(seq![Inst::Char(open)]));
        lemma_flat_wn(seq![Inst::Char(open)]);
        assert(flat(seq![Inst::Char(close)]));
        lemma_flat_wn(seq![Inst::Char(close)]);
        lemma_wn_concat(seq![Inst::Char(open)], e);
        lemma_wn_concat(seq![Inst::Char(open)] + e, seq![Inst::Char(close)]);
    } else if total_len(e) < WIDTH_BUDGET as nat && !has_newline(e) {
        assert(flat(seq![Inst::Char(open), Inst::Space]));
        lemma_flat_wn(seq![Inst::Char(open), Inst::Space]);
        assert(flat(seq![Inst::Space, Inst::Char(close)]));
        lemma_flat_wn(seq![Inst::Space, Inst::Char(close)]);
        lemma_wn_concat(seq![Inst::Char(open), Inst::Space], e);
        lemma_wn_concat(seq![Inst::Char(open), Inst::Space] + e, seq![
            Inst::Space,
            Inst::Char(close),
        ]);
    } else {
        lemma_strip_wn(e);
        let stripped = strip_trailing(e);
        let pre = seq![Inst::Char(open), Inst::Indent, Inst::Newline];
        let post = seq![Inst::Unindent, Inst::Newline, Inst::Char(close)];
        let whole = pre + stripped + post;
        assert(depth_of(pre) == 1) by {
            assert(pre =~= seq![Inst::Char(open)] + seq![Inst::Indent] + seq![Inst::Newline]);
            lemma_depth_concat(seq![Inst::Char(open)] + seq![Inst::Indent], seq![Inst::Newline]);
            lemma_depth_concat(seq![Inst::Char(open)], seq![Inst::Indent]);
            lemma_depth_single(Inst::Char(open));
            lemma_depth_single(Inst::Indent);
            lemma_depth_single(Inst::Newline);
        }
        assert(depth_of(post) == -1) by {
            assert(post =~= seq![Inst::Unindent] + seq![Inst::Newline] + seq![Inst::Char(close)]);
            lemma_depth_concat(seq![Inst::Unindent] + seq![Inst::Newline], seq![
                Inst::Char(close),
            ]);
            lemma_depth_concat(seq![Inst::Unindent], seq![Inst::Newline]);
            lemma_depth_single(Inst::Unindent);
            lemma_depth_single(Inst::Newline);
            lemma_depth_single(Inst::Char(close));
        }
        assert(depth_of(whole) == 0) by {
            lemma_depth_concat(pre + stripped, post);
            lemma_depth_concat(pre, stripped);
        }
        assert forall|k: int| 0 <= k <= whole.len() implies depth_of(#[trigger] whole.take(k))
            >= 0 by {
            if k <= 1 {
                assert(flat(whole.take(k))) by {
                    assert(forall|j: int|
                        0 <= j < whole.take(k).len() ==> #[trigger] whole.take(k)[j] == whole[j]);
                }
                lemma_flat_depth(whole.take(k));
            } else if k <= 3 + stripped.len() {
                assert(whole.take(k) =~= pre.take(2) + (pre.skip(2) + stripped).take(k - 2));
                lemma_depth_concat(pre.take(2), (pre.skip(2) + stripped).take(k - 2));
                assert(depth_of(pre.take(2)) == 1) by {
                    assert(pre.take(2) =~= seq![Inst::Char(open)] + seq![Inst::Indent]);
                    lemma_depth_concat(seq![Inst::Char(open)], seq![Inst::Indent]);
                    lemma_depth_single(Inst::Char(open));
                    lemma_depth_single(Inst::Indent);
                }
                assert(depth_of((pre.skip(2) + stripped).take(k - 2)) >= -1) by {
                    if k == 2 {
                        assert((pre.skip(2) + stripped).take(0) =~= Seq::<Inst>::empty());
                    } else {
                        assert((pre.skip(2) + stripped).take(k - 2) =~= seq![Inst::Newline]
                            + stripped.take(k - 3));
                        lemma_depth_concat(seq![Inst::Newline], stripped.take(k - 3));
                        lemma_depth_single(Inst::Newline);
                        assert(depth_of(stripped.take(k - 3)) >= 0);
                    }
                }
            } else {
                assert(whole.take(k) =~= (pre + stripped) + post.take(k - 3 - stripped.len()));
                lemma_depth_concat(pre + stripped, post.take(k - 3 - stripped.len()));
                lemma_depth_concat(pre, stripped);
                assert(depth_of(post.take(k - 3 - stripped.len())) >= -1) by {
                    let m = k - 3 - stripped.len();
                    assert(flat(post.skip(1))) by {
                        assert(post.skip(1) =~= seq![Inst::Newline, Inst::Char(close)]);
                    }
                    if m >= 1 {
                        assert(post.take(m) =~= seq![Inst::Unindent] + post.skip(1).take(m - 1));
                        lemma_depth_concat(seq![Inst::Unindent], post.skip(1).take(m - 1));
                        lemma_depth_single(Inst::Unindent);
                        assert(flat(post.skip(1).take(m - 1))) by {
                            assert(forall|j: int|
                                0 <= j < post.skip(1).take(m - 1).len() ==> #[trigger] post.skip(
                                    1,
                                ).take(m - 1)[j] == post.skip(1)[j]);
                        }
                        lemma_flat_depth(post.skip(1).take(m - 1));
                    } else {
                        assert(post.take(m) =~= Seq::<Inst>::empty());
                    }
                }
            }
        }
    }
}

/// Measure one rendered sequence: whether it holds a breakable delimiter,
/// whether it holds a forced line break, and its total length capped at the
/// width budget.
pub fn measure(e: &Vec<R>) -> (r: (bool, bool, usize))
    ensures
        r.0 == has_breakable(deep(e@)),
        r.1 == has_newline(deep(e@)),
        r.2 == min_budget(total_len(deep(e@))),
{
    let mut breakable = false;
    let mut newline = false;
    let mut budget: usize = 0;
    let mut j: usize = 0;
    proof {
        assert(deep(e@).take(0) =~= Seq::<Inst>::empty());
    }
    while j < e.len()
        invariant
            j <= e.len(),
            breakable == has_breakable(deep(e@).take(j as int)),
            newline == has_newline(deep(e@).take(j as int)),
            budget == min_budget(total_len(deep(e@).take(j as int))),
        decreases e.len() - j,
    {
        let ghost all = deep(e@);
        let ghost pre = all.take(j as int);
        let ghost post = all.take(j as int + 1);
        proof {
            assert(post =~= pre.push(all[j as int]));
            lemma_total_len_push(pre, all[j as int]);
        }
        if e[j].is_breakable_delimiter() {
            breakable = true;
        }
        if e[j].is_newline() {
            newline = true;
        }
        let mut l = e[j].len();
        if l > WIDTH_BUDGET {
            l = WIDTH_BUDGET;
        }
        budget = budget + l;
        if budget > WIDTH_BUDGET {
            budget = WIDTH_BUDGET;
        }
        proof {
            if breakable {
                if has_breakable(pre) {
                    let w = choose|i: int| 0 <= i < pre.len() && is_breakable_inst(
                        #[trigger] pre[i],
                    );
                    assert(is_breakable_inst(post[w]));
                } else {
                    assert(is_breakable_inst(post[j as int]));
                }
            } else {
                assert forall|i: int| 0 <= i < post.len() implies !is_breakable_inst(
                    #[trigger] post[i],
                ) by {
                    if i < j {
                        assert(post[i] == pre[i]);
                    } else {
                        assert(post[i] == all[j as int]);
                    }
                }
            }
            if newline {
                if has_newline(pre) {
                    let w = choose|i: int| 0 <= i < pre.len() && is_newline_inst(#[trigger] pre[i]);
                    assert(is_newline_inst(post[w]));
                } else {
                    assert(is_newline_inst(post[j as int]));
                }
            } else {
                assert forall|i: int| 0 <= i < post.len() implies !is_newline_inst(
                    #[trigger] post[i],
                ) by {
                    if i < j {
                        assert(post[i] == pre[i]);
                    } else {
                        assert(post[i] == all[j as int]);
                    }
                }
            }
        }
        j = j + 1;
    }
    proof {
        assert(deep(e@).take(e@.len() as int) =~= deep(e@));
    }
    (breakable, newline, budget)
}

/// Join already-rendered sibling sequences into `out`, inline when nothing
/// is breakable or everything fits the width budget, exploded otherwise.
pub fn format_seq(formatted: Vec<Vec<R>>, out: &mut Vec<R>)
    ensures
        deep(final(out)@) == deep(old(out)@) + format_seq_spec(deep2(formatted@)),
{
    let ghost sibs = deep2(formatted@);
    // First pass: the layout decision.
    let mut breakable = false;
    let mut budget: usize = 0;
    let mut i: usize = 0;
    proof {
        assert(sibs.take(0) =~= Seq::<Seq<Inst>>::empty());
    }
    while i < formatted.len()
        invariant
            i <= formatted.len(),
            sibs == deep2(formatted@),
            sibs.len() == formatted@.len(),
            breakable == seqs_breakable(sibs.take(i as int)),
            budget == min_budget(seqs_total(sibs.take(i as int))),
        decreases formatted.len() - i,
    {
        let ghost pre = sibs.take(i as int);
        let ghost post = sibs.take(i as int + 1);
        proof {
            assert(post =~= pre.push(sibs[i as int]));
            lemma_seqs_total_push(pre, sibs[i as int]);
            assert(sibs[i as int] == deep(formatted@[i as int]@));
        }
        let (sib_breakable, _, sib_budget) = measure(&formatted[i]);
        if sib_breakable {
            breakable = true;
        }
        budget = budget + sib_budget;
        if budget > WIDTH_BUDGET {
            budget = WIDTH_BUDGET;
        }
        proof {
            if breakable {
                if seqs_breakable(pre) {
                    let w = choose|k: int| 0 <= k < pre.len() && has_breakable(#[trigger] pre[k]);
                    assert(has_breakable(post[w]));
                } else {
                    assert(has_breakable(post[i as int]));
                }
            } else {
                assert forall|k: int| 0 <= k < post.len() implies !has_breakable(
                    #[trigger] post[k],
                ) by {
                    if k < i {
                        assert(post[k] == pre[k]);
                    } else {
                        assert(post[k] == sibs[i as int]);
                    }
                }
            }
        }
        i = i + 1;
    }
    proof {
        assert(sibs.take(formatted@.len() as int) =~= sibs);
    }
    let inline = !breakable || budget < WIDTH_BUDGET;
    proof {
        assert(inline == inline_choice(sibs));
    }
    // Second pass: the join.
    let ghost ic = inline_choice(sibs);
    let mut rest = formatted;
    while rest.len() > 0
        invariant
            ic == inline_choice(sibs),
            inline == ic,
            deep(old(out)@) + seq_join(sibs, ic) == deep(out@) + seq_join(deep2(rest@), ic),
        decreases rest.len(),
    {
        let ghost remaining = deep2(rest@);
        let mut e = rest.remove(0);
        proof {
            assert(deep2(rest@) =~= remaining.drop_first());
            assert(remaining[0] == deep(e@));
        }
        let lone = e.len() == 1 && e[0].is_breakable_delimiter();
        let last = rest.len() == 0;
        let ghost rpre = out@;
        let ghost er = e@;
        out.append(&mut e);
        proof {
            lemma_deep_concat(rpre, er);
        }
        let ghost sep: Seq<Inst> = if lone_breakable(remaining[0]) && (!ic || remaining.len() > 1) {
            seq![if ic {
                Inst::Space
            } else {
                Inst::Newline
            }]
        } else {
            Seq::empty()
        };
        if lone && (!inline || !last) {
            let ghost mid = deep(out@);
            if inline {
                push_inst(out, R::Space);
            } else {
                push_inst(out, R::Newline);
            }
            proof {
                assert(deep(out@) =~= deep(rpre) + remaining[0] + sep);
            }
        } else {
            proof {
                assert(deep(out@) =~= deep(rpre) + remaining[0] + sep);
            }
        }
        proof {
            assert(seq_join(remaining, ic) == remaining[0] + sep + seq_join(
                remaining.drop_first(),
                ic,
            ));
            assert((deep(rpre) + remaining[0] + sep) + seq_join(remaining.drop_first(), ic)
                =~= deep(rpre) + (remaining[0] + sep + seq_join(remaining.drop_first(), ic)));
        }
    }
    proof {
        assert(deep2(rest@) =~= Seq::<Seq<Inst>>::empty());
        assert(deep(out@) + seq_join(deep2(rest@), ic) =~= deep(out@));
    }
}

proof fn lemma_seqs_total_push(s: Seq<Seq<Inst>>, x: Seq<Inst>)
    ensures
        seqs_total(s.push(x)) == seqs_total(s) + total_len(x),
    decreases s.len(),
{
    if s.len() == 0 {
        assert(s.push(x).drop_first() =~= Seq::<Seq<Inst>>::empty());
        assert(seqs_total(Seq::<Seq<Inst>>::empty()) == 0);
        assert(s.push(x)[0] == x);
    } else {
        assert(s.push(x).drop_first() =~= s.drop_first().push(x));
        lemma_seqs_total_push(s.drop_first(), x);
    }
}

/// Whether the last instruction of `e` is a space or a line break.
fn trailing_ws_inst(e: &Vec<R>) -> (b: bool)
    ensures
        b == (deep(e@).len() > 0 && (is_newline_inst(deep(e@).last()) || deep(
            e@,
        ).last() matches Inst::Space)),
{
    if e.len() == 0 {
        false
    } else {
        let b = match e[e.len() - 1] {
            R::Newline => true,
            R::Space => true,
            _ => false,
        };
        proof {
            assert(deep(e@).last() == e@[e@.len() - 1].deep_view());
        }
        b
    }
}

/// Wrap a rendered inner sequence `e` in its brackets and append the result
/// to `out`: compact when `e` is near-empty, padded with one space on each
/// side when it fits the width budget, and otherwise exploded one indent
/// level deeper with the closing bracket on its own line.
pub fn format_container(open: char, close: char, e: Vec<R>, out: &mut Vec<R>)
    ensures
        deep(final(out)@) == deep(old(out)@) + container_spec(open, close, deep(e@)),
{
    let ghost ev = deep(e@);
    let (_, newline, budget) = measure(&e);
    let mut e = e;
    if budget < COMPACT_BUDGET && !newline {
        let ghost p0 = deep(out@);
        push_inst(out, R::Char(open));
        let ghost rpre = out@;
        let ghost er = e@;
        out.append(&mut e);
        proof {
            lemma_deep_concat(rpre, er);
        }
        push_inst(out, R::Char(close));
        proof {
            assert(deep(out@) =~= p0 + container_spec(open, close, ev));
        }
    } else if budget < WIDTH_BUDGET && !newline {
        let ghost p0 = deep(out@);
        push_inst(out, R::Char(open));
        push_inst(out, R::Space);
        let ghost rpre = out@;
        let ghost er = e@;
        out.append(&mut e);
        proof {
            lemma_deep_concat(rpre, er);
        }
        push_inst(out, R::Space);
        push_inst(out, R::Char(close));
        proof {
            assert(deep(out@) =~= p0 + container_spec(open, close, ev));
        }
    } else {
        let ghost p0 = deep(out@);
        push_inst(out, R::Char(open));
        push_inst(out, R::Indent);
        push_inst(out, R::Newline);
        // Drop trailing spaces and line breaks of the inner sequence.
        while trailing_ws_inst(&e)
            invariant
                strip_trailing(deep(e@)) == strip_trailing(ev),
            decreases e.len(),
        {
            let ghost dv = deep(e@);
            e.pop();
            proof {
                assert(deep(e@) =~= dv.drop_last());
            }
        }
        proof {
            assert(strip_trailing(deep(e@)) == deep(e@));
        }
        let ghost rpre = out@;
        let ghost er = e@;
        out.append(&mut e);
        proof {
            lemma_deep_concat(rpre, er);
        }
        push_inst(out, R::Unindent);
        push_inst(out, R::Newline);
        push_inst(out, R::Char(close));
        proof {
            assert(deep(out@) =~= p0 + container_spec(open, close, ev));
        }
    }
}

} // verus!
