//! A simpler, line-at-a-time formatter: it never parses, it only splits a
//! line into word and punctuation tokens, rejoins them with single spaces,
//! and opens an indented line after brackets and commas.  It is the
//! fallback engine for input that is not worth a full parse.

use vstd::prelude::*;

use crate::chars::{
    count_in, covers_nonws, is_ws, is_ws_char, lemma_count_concat, lemma_nonws_concat,
    lemma_nonws_ws, nonws_of, str_to_chars, subrange_chars,
};
use crate::emit::{chars_to_string, pad};
use crate::parse::{lemma_tok_gap, token_wf, tokens_wf, tok_covered, TokKind, Token};

verus! {

/// A separator character of the simple engine: everything that stands
/// alone as a one-character token.
pub open spec fn is_sep_char(c: char) -> bool {
    match c {
        '.' | '_' | '-' | '/' | '\\' | ':' | '\'' | '"' => false,
        _ => !(c == ' ' || c == '\n' || c == '\t' || c == '\r') && !('a' <= c && c <= 'z') && !('A'
            <= c && c <= 'Z') && !('0' <= c && c <= '9') && c <= '\u{7f}',
    }
}

fn is_sep_char_x(c: char) -> (b: bool)
    ensures
        b == is_sep_char(c),
{
    match c {
        '.' | '_' | '-' | '/' | '\\' | ':' | '\'' | '"' => false,
        _ => !(c == ' ' || c == '\n' || c == '\t' || c == '\r') && !('a' <= c && c <= 'z') && !('A'
            <= c && c <= 'Z') && !('0' <= c && c <= '9') && c <= '\u{7f}',
    }
}

/// The end of the run of line-word characters (not whitespace, not a
/// separator) starting at `j`.
pub open spec fn line_word_end(d: Seq<char>, j: int) -> int
    decreases d.len() - j,
{
    if 0 <= j < d.len() && !is_ws(d[j]) && !is_sep_char(d[j]) {
        line_word_end(d, j + 1)
    } else {
        j
    }
}

pub proof fn lemma_line_word_end_bounds(d: Seq<char>, j: int)
    requires
        0 <= j <= d.len(),
    ensures
        j <= line_word_end(d, j) <= d.len(),
    decreases d.len() - j,
{
    if j < d.len() && !is_ws(d[j]) && !is_sep_char(d[j]) {
        lemma_line_word_end_bounds(d, j + 1);
    }
}

/// The simple engine's token list from position `i` on: whitespace
/// skipped, one token per separator character, one per maximal word run.
pub open spec fn line_toks(d: Seq<char>, i: int) -> Seq<Token>
    decreases d.len() - i,
    via line_toks_dec
{
    if i < 0 || i >= d.len() {
        Seq::empty()
    } else if is_ws(d[i]) {
        line_toks(d, i + 1)
    } else {
        let j = if is_sep_char(d[i]) {
            i + 1
        } else {
            line_word_end(d, i + 1)
        };
        seq![Token { kind: TokKind::Word, start: i as usize, end: j as usize }] + line_toks(d, j)
    }
}

#[via_fn]
proof fn line_toks_dec(d: Seq<char>, i: int) {
    if 0 <= i < d.len() {
        lemma_line_word_end_bounds(d, i + 1);
    }
}

/// Whether a token is the single character `c`.
pub open spec fn tok_is(t: Token, d: Seq<char>, c: char) -> bool {
    t.end == t.start + 1 && d[t.start as int] == c
}

/// Whether the closing bracket `want` occurs within the tokens
/// `idx + offset ..= idx + 5`: the lookahead that keeps a short bracket
/// pair on one line.
pub open spec fn close_within(ts: Seq<Token>, d: Seq<char>, idx: int, want: char, offset: int) -> bool
    decreases 6 - offset,
{
    if offset > 5 || offset < 0 || idx + offset >= ts.len() {
        false
    } else if tok_is(ts[idx + offset], d, want) {
        true
    } else {
        close_within(ts, d, idx, want, offset + 1)
    }
}

/// The line break the simple engine writes: a terminator plus two spaces
/// per indent level.
pub open spec fn brk(indent: nat) -> Seq<char> {
    seq!['\n'] + pad(indent)
}

/// The simple engine's output from token `idx` on, at the given indent
/// level and oneline mode: each token verbatim plus one space; a closing
/// bracket (outside oneline mode) dedents and breaks before itself; an
/// opening bracket whose matching close is not within the next five tokens
/// indents and breaks after itself, and otherwise turns oneline mode on
/// until its close; a comma (outside oneline mode) breaks after itself.
pub open spec fn line_steps(ts: Seq<Token>, d: Seq<char>, idx: int, indent: int, oneline: bool) -> Seq<char>
    decreases ts.len() - idx,
{
    if idx < 0 || idx >= ts.len() {
        Seq::empty()
    } else {
        let t = ts[idx];
        let closes = tok_is(t, d, '}') || tok_is(t, d, ')') || tok_is(t, d, ']');
        let ind1: int = if closes && !oneline && indent > 0 {
            indent - 1
        } else {
            indent
        };
        let pre: Seq<char> = if closes && !oneline {
            brk(ind1 as nat)
        } else {
            Seq::empty()
        };
        let one1 = if closes {
            false
        } else {
            oneline
        };
        let span = d.subrange(t.start as int, t.end as int).push(' ');
        let opens = tok_is(t, d, '{') || tok_is(t, d, '(') || tok_is(t, d, '[');
        if opens {
            let want: char = if tok_is(t, d, '{') {
                '}'
            } else if tok_is(t, d, '(') {
                ')'
            } else {
                ']'
            };
            let one2 = one1 || close_within(ts, d, idx, want, 1);
            if !one2 {
                let ind2: int = if ind1 < usize::MAX as int {
                    ind1 + 1
                } else {
                    ind1
                };
                pre + span + brk(ind2 as nat) + line_steps(ts, d, idx + 1, ind2, one2)
            } else {
                pre + span + line_steps(ts, d, idx + 1, ind1, one2)
            }
        } else if tok_is(t, d, ',') {
            if !one1 {
                pre + span + brk(ind1 as nat) + line_steps(ts, d, idx + 1, ind1, one1)
            } else {
                pre + span + line_steps(ts, d, idx + 1, ind1, one1)
            }
        } else {
            pre + span + line_steps(ts, d, idx + 1, ind1, one1)
        }
    }
}

/// Split a line into tokens: maximal runs of word characters, and one
/// token per separator character.
fn tokenize_line(data: &Vec<char>) -> (ts: Vec<Token>)
    ensures
        tokens_wf(ts@, data@),
        ts@ == line_toks(data@, 0),
{
    let mut ts: Vec<Token> = Vec::new();
    let mut i: usize = 0;
    proof {
        assert(ts@ + line_toks(data@, 0) =~= line_toks(data@, 0));
    }
    while i < data.len()
        invariant
            i <= data@.len(),
            forall|k: int| 0 <= k < ts@.len() ==> token_wf(#[trigger] ts@[k], data@),
            forall|k: int| 0 <= k < ts@.len() ==> (#[trigger] ts@[k]).end <= i,
            forall|k: int| 0 <= k < ts@.len() ==> (#[trigger] ts@[k]).kind matches TokKind::Word,
            forall|a: int, b: int|
                0 <= a < b < ts@.len() ==> (#[trigger] ts@[a]).end <= (#[trigger] ts@[b]).start,
            forall|p: int| 0 <= p < i && !is_ws(data@[p]) ==> tok_covered(ts@, p),
            line_toks(data@, 0) == ts@ + line_toks(data@, i as int),
        decreases data@.len() - i,
    {
        let c = crate::chars::char_at(data, i);
        if is_ws_char(c) {
            i = i + 1;
        } else {
            let mut j: usize = i + 1;
            if !is_sep_char_x(c) {
                let n = data.len();
                while j < n && !is_ws_char(crate::chars::char_at(data, j)) && !is_sep_char_x(
                    crate::chars::char_at(data, j),
                )
                    invariant
                        i < j <= data@.len(),
                        n == data@.len(),
                        line_word_end(data@, j as int) == line_word_end(data@, i as int + 1),
                    decreases data@.len() - j,
                {
                    j = j + 1;
                }
                proof {
                    assert(j as int == line_word_end(data@, i as int + 1));
                }
            }
            let t = Token { kind: TokKind::Word, start: i, end: j };
            let ghost pre = ts@;
            ts.push(t);
            proof {
                assert(line_toks(data@, i as int) =~= seq![t] + line_toks(data@, j as int));
                assert(ts@ + line_toks(data@, j as int) =~= pre + line_toks(data@, i as int));
                assert forall|p: int| 0 <= p < j && !is_ws(data@[p]) implies tok_covered(
                    ts@,
                    p,
                ) by {
                    if p < i {
                        assert(tok_covered(pre, p));
                        let m = choose|m: int|
                            0 <= m < pre.len() && (#[trigger] pre[m]).start <= p < pre[m].end;
                        assert(ts@[m].start <= p < ts@[m].end);
                    } else {
                        assert(ts@[pre.len() as int].start <= p < ts@[pre.len() as int].end);
                    }
                }
            }
            i = j;
        }
    }
    proof {
        assert(line_toks(data@, data@.len() as int) =~= Seq::<Token>::empty());
        assert(ts@ + Seq::<Token>::empty() =~= ts@);
    }
    ts
}

/// The end of the last token before index `idx`, or the line start.
pub open spec fn line_done(ts: Seq<Token>, idx: int) -> int {
    if idx > 0 {
        ts[idx - 1].end as int
    } else {
        0
    }
}

/// Whether token `k` is the single character `c`.
fn token_is(ts: &Vec<Token>, k: usize, data: &Vec<char>, c: char) -> (b: bool)
    requires
        tokens_wf(ts@, data@),
        k < ts@.len(),
    ensures
        b == tok_is(ts@[k as int], data@, c),
{
    let t = ts[k];
    proof {
        assert(token_wf(ts@[k as int], data@));
    }
    t.end == t.start + 1 && crate::chars::char_at(data, t.start) == c
}

/// Append the characters of the span `[a, b)`.
fn push_span(out: &mut Vec<char>, data: &Vec<char>, a: usize, b: usize)
    requires
        a <= b <= data@.len(),
    ensures
        final(out)@ == old(out)@ + data@.subrange(a as int, b as int),
{
    let ghost pre = out@;
    let mut piece = subrange_chars(data, a, b);
    out.append(&mut piece);
}

/// Append a line break and the current indentation.
fn push_break(out: &mut Vec<char>, indent: usize)
    ensures
        final(out)@ == old(out)@ + brk(indent as nat),
        forall|c: char|
            !is_ws(c) ==> #[trigger] count_in(final(out)@, c) == count_in(old(out)@, c),
        nonws_of(final(out)@) == nonws_of(old(out)@),
{
    let ghost pre = out@;
    out.push('\n');
    let mut k: usize = 0;
    proof {
        assert(out@ =~= pre + seq!['\n'] + pad(0));
    }
    while k < indent
        invariant
            k <= indent,
            forall|q: int| pre.len() <= q < out@.len() ==> is_ws(#[trigger] out@[q]),
            out@.len() >= pre.len(),
            out@.subrange(0, pre.len() as int) == pre,
            out@ == pre + seq!['\n'] + pad(k as nat),
        decreases indent - k,
    {
        let ghost before = out@;
        out.push(' ');
        out.push(' ');
        proof {
            assert(pad(k as nat + 1) =~= pad(k as nat) + seq![' ', ' ']);
            assert(out@ =~= before + seq![' ', ' ']);
            assert(out@ =~= pre + seq!['\n'] + pad(k as nat + 1));
        }
        k = k + 1;
    }
    proof {
        let tail = out@.subrange(pre.len() as int, out@.len() as int);
        assert(out@ =~= pre + tail);
        assert forall|c: char| !is_ws(c) implies #[trigger] count_in(out@, c) == count_in(
            pre,
            c,
        ) by {
            lemma_count_concat(pre, tail, c);
            assert forall|q: int| 0 <= q < tail.len() implies #[trigger] tail[q] != c by {
                assert(tail[q] == out@[pre.len() + q]);
            }
            crate::chars::lemma_count_absent(tail, c);
        }
        assert forall|q: int| 0 <= q < tail.len() implies is_ws(#[trigger] tail[q]) by {
            assert(tail[q] == out@[pre.len() + q]);
        }
        lemma_nonws_concat(pre, tail);
        lemma_nonws_ws(tail);
        assert(nonws_of(out@) =~= nonws_of(pre));
    }
}

/// Format one line with the simple engine: tokens are rejoined with single
/// spaces; an opening bracket (unless its matching close follows within a
/// few tokens) opens an indented line, a closing bracket dedents onto a
/// fresh line, and a comma breaks the line.  Every non-whitespace
/// character of the line is written exactly once, in its original order —
/// the engine rearranges only whitespace — and the result ends with a line
/// terminator.
#[verifier::rlimit(100)]
pub fn format_line(line: &str) -> (out: String)
    ensures
        out@ == line_steps(line_toks(line@, 0), line@, 0, 0, false) + seq!['\n'],
        nonws_of(out@) == nonws_of(line@),
        covers_nonws(line@, out@),
        out@.len() >= 1,
        out@.last() == '\n',
{
    let data = str_to_chars(line);
    let ts = tokenize_line(&data);
    let mut out: Vec<char> = Vec::new();
    let mut indent: usize = 0;
    let mut oneline = false;
    let mut idx: usize = 0;
    let ghost dv = data@;
    proof {
        assert(dv.take(0) =~= Seq::<char>::empty());
        assert(out@ + line_steps(ts@, dv, 0, 0, false) =~= line_steps(ts@, dv, 0, 0, false));
    }
    while idx < ts.len()
        invariant
            tokens_wf(ts@, dv),
            dv == data@,
            idx <= ts@.len(),
            forall|c: char|
                !is_ws(c) ==> #[trigger] count_in(dv.take(line_done(ts@, idx as int)), c)
                    <= count_in(out@, c),
            nonws_of(out@) == nonws_of(dv.take(line_done(ts@, idx as int))),
            line_steps(ts@, dv, 0, 0, false) == out@ + line_steps(
                ts@,
                dv,
                idx as int,
                indent as int,
                oneline,
            ),
        decreases ts@.len() - idx,
    {
        let ghost idx0 = idx as int;
        let ghost ind0 = indent as int;
        let ghost one0 = oneline;
        let ghost outh = out@;
        let t = ts[idx];
        proof {
            assert(token_wf(ts@[idx as int], dv));
        }
        let ghost done0: int = line_done(ts@, idx as int);
        // A closing bracket dedents onto a fresh line.
        let closes = token_is(&ts, idx, &data, '}') || token_is(&ts, idx, &data, ')') || token_is(
            &ts,
            idx,
            &data,
            ']',
        );
        if closes {
            if !oneline {
                if indent > 0 {
                    indent = indent - 1;
                }
                push_break(&mut out, indent);
            }
            oneline = false;
        }
        // The token itself, followed by one space.
        let ghost out0 = out@;
        push_span(&mut out, &data, t.start, t.end);
        let ghost out1 = out@;
        out.push(' ');
        proof {
            lemma_tok_gap(ts@, dv, idx as int);
            assert(dv.take(t.end as int) =~= dv.take(done0) + dv.subrange(done0, t.start as int)
                + dv.subrange(t.start as int, t.end as int));
            assert(out@ =~= (out0 + dv.subrange(t.start as int, t.end as int)) + seq![' ']);
            assert forall|c: char| !is_ws(c) implies #[trigger] count_in(dv.take(t.end as int), c)
                <= count_in(out@, c) by {
                lemma_count_concat(
                    dv.take(done0) + dv.subrange(done0, t.start as int),
                    dv.subrange(t.start as int, t.end as int),
                    c,
                );
                lemma_count_concat(dv.take(done0), dv.subrange(done0, t.start as int), c);
                let gap = dv.subrange(done0, t.start as int);
                assert forall|q: int| 0 <= q < gap.len() implies #[trigger] gap[q] != c by {
                    assert(gap[q] == dv[done0 + q]);
                    assert(is_ws(dv[done0 + q]));
                }
                crate::chars::lemma_count_absent(gap, c);
                lemma_count_concat(out0 + dv.subrange(t.start as int, t.end as int), seq![' '], c);
                lemma_count_concat(out0, dv.subrange(t.start as int, t.end as int), c);
                crate::chars::lemma_count_single(' ', c);
            }
            let gap = dv.subrange(done0, t.start as int);
            let span = dv.subrange(t.start as int, t.end as int);
            assert forall|q: int| 0 <= q < gap.len() implies is_ws(#[trigger] gap[q]) by {
                assert(gap[q] == dv[done0 + q]);
            }
            lemma_nonws_ws(gap);
            assert(is_ws(' '));
            lemma_nonws_ws(seq![' ']);
            lemma_nonws_concat(out0 + span, seq![' ']);
            lemma_nonws_concat(out0, span);
            lemma_nonws_concat(dv.take(done0) + gap, span);
            lemma_nonws_concat(dv.take(done0), gap);
            assert(nonws_of(out@) =~= nonws_of(out0) + nonws_of(span));
            assert(nonws_of(dv.take(t.end as int)) =~= nonws_of(dv.take(done0)) + nonws_of(span));
        }
        // An opening bracket indents, unless its matching close is near.
        let opens_brace = token_is(&ts, idx, &data, '{');
        let opens_paren = token_is(&ts, idx, &data, '(');
        let opens_square = token_is(&ts, idx, &data, '[');
        if opens_brace || opens_paren || opens_square {
            if !oneline {
                let want = if opens_brace {
                    '}'
                } else if opens_paren {
                    ')'
                } else {
                    ']'
                };
                let mut offset: usize = 1;
                let mut found = false;
                let mut searching = true;
                while searching && offset <= 5
                    invariant
                        tokens_wf(ts@, dv),
                        dv == data@,
                        idx < ts@.len(),
                        1 <= offset <= 6,
                        searching ==> !found,
                        (if searching {
                            close_within(ts@, dv, idx as int, want, offset as int)
                        } else {
                            found
                        }) == close_within(ts@, dv, idx as int, want, 1),
                    decreases 6 - offset + (if searching {
                        1int
                    } else {
                        0int
                    }),
                {
                    if offset >= ts.len() - idx {
                        searching = false;
                    } else if token_is(&ts, idx + offset, &data, want) {
                        found = true;
                        searching = false;
                    } else {
                        offset = offset + 1;
                    }
                }
                oneline = found;
                proof {
                    assert(oneline == close_within(
                        ts@,
                        dv,
                        idx as int,
                        (if tok_is(ts@[idx as int], dv, '{') {
                            '}'
                        } else if tok_is(ts@[idx as int], dv, '(') {
                            ')'
                        } else {
                            ']'
                        }),
                        1,
                    ));
                }
            }
            if !oneline {
                if indent < usize::MAX {
                    indent = indent + 1;
                }
                push_break(&mut out, indent);
            }
        } else if token_is(&ts, idx, &data, ',') {
            if !oneline {
                push_break(&mut out, indent);
            }
        }
        proof {
            let tg = ts@[idx0];
            let closes_g = tok_is(tg, dv, '}') || tok_is(tg, dv, ')') || tok_is(tg, dv, ']');
            let ind1: int = if closes_g && !one0 && ind0 > 0 {
                ind0 - 1
            } else {
                ind0
            };
            let pre_g: Seq<char> = if closes_g && !one0 {
                brk(ind1 as nat)
            } else {
                Seq::empty()
            };
            let one1 = if closes_g {
                false
            } else {
                one0
            };
            let span_g = dv.subrange(tg.start as int, tg.end as int).push(' ');
            let opens_g = tok_is(tg, dv, '{') || tok_is(tg, dv, '(') || tok_is(tg, dv, '[');
            let want_g: char = if tok_is(tg, dv, '{') {
                '}'
            } else if tok_is(tg, dv, '(') {
                ')'
            } else {
                ']'
            };
            assert(span_g =~= dv.subrange(tg.start as int, tg.end as int) + seq![' ']);
            if opens_g {
                let one2 = one1 || close_within(ts@, dv, idx0, want_g, 1);
                assert(oneline == one2);
                if !one2 {
                    let ind2: int = if ind1 < usize::MAX as int {
                        ind1 + 1
                    } else {
                        ind1
                    };
                    assert(indent as int == ind2);
                    assert(out@ =~= outh + (pre_g + span_g + brk(ind2 as nat)));
                    assert(line_steps(ts@, dv, idx0, ind0, one0) == (pre_g + span_g + brk(
                        ind2 as nat,
                    )) + line_steps(ts@, dv, idx0 + 1, ind2, one2)) by {
                        assert((pre_g + span_g + brk(ind2 as nat) + line_steps(
                            ts@,
                            dv,
                            idx0 + 1,
                            ind2,
                            one2,
                        )) =~= (pre_g + span_g + brk(ind2 as nat)) + line_steps(
                            ts@,
                            dv,
                            idx0 + 1,
                            ind2,
                            one2,
                        ));
                    }
                } else {
                    assert(indent as int == ind1);
                    assert(out@ =~= outh + (pre_g + span_g));
                    assert(line_steps(ts@, dv, idx0, ind0, one0) == (pre_g + span_g)
                        + line_steps(ts@, dv, idx0 + 1, ind1, one2)) by {
                        assert((pre_g + span_g + line_steps(ts@, dv, idx0 + 1, ind1, one2)) =~= (
                        pre_g + span_g) + line_steps(ts@, dv, idx0 + 1, ind1, one2));
                    }
                }
            } else if tok_is(tg, dv, ',') {
                if !one1 {
                    assert(indent as int == ind1);
                    assert(out@ =~= outh + (pre_g + span_g + brk(ind1 as nat)));
                    assert(line_steps(ts@, dv, idx0, ind0, one0) == (pre_g + span_g + brk(
                        ind1 as nat,
                    )) + line_steps(ts@, dv, idx0 + 1, ind1, one1)) by {
                        assert((pre_g + span_g + brk(ind1 as nat) + line_steps(
                            ts@,
                            dv,
                            idx0 + 1,
                            ind1,
                            one1,
                        )) =~= (pre_g + span_g + brk(ind1 as nat)) + line_steps(
                            ts@,
                            dv,
                            idx0 + 1,
                            ind1,
                            one1,
                        ));
                    }
                } else {
                    assert(out@ =~= outh + (pre_g + span_g));
                    assert(line_steps(ts@, dv, idx0, ind0, one0) == (pre_g + span_g)
                        + line_steps(ts@, dv, idx0 + 1, ind1, one1)) by {
                        assert((pre_g + span_g + line_steps(ts@, dv, idx0 + 1, ind1, one1)) =~= (
                        pre_g + span_g) + line_steps(ts@, dv, idx0 + 1, ind1, one1));
                    }
                }
            } else {
                assert(out@ =~= outh + (pre_g + span_g));
                assert(line_steps(ts@, dv, idx0, ind0, one0) == (pre_g + span_g) + line_steps(
                    ts@,
                    dv,
                    idx0 + 1,
                    ind1,
                    one1,
                )) by {
                    assert((pre_g + span_g + line_steps(ts@, dv, idx0 + 1, ind1, one1)) =~= (pre_g
                        + span_g) + line_steps(ts@, dv, idx0 + 1, ind1, one1));
                }
            }
            assert(line_steps(ts@, dv, 0, 0, false) =~= out@ + line_steps(
                ts@,
                dv,
                idx0 + 1,
                indent as int,
                oneline,
            ));
        }
        idx = idx + 1;
    }
    let ghost out_fin = out@;
    out.push('\n');
    proof {
        let ghost donef: int = line_done(ts@, ts@.len() as int);
        lemma_tok_gap(ts@, dv, ts@.len() as int);
        assert(dv =~= dv.take(donef) + dv.subrange(donef, dv.len() as int));
        assert(out@ =~= out_fin + seq!['\n']);
        assert forall|c: char| !is_ws(c) implies #[trigger] count_in(dv, c) <= count_in(
            out@,
            c,
        ) by {
            lemma_count_concat(dv.take(donef), dv.subrange(donef, dv.len() as int), c);
            let tail = dv.subrange(donef, dv.len() as int);
            assert forall|q: int| 0 <= q < tail.len() implies #[trigger] tail[q] != c by {
                assert(tail[q] == dv[donef + q]);
                assert(is_ws(dv[donef + q]));
            }
            crate::chars::lemma_count_absent(tail, c);
            lemma_count_concat(out_fin, seq!['\n'], c);
            crate::chars::lemma_count_single('\n', c);
        }
        let wstail = dv.subrange(donef, dv.len() as int);
        assert forall|q: int| 0 <= q < wstail.len() implies is_ws(#[trigger] wstail[q]) by {
            assert(wstail[q] == dv[donef + q]);
        }
        lemma_nonws_ws(wstail);
        lemma_nonws_concat(dv.take(donef), wstail);
        lemma_nonws_ws(seq!['\n']);
        lemma_nonws_concat(out_fin, seq!['\n']);
        assert(nonws_of(out@) =~= nonws_of(dv));
        assert(line_steps(ts@, dv, ts@.len() as int, 0, false) =~= Seq::<char>::empty());
        assert(out_fin =~= line_steps(ts@, dv, 0, 0, false));
        assert(out@ =~= line_steps(line_toks(line@, 0), line@, 0, 0, false) + seq!['\n']);
    }
    chars_to_string(&out)
}

} // verus!
