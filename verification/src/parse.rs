//! The parser: turns one chunk of raw text into a parse tree for the
//! renderer.  A tokenizer classifies the text into words, clock-like
//! tokens, operators, commas and brackets; a bracket balancer synthesizes
//! the opening and closing brackets a partially-typed chunk is missing; a
//! recursive descent over the tokens then builds the tree.
//!
//! The parser never fails: any byte sequence yields a well-formed tree over
//! the (possibly balanced) text, and balancing only adds characters.

use vstd::prelude::*;

use crate::chars::{
    char_at, count_in, covers_nonws, is_ws, is_ws_char, lemma_count_concat, str_to_chars,
    subrange_chars,
};
use crate::tree::{
    covered, gseq, gview, lemma_gview_children, node_wf, tree_wf, GNode, Kind, Node, Role, Tree,
};

verus! {

/// One lexical token: a classified span of the chunk text.
#[derive(Clone, Copy)]
pub struct Token {
    pub kind: TokKind,
    /// Start of the token's span, inclusive.
    pub start: usize,
    /// End of the token's span, exclusive.
    pub end: usize,
}

/// The lexical classes the tokenizer distinguishes.
#[derive(Clone, Copy, PartialEq, Eq, Structural, Debug)]
pub enum TokKind {
    /// A run of word characters, possibly bridging single whitespace gaps
    /// between consecutive words.
    Word,
    /// A clock-like run of digits and colons, kept verbatim so its colons
    /// are not spaced like operators.
    Time,
    /// A run of operator characters.
    Op,
    /// The comma.
    Comma,
    /// An opening bracket.
    Open,
    /// A closing bracket.
    Close,
}

pub open spec fn is_open_char(c: char) -> bool {
    c == '(' || c == '[' || c == '{'
}

pub open spec fn is_close_char(c: char) -> bool {
    c == ')' || c == ']' || c == '}'
}

/// The closing bracket matching an opening one.
pub open spec fn close_of(c: char) -> char {
    if c == '(' {
        ')'
    } else if c == '[' {
        ']'
    } else {
        '}'
    }
}

/// The opening bracket matching a closing one.
pub open spec fn open_of(c: char) -> char {
    if c == ')' {
        '('
    } else if c == ']' {
        '['
    } else {
        '{'
    }
}

pub open spec fn is_op_char(c: char) -> bool {
    c == '=' || c == '+' || c == '*' || c == '<' || c == '>' || c == '!' || c == '?' || c == '%'
        || c == '^' || c == '&' || c == '|' || c == '~' || c == '#' || c == '$' || c == '@'
        || c == ';' || c == ':'
}

pub open spec fn is_digit_char(c: char) -> bool {
    '0' <= c && c <= '9'
}

/// A word character: anything that is not whitespace and not one of the
/// language's punctuation classes.
pub open spec fn is_word_char(c: char) -> bool {
    !is_ws(c) && !is_op_char(c) && !is_open_char(c) && !is_close_char(c) && c != ','
}

pub fn is_open_char_x(c: char) -> (b: bool)
    ensures
        b == is_open_char(c),
{
    c == '(' || c == '[' || c == '{'
}

pub fn is_close_char_x(c: char) -> (b: bool)
    ensures
        b == is_close_char(c),
{
    c == ')' || c == ']' || c == '}'
}

pub fn close_of_x(c: char) -> (r: char)
    ensures
        r == close_of(c),
{
    if c == '(' {
        ')'
    } else if c == '[' {
        ']'
    } else {
        '}'
    }
}

pub fn open_of_x(c: char) -> (r: char)
    ensures
        r == open_of(c),
{
    if c == ')' {
        '('
    } else if c == ']' {
        '['
    } else {
        '{'
    }
}

pub fn is_op_char_x(c: char) -> (b: bool)
    ensures
        b == is_op_char(c),
{
    c == '=' || c == '+' || c == '*' || c == '<' || c == '>' || c == '!' || c == '?' || c == '%'
        || c == '^' || c == '&' || c == '|' || c == '~' || c == '#' || c == '$' || c == '@'
        || c == ';' || c == ':'
}

pub fn is_digit_char_x(c: char) -> (b: bool)
    ensures
        b == is_digit_char(c),
{
    '0' <= c && c <= '9'
}

/// A character a clock-like token may hold: a digit or a colon.
pub open spec fn is_time_char(c: char) -> bool {
    is_digit_char(c) || c == ':'
}

pub fn is_time_char_x(c: char) -> (b: bool)
    ensures
        b == is_time_char(c),
{
    is_digit_char_x(c) || c == ':'
}

pub fn is_word_char_x(c: char) -> (b: bool)
    ensures
        b == is_word_char(c),
{
    !is_ws_char(c) && !is_op_char_x(c) && !is_open_char_x(c) && !is_close_char_x(c) && c != ','
}

/// Well-formedness of one token over the chunk text: the span is sane and
/// non-empty, and the single-character classes hold the character their
/// class promises.
pub open spec fn token_wf(t: Token, data: Seq<char>) -> bool {
    &&& t.start < t.end <= data.len()
    &&& match t.kind {
        TokKind::Comma => t.end == t.start + 1 && data[t.start as int] == ',',
        TokKind::Open => t.end == t.start + 1 && is_open_char(data[t.start as int]),
        TokKind::Close => t.end == t.start + 1 && is_close_char(data[t.start as int]),
        _ => true,
    }
}

/// Whether position `p` lies inside some token.
pub open spec fn tok_covered(ts: Seq<Token>, p: int) -> bool {
    exists|m: int| 0 <= m < ts.len() && (#[trigger] ts[m]).start <= p < ts[m].end
}

/// Well-formedness of a token list: each token is well-formed, tokens are
/// ordered and disjoint, and every non-whitespace character of the text
/// lies inside some token.
pub open spec fn tokens_wf(ts: Seq<Token>, data: Seq<char>) -> bool {
    &&& forall|i: int| 0 <= i < ts.len() ==> token_wf(#[trigger] ts[i], data)
    &&& forall|i: int, j: int|
        0 <= i < j < ts.len() ==> (#[trigger] ts[i]).end <= (#[trigger] ts[j]).start
    &&& forall|p: int| 0 <= p < data.len() && !is_ws(data[p]) ==> tok_covered(ts, p)
}

/// The lexical promise of each token class over the text: an operator run
/// holds operator characters only; a clock token holds digits and colons,
/// starts with a digit, does not end with a colon, and holds at least one
/// colon; a word run starts and ends on a word character and bridges only
/// whitespace.  The single-character classes are pinned by [`token_wf`].
pub open spec fn token_classified(t: Token, data: Seq<char>) -> bool {
    match t.kind {
        TokKind::Op => forall|p: int| t.start <= p < t.end ==> is_op_char(#[trigger] data[p]),
        TokKind::Time => {
            &&& forall|p: int| t.start <= p < t.end ==> is_time_char(#[trigger] data[p])
            &&& is_digit_char(data[t.start as int])
            &&& data[t.end - 1] != ':'
            &&& exists|p: int| t.start <= p < t.end && data[p] == ':'
        },
        TokKind::Word => {
            &&& forall|p: int|
                t.start <= p < t.end ==> is_word_char(#[trigger] data[p]) || is_ws(data[p])
            &&& is_word_char(data[t.start as int])
            &&& is_word_char(data[t.end - 1])
        },
        _ => true,
    }
}


/// The end of the run of word characters starting at `j`.
pub open spec fn word_run_end(d: Seq<char>, j: int) -> int
    decreases d.len() - j,
{
    if 0 <= j < d.len() && is_word_char(d[j]) {
        word_run_end(d, j + 1)
    } else {
        j
    }
}

/// The end of the run of whitespace characters starting at `j`.
pub open spec fn ws_run_end(d: Seq<char>, j: int) -> int
    decreases d.len() - j,
{
    if 0 <= j < d.len() && is_ws(d[j]) {
        ws_run_end(d, j + 1)
    } else {
        j
    }
}

/// The end of the run of operator characters starting at `j`.
pub open spec fn op_run_end(d: Seq<char>, j: int) -> int
    decreases d.len() - j,
{
    if 0 <= j < d.len() && is_op_char(d[j]) {
        op_run_end(d, j + 1)
    } else {
        j
    }
}

/// The end of the run of clock characters starting at `j`.
pub open spec fn time_run_end(d: Seq<char>, j: int) -> int
    decreases d.len() - j,
{
    if 0 <= j < d.len() && is_time_char(d[j]) {
        time_run_end(d, j + 1)
    } else {
        j
    }
}

pub proof fn lemma_run_end_bounds(d: Seq<char>, j: int)
    requires
        0 <= j <= d.len(),
    ensures
        j <= word_run_end(d, j) <= d.len(),
        j <= ws_run_end(d, j) <= d.len(),
        j <= op_run_end(d, j) <= d.len(),
        j <= time_run_end(d, j) <= d.len(),
    decreases d.len() - j,
{
    if j < d.len() {
        lemma_run_end_bounds(d, j + 1);
    }
}

/// Trailing colons dropped from the clock run `[i, j)`, never below one
/// character.
pub open spec fn strip_colons(d: Seq<char>, i: int, j: int) -> int
    decreases j,
{
    if j > i + 1 && 0 <= j - 1 < d.len() && d[j - 1] == ':' {
        strip_colons(d, i, j - 1)
    } else {
        j
    }
}

pub proof fn lemma_strip_colons_bounds(d: Seq<char>, i: int, j: int)
    requires
        i + 1 <= j,
    ensures
        i + 1 <= strip_colons(d, i, j) <= j,
    decreases j,
{
    if j > i + 1 && 0 <= j - 1 < d.len() && d[j - 1] == ':' {
        lemma_strip_colons_bounds(d, i, j - 1);
    }
}

/// Where a word token starting at `i` ends: the word run, extended across
/// one whitespace run whenever another word character follows.
pub open spec fn word_scan_end(d: Seq<char>, j: int) -> int
    decreases d.len() - j,
    via word_scan_end_dec
{
    if j < 0 || j > d.len() {
        j
    } else {
        let w = word_run_end(d, j);
        let k = ws_run_end(d, w);
        if k > w && k < d.len() && is_word_char(d[k]) {
            word_scan_end(d, k + 1)
        } else {
            w
        }
    }
}

#[via_fn]
proof fn word_scan_end_dec(d: Seq<char>, j: int) {
    if 0 <= j <= d.len() {
        lemma_run_end_bounds(d, j);
        lemma_run_end_bounds(d, word_run_end(d, j));
    }
}

pub proof fn lemma_word_scan_end_bounds(d: Seq<char>, j: int)
    requires
        0 <= j <= d.len(),
    ensures
        j <= word_scan_end(d, j) <= d.len(),
    decreases d.len() - j,
{
    lemma_run_end_bounds(d, j);
    let w = word_run_end(d, j);
    lemma_run_end_bounds(d, w);
    let k = ws_run_end(d, w);
    if k > w && k < d.len() && is_word_char(d[k]) {
        lemma_word_scan_end_bounds(d, k + 1);
    }
}

/// The token list the tokenizer produces from position `i` on: whitespace
/// skipped, one token per maximal meaningful run, classified by its first
/// character, a digit run becoming a clock token exactly when a colon
/// survives the trailing strip.
pub open spec fn toks_from(d: Seq<char>, i: int) -> Seq<Token>
    decreases d.len() - i,
    via toks_from_dec
{
    if i < 0 || i >= d.len() {
        Seq::empty()
    } else {
        let c = d[i];
        if is_ws(c) {
            toks_from(d, i + 1)
        } else if c == ',' {
            seq![Token { kind: TokKind::Comma, start: i as usize, end: (i + 1) as usize }]
                + toks_from(d, i + 1)
        } else if is_open_char(c) {
            seq![Token { kind: TokKind::Open, start: i as usize, end: (i + 1) as usize }]
                + toks_from(d, i + 1)
        } else if is_close_char(c) {
            seq![Token { kind: TokKind::Close, start: i as usize, end: (i + 1) as usize }]
                + toks_from(d, i + 1)
        } else if is_op_char(c) {
            let j = op_run_end(d, i + 1);
            seq![Token { kind: TokKind::Op, start: i as usize, end: j as usize }] + toks_from(d, j)
        } else if is_digit_char(c) {
            let j = strip_colons(d, i, time_run_end(d, i + 1));
            if exists|p: int| i <= p < j && d[p] == ':' {
                seq![Token { kind: TokKind::Time, start: i as usize, end: j as usize }]
                    + toks_from(d, j)
            } else {
                let j2 = word_scan_end(d, i + 1);
                seq![Token { kind: TokKind::Word, start: i as usize, end: j2 as usize }]
                    + toks_from(d, j2)
            }
        } else {
            let j = word_scan_end(d, i + 1);
            seq![Token { kind: TokKind::Word, start: i as usize, end: j as usize }] + toks_from(
                d,
                j,
            )
        }
    }
}

#[via_fn]
proof fn toks_from_dec(d: Seq<char>, i: int) {
    if 0 <= i < d.len() {
        lemma_run_end_bounds(d, i + 1);
        lemma_strip_colons_bounds(d, i, time_run_end(d, i + 1));
        lemma_word_scan_end_bounds(d, i + 1);
    }
}

/// Scan a word token starting at `i`: a run of word characters, extended
/// across a whitespace gap whenever another word character follows, so that
/// loose prose stays one verbatim token.
fn scan_word(data: &Vec<char>, i: usize) -> (j: usize)
    requires
        i < data@.len(),
        is_word_char(data@[i as int]),
    ensures
        i < j <= data@.len(),
        forall|p: int| i <= p < j ==> is_word_char(#[trigger] data@[p]) || is_ws(data@[p]),
        is_word_char(data@[j - 1]),
        j == word_scan_end(data@, i as int + 1),
{
    let _n = data.len();
    let mut j: usize = i + 1;
    let mut scanning = true;
    while scanning
        invariant
            i < j <= data@.len(),
            forall|p: int| i <= p < j ==> is_word_char(#[trigger] data@[p]) || is_ws(data@[p]),
            is_word_char(data@[j - 1]),
            (if scanning {
                word_scan_end(data@, j as int)
            } else {
                j as int
            }) == word_scan_end(data@, i as int + 1),
        decreases data@.len() - j + (if scanning {
            1int
        } else {
            0int
        }),
    {
        let ghost j0 = j;
        while j < data.len() && is_word_char_x(char_at(data, j))
            invariant
                i < j <= data@.len(),
                j0 <= j,
                forall|p: int| i <= p < j ==> is_word_char(#[trigger] data@[p]) || is_ws(data@[p]),
                is_word_char(data@[j - 1]),
                word_run_end(data@, j as int) == word_run_end(data@, j0 as int),
            decreases data@.len() - j,
        {
            j = j + 1;
        }
        proof {
            assert(j as int == word_run_end(data@, j0 as int));
        }
        let mut k: usize = j;
        while k < data.len() && is_ws_char(char_at(data, k))
            invariant
                j <= k <= data@.len(),
                forall|p: int| j <= p < k ==> is_ws(#[trigger] data@[p]),
                ws_run_end(data@, k as int) == ws_run_end(data@, j as int),
            decreases data@.len() - k,
        {
            k = k + 1;
        }
        proof {
            assert(k as int == ws_run_end(data@, j as int));
        }
        if k > j && k < data.len() && is_word_char_x(char_at(data, k)) {
            proof {
                assert(word_scan_end(data@, j0 as int) == word_scan_end(data@, k as int + 1));
            }
            j = k + 1;
        } else {
            proof {
                assert(word_scan_end(data@, j0 as int) == j as int);
            }
            scanning = false;
        }
    }
    j
}

/// Scan a run of operator characters starting at `i`.
fn scan_op(data: &Vec<char>, i: usize) -> (j: usize)
    requires
        i < data@.len(),
        is_op_char(data@[i as int]),
    ensures
        i < j <= data@.len(),
        forall|p: int| i <= p < j ==> is_op_char(#[trigger] data@[p]),
        j == op_run_end(data@, i as int + 1),
{
    let _n = data.len();
    let mut j: usize = i + 1;
    while j < data.len() && is_op_char_x(char_at(data, j))
        invariant
            i < j <= data@.len(),
            forall|p: int| i <= p < j ==> is_op_char(#[trigger] data@[p]),
            op_run_end(data@, j as int) == op_run_end(data@, i as int + 1),
        decreases data@.len() - j,
    {
        j = j + 1;
    }
    j
}

/// Scan a clock-like token starting at a digit: a run of digits and colons
/// with trailing colons dropped.  Returns the end of the run and whether a
/// colon remains inside it.
fn scan_time(data: &Vec<char>, i: usize) -> (r: (usize, bool))
    requires
        i < data@.len(),
        is_digit_char(data@[i as int]),
    ensures
        i < r.0 <= data@.len(),
        forall|p: int| i <= p < r.0 ==> is_time_char(#[trigger] data@[p]),
        data@[r.0 - 1] != ':',
        r.1 == exists|p: int| i <= p < r.0 && data@[p] == ':',
        r.0 == strip_colons(data@, i as int, time_run_end(data@, i as int + 1)),
{
    let _n = data.len();
    let mut j: usize = i + 1;
    while j < data.len() && is_time_char_x(char_at(data, j))
        invariant
            i < j <= data@.len(),
            forall|p: int| i <= p < j ==> is_time_char(#[trigger] data@[p]),
            time_run_end(data@, j as int) == time_run_end(data@, i as int + 1),
        decreases data@.len() - j,
    {
        j = j + 1;
    }
    proof {
        assert(j as int == time_run_end(data@, i as int + 1));
    }
    while j > i + 1 && char_at(data, j - 1) == ':'
        invariant
            i < j <= data@.len(),
            forall|p: int| i <= p < j ==> is_time_char(#[trigger] data@[p]),
            strip_colons(data@, i as int, j as int) == strip_colons(
                data@,
                i as int,
                time_run_end(data@, i as int + 1),
            ),
        decreases j,
    {
        j = j - 1;
    }
    let mut hascolon = false;
    let mut q: usize = i;
    while q < j
        invariant
            i <= q <= j <= data@.len(),
            hascolon == exists|p: int| i <= p < q && data@[p] == ':',
        decreases j - q,
    {
        if char_at(data, q) == ':' {
            hascolon = true;
        }
        q = q + 1;
    }
    (j, hascolon)
}

/// Append a token, keeping the list ordered, covered, well-formed and
/// classified.
fn push_token(ts: &mut Vec<Token>, t: Token, data: &Vec<char>, upto: usize)
    requires
        token_wf(t, data@),
        token_classified(t, data@),
        forall|k: int| 0 <= k < old(ts)@.len() ==> token_wf(#[trigger] old(ts)@[k], data@),
        forall|k: int| 0 <= k < old(ts)@.len() ==> token_classified(#[trigger] old(ts)@[k], data@),
        forall|k: int| 0 <= k < old(ts)@.len() ==> (#[trigger] old(ts)@[k]).end <= t.start,
        forall|a: int, b: int|
            0 <= a < b < old(ts)@.len() ==> (#[trigger] old(ts)@[a]).end <= (#[trigger] old(
                ts,
            )@[b]).start,
        forall|p: int|
            0 <= p < t.start && !is_ws(data@[p]) ==> tok_covered(old(ts)@, p),
        t.end == upto,
    ensures
        final(ts)@ == old(ts)@.push(t),
        forall|k: int| 0 <= k < final(ts)@.len() ==> token_wf(#[trigger] final(ts)@[k], data@),
        forall|k: int|
            0 <= k < final(ts)@.len() ==> token_classified(#[trigger] final(ts)@[k], data@),
        forall|k: int| 0 <= k < final(ts)@.len() ==> (#[trigger] final(ts)@[k]).end <= upto,
        forall|a: int, b: int|
            0 <= a < b < final(ts)@.len() ==> (#[trigger] final(ts)@[a]).end
                <= (#[trigger] final(ts)@[b]).start,
        forall|p: int|
            0 <= p < upto && !is_ws(data@[p]) ==> tok_covered(final(ts)@, p),
{
    let ghost pre = ts@;
    ts.push(t);
    proof {
        assert forall|p: int| 0 <= p < upto && !is_ws(data@[p]) implies tok_covered(ts@, p) by {
            if p < t.start {
                assert(tok_covered(pre, p));
                let m = choose|m: int|
                    0 <= m < pre.len() && (#[trigger] pre[m]).start <= p < pre[m].end;
                assert(ts@[m].start <= p < ts@[m].end);
            } else {
                assert(ts@[pre.len() as int].start <= p < ts@[pre.len() as int].end);
            }
        }
    }
}

/// Tokenize the chunk text: skip whitespace, and classify every maximal
/// meaningful run as a word, clock, operator, comma or bracket token.
/// Each token's characters match its class, as [`token_classified`] says.
pub fn tokenize(data: &Vec<char>) -> (ts: Vec<Token>)
    ensures
        tokens_wf(ts@, data@),
        forall|k: int| 0 <= k < ts@.len() ==> token_classified(#[trigger] ts@[k], data@),
        ts@ == toks_from(data@, 0),
{
    let mut ts: Vec<Token> = Vec::new();
    let mut i: usize = 0;
    proof {
        assert(ts@ + toks_from(data@, 0) =~= toks_from(data@, 0));
    }
    while i < data.len()
        invariant
            i <= data@.len(),
            forall|k: int| 0 <= k < ts@.len() ==> token_wf(#[trigger] ts@[k], data@),
            forall|k: int| 0 <= k < ts@.len() ==> token_classified(#[trigger] ts@[k], data@),
            forall|k: int| 0 <= k < ts@.len() ==> (#[trigger] ts@[k]).end <= i,
            forall|a: int, b: int|
                0 <= a < b < ts@.len() ==> (#[trigger] ts@[a]).end <= (#[trigger] ts@[b]).start,
            forall|p: int| 0 <= p < i && !is_ws(data@[p]) ==> tok_covered(ts@, p),
            toks_from(data@, 0) == ts@ + toks_from(data@, i as int),
        decreases data@.len() - i,
    {
        let ghost pre = ts@;
        let c = char_at(data, i);
        if is_ws_char(c) {
            i = i + 1;
        } else if c == ',' {
            let t = Token { kind: TokKind::Comma, start: i, end: i + 1 };
            push_token(&mut ts, t, data, i + 1);
            proof {
                assert(toks_from(data@, i as int) =~= seq![t] + toks_from(data@, i as int + 1));
                assert(ts@ + toks_from(data@, i as int + 1) =~= pre + toks_from(data@, i as int));
            }
            i = i + 1;
        } else if is_open_char_x(c) {
            let t = Token { kind: TokKind::Open, start: i, end: i + 1 };
            push_token(&mut ts, t, data, i + 1);
            proof {
                assert(toks_from(data@, i as int) =~= seq![t] + toks_from(data@, i as int + 1));
                assert(ts@ + toks_from(data@, i as int + 1) =~= pre + toks_from(data@, i as int));
            }
            i = i + 1;
        } else if is_close_char_x(c) {
            let t = Token { kind: TokKind::Close, start: i, end: i + 1 };
            push_token(&mut ts, t, data, i + 1);
            proof {
                assert(toks_from(data@, i as int) =~= seq![t] + toks_from(data@, i as int + 1));
                assert(ts@ + toks_from(data@, i as int + 1) =~= pre + toks_from(data@, i as int));
            }
            i = i + 1;
        } else if is_op_char_x(c) {
            let j = scan_op(data, i);
            let t = Token { kind: TokKind::Op, start: i, end: j };
            push_token(&mut ts, t, data, j);
            proof {
                assert(toks_from(data@, i as int) =~= seq![t] + toks_from(data@, j as int));
                assert(ts@ + toks_from(data@, j as int) =~= pre + toks_from(data@, i as int));
            }
            i = j;
        } else if is_digit_char_x(c) {
            let (j, hascolon) = scan_time(data, i);
            if hascolon {
                let t = Token { kind: TokKind::Time, start: i, end: j };
                push_token(&mut ts, t, data, j);
                proof {
                    assert(toks_from(data@, i as int) =~= seq![t] + toks_from(data@, j as int));
                    assert(ts@ + toks_from(data@, j as int) =~= pre + toks_from(data@, i as int));
                }
                i = j;
            } else {
                let j2 = scan_word(data, i);
                let t = Token { kind: TokKind::Word, start: i, end: j2 };
                push_token(&mut ts, t, data, j2);
                proof {
                    assert(toks_from(data@, i as int) =~= seq![t] + toks_from(data@, j2 as int));
                    assert(ts@ + toks_from(data@, j2 as int) =~= pre + toks_from(
                        data@,
                        i as int,
                    ));
                }
                i = j2;
            }
        } else {
            let j = scan_word(data, i);
            let t = Token { kind: TokKind::Word, start: i, end: j };
            push_token(&mut ts, t, data, j);
            proof {
                assert(toks_from(data@, i as int) =~= seq![t] + toks_from(data@, j as int));
                assert(ts@ + toks_from(data@, j as int) =~= pre + toks_from(data@, i as int));
            }
            i = j;
        }
    }
    proof {
        assert(toks_from(data@, data@.len() as int) =~= Seq::<Token>::empty());
        assert(ts@ + Seq::<Token>::empty() =~= ts@);
    }
    ts
}

/// The raw text between two consecutive tokens (or before the first, or
/// after the last) holds only whitespace.
pub proof fn lemma_tok_gap(ts: Seq<Token>, data: Seq<char>, i: int)
    requires
        tokens_wf(ts, data),
        0 <= i <= ts.len(),
    ensures
        forall|p: int|
            (if i > 0 {
                ts[i - 1].end as int
            } else {
                0
            }) <= p < (if i < ts.len() {
                ts[i].start as int
            } else {
                data.len() as int
            }) ==> is_ws(#[trigger] data[p]),
{
    let a: int = if i > 0 {
        ts[i - 1].end as int
    } else {
        0
    };
    let b: int = if i < ts.len() {
        ts[i].start as int
    } else {
        data.len() as int
    };
    assert forall|p: int| a <= p < b implies is_ws(#[trigger] data[p]) by {
        if !is_ws(data[p]) {
            assert(p < data.len()) by {
                if i < ts.len() {
                    assert(token_wf(ts[i], data));
                }
            }
            assert(tok_covered(ts, p));
            let m = choose|m: int|
                0 <= m < ts.len() && (#[trigger] ts[m]).start <= p < ts[m].end;
            if m < i {
                if m < i - 1 {
                    assert(ts[m].end <= ts[i - 1].start);
                    assert(token_wf(ts[i - 1], data));
                }
            } else {
                if i < m {
                    assert(ts[i].end <= ts[m].start);
                    assert(token_wf(ts[i], data));
                }
            }
        }
    }
}

/// A character list reversed.
pub open spec fn rev_chars(s: Seq<char>) -> Seq<char>
    decreases s.len(),
{
    if s.len() == 0 {
        Seq::empty()
    } else {
        seq![s.last()] + rev_chars(s.drop_last())
    }
}

/// The balancing scan from token `m` on: an opening bracket stacks its
/// match, a closing bracket pops a matching stack top, and one that nothing
/// opened prepends its opener.  Returns the synthesized openers and the
/// still-open stack.
pub open spec fn bal_from(
    ts: Seq<Token>,
    d: Seq<char>,
    m: int,
    pre: Seq<char>,
    stack: Seq<char>,
) -> (Seq<char>, Seq<char>)
    decreases ts.len() - m,
{
    if m < 0 || m >= ts.len() {
        (pre, stack)
    } else {
        let t = ts[m];
        match t.kind {
            TokKind::Open => bal_from(ts, d, m + 1, pre, stack.push(close_of(d[t.start as int]))),
            TokKind::Close => {
                let c = d[t.start as int];
                if stack.len() > 0 {
                    if stack.last() == c {
                        bal_from(ts, d, m + 1, pre, stack.drop_last())
                    } else {
                        bal_from(ts, d, m + 1, pre, stack)
                    }
                } else {
                    bal_from(ts, d, m + 1, seq![open_of(c)] + pre, stack)
                }
            },
            _ => bal_from(ts, d, m + 1, pre, stack),
        }
    }
}

/// What the balancer synthesizes for a token list: the openers to put
/// before the chunk and the closers to put after it.
pub open spec fn balance_spec(ts: Seq<Token>, d: Seq<char>) -> (Seq<char>, Seq<char>) {
    let b = bal_from(ts, d, 0, Seq::empty(), Seq::empty());
    (b.0, rev_chars(b.1))
}

/// The node kind a lexical class parses to.
pub open spec fn gkind_of_tok(k: TokKind) -> Kind {
    match k {
        TokKind::Word => Kind::Text,
        TokKind::Time => Kind::Time,
        TokKind::Op => Kind::Symbol,
        TokKind::Comma => Kind::Comma,
        TokKind::Open => Kind::Symbol,
        TokKind::Close => Kind::Symbol,
    }
}

/// The leaf node for one token.
pub open spec fn gleaf(t: Token) -> GNode {
    GNode {
        kind: gkind_of_tok(t.kind),
        role: Role::General,
        start: t.start as int,
        end: t.end as int,
        children: Seq::empty(),
    }
}

/// One element from the collected units: a single unit stands alone,
/// several form an operand-operator chain (an operator among them) or a
/// generic juxtaposition.
pub open spec fn gelement(units: Seq<GNode>, has_op: bool) -> GNode {
    if units.len() == 1 {
        units[0]
    } else {
        GNode {
            kind: if has_op {
                Kind::BinaryOp
            } else {
                Kind::Group
            },
            role: Role::General,
            start: units[0].start,
            end: units.last().end,
            children: units,
        }
    }
}

/// The element under construction closed and appended, if any.
pub open spec fn gflush(elems: Seq<GNode>, units: Seq<GNode>, has_op: bool) -> Seq<GNode> {
    if units.len() > 0 {
        elems.push(gelement(units, has_op))
    } else {
        elems
    }
}

/// The sibling elements of one nesting level wrapped into at most one
/// node: a comma-delimited sequence when a comma is among them, a generic
/// group otherwise.
pub open spec fn gwrap(ch: Seq<GNode>) -> Seq<GNode> {
    if ch.len() <= 1 {
        ch
    } else {
        seq![
            GNode {
                kind: if exists|q: int|
                    0 <= q < ch.len() && ((#[trigger] ch[q]).kind matches Kind::Comma) {
                    Kind::CommaSeq
                } else {
                    Kind::Group
                },
                role: Role::General,
                start: ch[0].start,
                end: ch.last().end,
                children: ch,
            },
        ]
    }
}

/// The container node for a bracket pair: the opening bracket child, the
/// inner siblings, and the closing bracket child when one was found.
pub open spec fn gcontainer(open_t: Token, inner: Seq<GNode>, close_t: Option<Token>) -> GNode {
    let oc = GNode {
        kind: Kind::Symbol,
        role: Role::Open,
        start: open_t.start as int,
        end: open_t.end as int,
        children: Seq::empty(),
    };
    match close_t {
        Some(ct) => GNode {
            kind: Kind::Container,
            role: Role::General,
            start: open_t.start as int,
            end: ct.end as int,
            children: (seq![oc] + inner).push(
                GNode {
                    kind: Kind::Symbol,
                    role: Role::Close,
                    start: ct.start as int,
                    end: ct.end as int,
                    children: Seq::empty(),
                },
            ),
        },
        None => GNode {
            kind: Kind::Container,
            role: Role::General,
            start: open_t.start as int,
            end: if inner.len() > 0 {
                inner.last().end
            } else {
                open_t.end as int
            },
            children: seq![oc] + inner,
        },
    }
}

/// The brackets a chunk is missing: opening brackets to put before it (for
/// closing brackets that nothing opened) and closing brackets to put after
/// it (for opening brackets that nothing closes).
fn compute_balance(ts: &Vec<Token>, data: &Vec<char>) -> (r: (Vec<char>, Vec<char>))
    requires
        tokens_wf(ts@, data@),
    ensures
        forall|i: int| 0 <= i < r.0@.len() ==> is_open_char(#[trigger] r.0@[i]),
        forall|i: int| 0 <= i < r.1@.len() ==> is_close_char(#[trigger] r.1@[i]),
        r.0@ == balance_spec(ts@, data@).0,
        r.1@ == balance_spec(ts@, data@).1,
{
    let mut pre: Vec<char> = Vec::new();
    let mut stack: Vec<char> = Vec::new();
    let mut m: usize = 0;
    while m < ts.len()
        invariant
            tokens_wf(ts@, data@),
            m <= ts@.len(),
            forall|i: int| 0 <= i < pre@.len() ==> is_open_char(#[trigger] pre@[i]),
            forall|i: int| 0 <= i < stack@.len() ==> is_close_char(#[trigger] stack@[i]),
            bal_from(ts@, data@, m as int, pre@, stack@) == bal_from(
                ts@,
                data@,
                0,
                Seq::<char>::empty(),
                Seq::<char>::empty(),
            ),
        decreases ts@.len() - m,
    {
        let t = ts[m];
        let ghost pre1 = pre@;
        let ghost stack1 = stack@;
        proof {
            assert(token_wf(ts@[m as int], data@));
        }
        match t.kind {
            TokKind::Open => {
                let c = char_at(data, t.start);
                stack.push(close_of_x(c));
            },
            TokKind::Close => {
                let c = char_at(data, t.start);
                if stack.len() > 0 {
                    if stack[stack.len() - 1] == c {
                        stack.pop();
                        proof {
                            assert(stack@ =~= stack1.drop_last());
                        }
                    }
                } else {
                    let ghost pre0 = pre@;
                    pre.insert(0, open_of_x(c));
                    proof {
                        assert(pre@ =~= seq![open_of(data@[t.start as int])] + pre0);
                        assert forall|i: int| 0 <= i < pre@.len() implies is_open_char(
                            #[trigger] pre@[i],
                        ) by {
                            if i > 0 {
                                assert(pre@[i] == pre0[i - 1]);
                            }
                        }
                    }
                }
            },
            _ => {},
        }
        proof {
            assert(bal_from(ts@, data@, m as int + 1, pre@, stack@) == bal_from(
                ts@,
                data@,
                m as int,
                pre1,
                stack1,
            ));
        }
        m = m + 1;
    }
    let ghost stackf = stack@;
    let mut post: Vec<char> = Vec::new();
    proof {
        assert(post@ + rev_chars(stack@) =~= rev_chars(stackf));
    }
    while stack.len() > 0
        invariant
            forall|i: int| 0 <= i < stack@.len() ==> is_close_char(#[trigger] stack@[i]),
            forall|i: int| 0 <= i < post@.len() ==> is_close_char(#[trigger] post@[i]),
            post@ + rev_chars(stack@) == rev_chars(stackf),
        decreases stack@.len(),
    {
        let ghost stack1 = stack@;
        let ghost post1 = post@;
        let c = stack.pop();
        match c {
            Some(c) => {
                post.push(c);
                proof {
                    assert(stack@ =~= stack1.drop_last());
                    assert(post@ =~= post1.push(stack1.last()));
                    assert(rev_chars(stack1) == seq![stack1.last()] + rev_chars(
                        stack1.drop_last(),
                    ));
                    assert(post@ + rev_chars(stack@) =~= post1 + rev_chars(stack1));
                }
            },
            None => {},
        }
    }
    proof {
        assert(rev_chars(stack@) =~= Seq::<char>::empty());
        assert(post@ =~= post@ + rev_chars(stack@));
    }
    (pre, post)
}

/// A leaf node for one token: words and clocks render verbatim, operator
/// runs become symbols, the comma becomes the breakable delimiter.  A
/// bracket that reaches here (a close that nothing opened) is kept as a
/// plain symbol.
fn leaf_for(t: Token, data: &Vec<char>) -> (n: Node)
    requires
        token_wf(t, data@),
    ensures
        node_wf(n, data@),
        n.role matches Role::General,
        n.start == t.start,
        n.end == t.end,
        gview(n) == gleaf(t),
{
    let kind = match t.kind {
        TokKind::Word => Kind::Text,
        TokKind::Time => Kind::Time,
        TokKind::Op => Kind::Symbol,
        TokKind::Comma => Kind::Comma,
        TokKind::Open => Kind::Symbol,
        TokKind::Close => Kind::Symbol,
    };
    let n = Node { kind, role: Role::General, start: t.start, end: t.end, children: Vec::new() };
    proof {
        assert(n.children@.len() == 0);
        assert(gview(n) =~= gleaf(t));
    }
    n
}

/// The start of the first unit, or `dflt` while no unit has been
/// collected.
pub open spec fn unit_lo(units: Seq<Node>, dflt: int) -> int {
    if units.len() > 0 {
        units[0].start as int
    } else {
        dflt
    }
}

/// The first character of the segment a descent starts at: the start of
/// its first token, or the end of the text when no token is left.
pub open spec fn seg_lo(ts: Seq<Token>, i: int, data: Seq<char>) -> int {
    if i < ts.len() {
        ts[i].start as int
    } else {
        data.len() as int
    }
}

/// The last character the descent has consumed: the end of its last
/// consumed token, or the segment start when it consumed none.
pub open spec fn seg_hi(ts: Seq<Token>, i0: int, i1: int, data: Seq<char>) -> int {
    if i1 > i0 {
        ts[i1 - 1].end as int
    } else {
        seg_lo(ts, i0, data)
    }
}

/// Build one element node out of the collected units: a single unit stands
/// alone, several units form an operand-operator chain when an operator is
/// among them and a generic juxtaposition otherwise.
fn make_element(units: Vec<Node>, has_op: bool, data: &Vec<char>) -> (n: Node)
    requires
        units@.len() >= 1,
        forall|k: int| 0 <= k < units@.len() ==> node_wf(#[trigger] units@[k], data@),
        forall|k: int| 0 <= k < units@.len() ==> (#[trigger] units@[k]).role matches Role::General,
        forall|a: int, b: int|
            0 <= a < b < units@.len() ==> (#[trigger] units@[a]).end <= (#[trigger] units@[b]).start,
        forall|p: int|
            units@[0].start <= p < units@.last().end && !is_ws(data@[p]) ==> covered(units@, p),
    ensures
        node_wf(n, data@),
        n.role matches Role::General,
        n.start == units@[0].start,
        n.end == units@.last().end,
        gview(n) == gelement(gseq(units@), has_op),
{
    let ghost uv = units@;
    if units.len() == 1 {
        let mut units = units;
        let n = units.remove(0);
        proof {
            assert(node_wf(n, data@));
            assert(gseq(uv)[0] == gview(uv[0]));
            assert(gview(n) == gelement(gseq(uv), has_op));
        }
        n
    } else {
        let start = units[0].start;
        let end = units[units.len() - 1].end;
        let kind = if has_op {
            Kind::BinaryOp
        } else {
            Kind::Group
        };
        let n = Node { kind, role: Role::General, start, end, children: units };
        proof {
            assert(n.children@ == units@);
            assert forall|k: int| 0 <= k < n.children@.len() implies n.start
                <= (#[trigger] n.children@[k]).start && n.children@[k].start <= n.children@[k].end
                && n.children@[k].end <= n.end by {
                assert(node_wf(n.children@[k], data@));
                if k > 0 {
                    assert(n.children@[0].end <= n.children@[k].start);
                }
                if k < n.children@.len() - 1 {
                    assert(n.children@[k].end <= n.children@[n.children@.len() - 1].start);
                    assert(node_wf(n.children@[n.children@.len() - 1], data@));
                }
            }
            assert(node_wf(n, data@));
            lemma_gview_children(n);
            assert(gseq(uv)[0] == gview(uv[0]));
            assert(gseq(uv).last() == gview(uv.last()));
            assert(gview(n) =~= gelement(gseq(uv), has_op));
        }
        n
    }
}

/// Build a container node: the opening bracket child, the inner siblings,
/// and the closing bracket child when one was found.
fn make_container(
    data: &Vec<char>,
    open_t: Token,
    inner: Vec<Node>,
    close_t: Option<Token>,
) -> (n: Node)
    requires
        token_wf(open_t, data@),
        open_t.kind matches TokKind::Open,
        close_t matches Some(ct) ==> token_wf(ct, data@) && (ct.kind matches TokKind::Close)
            && open_t.end <= ct.start,
        forall|k: int| 0 <= k < inner@.len() ==> node_wf(#[trigger] inner@[k], data@),
        forall|k: int| 0 <= k < inner@.len() ==> (#[trigger] inner@[k]).role matches Role::General,
        forall|a: int, b: int|
            0 <= a < b < inner@.len() ==> (#[trigger] inner@[a]).end <= (#[trigger] inner@[b]).start,
        forall|k: int|
            0 <= k < inner@.len() ==> open_t.end <= (#[trigger] inner@[k]).start,
        close_t matches Some(ct) ==> forall|k: int|
            0 <= k < inner@.len() ==> (#[trigger] inner@[k]).end <= ct.start,
        forall|p: int|
            open_t.end <= p < spec_container_end(open_t, inner@, close_t) && !is_ws(data@[p])
                ==> covered(inner@, p) || (close_t matches Some(ct) && ct.start <= p),
    ensures
        node_wf(n, data@),
        n.role matches Role::General,
        n.kind matches Kind::Container,
        n.start == open_t.start,
        n.end as int == spec_container_end(open_t, inner@, close_t),
        gview(n) == gcontainer(open_t, gseq(inner@), close_t),
{
    let mut children: Vec<Node> = Vec::new();
    children.push(
        Node {
            kind: Kind::Symbol,
            role: Role::Open,
            start: open_t.start,
            end: open_t.end,
            children: Vec::new(),
        },
    );
    let ghost oc = children@[0];
    proof {
        assert(oc.role matches Role::Open);
        assert(oc.kind matches Kind::Symbol);
        assert(oc.start == open_t.start && oc.end == open_t.end);
        assert(oc.children@.len() == 0);
        assert(node_wf(oc, data@));
    }
    let inner_len = inner.len();
    let mut end: usize = if inner_len > 0 {
        inner[inner_len - 1].end
    } else {
        open_t.end
    };
    let mut inner = inner;
    let ghost innerv = inner@;
    children.append(&mut inner);
    proof {
        assert(children@ =~= seq![oc] + innerv);
    }
    let mut close_found = false;
    match close_t {
        Some(ct) => {
            children.push(
                Node {
                    kind: Kind::Symbol,
                    role: Role::Close,
                    start: ct.start,
                    end: ct.end,
                    children: Vec::new(),
                },
            );
            end = ct.end;
            close_found = true;
        },
        None => {},
    }
    let ghost ilen = innerv.len() as int;
    let ghost cc = children@[children@.len() - 1];
    proof {
        if close_t is Some {
            let ct = close_t->Some_0;
            assert(children@ =~= seq![oc] + innerv + seq![cc]);
            assert(cc.role matches Role::Close);
            assert(cc.kind matches Kind::Symbol);
            assert(cc.start == ct.start && cc.end == ct.end);
            assert(cc.children@.len() == 0);
            assert(node_wf(cc, data@));
        }
    }
    let n = Node {
        kind: Kind::Container,
        role: Role::General,
        start: open_t.start,
        end,
        children,
    };
    proof {
        let ch = n.children@;
        if close_t is Some {
            assert(ch =~= seq![oc] + innerv + seq![cc]);
            assert(ch.len() == 2 + ilen);
        } else {
            assert(ch =~= seq![oc] + innerv);
            assert(ch.len() == 1 + ilen);
        }
        assert(ch[0] == oc);
        assert forall|k: int| 0 <= k < ilen implies ch[k + 1] == innerv[k] by {
            if close_t is Some {
                assert(ch[k + 1] == (seq![oc] + innerv + seq![cc])[k + 1]);
            } else {
                assert(ch[k + 1] == (seq![oc] + innerv)[k + 1]);
            }
        }
        assert forall|k: int| 0 <= k < ch.len() implies node_wf(#[trigger] ch[k], data@)
            && crate::tree::role_wf(ch[k], k, ch.len() as int) && n.start <= ch[k].start
            && ch[k].start <= ch[k].end && ch[k].end <= n.end by {
            if k == 0 {
                assert(ch[k] == oc);
            } else if k < 1 + ilen {
                assert(ch[k] == innerv[k - 1]);
                assert(node_wf(innerv[k - 1], data@));
                assert(innerv[k - 1].role matches Role::General);
                if k < ilen {
                    assert(innerv[k - 1].end <= innerv[ilen - 1].start);
                    assert(node_wf(innerv[ilen - 1], data@));
                }
                assert(end as int >= innerv[ilen - 1].end) by {
                    if close_t is Some {
                        let ct = close_t->Some_0;
                        assert(innerv[ilen - 1].end <= ct.start);
                    }
                }
            } else {
                assert(ch[k] == cc);
                assert(k == ch.len() - 1);
            }
        }
        assert forall|a: int, b: int| 0 <= a < b < ch.len() implies (#[trigger] ch[a]).end
            <= (#[trigger] ch[b]).start by {
            if a == 0 {
                if b < 1 + ilen {
                    assert(ch[b] == innerv[b - 1]);
                } else {
                    assert(ch[b] == cc);
                }
            } else if a < 1 + ilen {
                assert(ch[a] == innerv[a - 1]);
                if b < 1 + ilen {
                    assert(ch[b] == innerv[b - 1]);
                } else {
                    assert(ch[b] == cc);
                    assert(innerv[a - 1].end <= cc.start) by {
                        let ct = close_t->Some_0;
                        assert(innerv[a - 1].end <= ct.start);
                    }
                }
            }
        }
        assert forall|p: int| n.start <= p < n.end && !is_ws(data@[p]) implies covered(
            ch,
            p,
        ) by {
            if p < open_t.end {
                assert(ch[0].start <= p < ch[0].end);
            } else {
                assert(open_t.end <= p < spec_container_end(open_t, innerv, close_t));
                if covered(innerv, p) {
                    let w = choose|w: int|
                        0 <= w < innerv.len() && (#[trigger] innerv[w]).start <= p < innerv[w].end;
                    assert(ch[w + 1] == innerv[w]);
                    assert(ch[w + 1].start <= p < ch[w + 1].end);
                } else {
                    assert(ch[ch.len() - 1].start <= p < ch[ch.len() - 1].end);
                }
            }
        }
        assert(node_wf(n, data@));
        lemma_gview_children(n);
        assert(gview(oc) =~= (gcontainer(open_t, gseq(innerv), close_t).children)[0]);
        assert forall|w: int| 0 <= w < innerv.len() implies #[trigger] gseq(ch)[w + 1] == gseq(
            innerv,
        )[w] by {
            assert(gseq(ch)[w + 1] == gview(ch[w + 1]));
            assert(ch[w + 1] == innerv[w]);
        }
        if close_t is Some {
            assert(gview(cc) =~= gcontainer(open_t, gseq(innerv), close_t).children[ch.len()
                - 1]);
            assert(gseq(ch) =~= gcontainer(open_t, gseq(innerv), close_t).children);
        } else {
            assert(gseq(ch) =~= gcontainer(open_t, gseq(innerv), close_t).children);
        }
        assert(gview(n) =~= gcontainer(open_t, gseq(innerv), close_t));
    }
    n
}

/// Where a container ends: at its closing bracket, at its last inner
/// sibling, or right after its opening bracket when it is empty and
/// unclosed.
pub open spec fn spec_container_end(open_t: Token, inner: Seq<Node>, close_t: Option<Token>) -> int {
    match close_t {
        Some(ct) => ct.end as int,
        None => if inner.len() > 0 {
            inner.last().end as int
        } else {
            open_t.end as int
        },
    }
}

/// Close the element under construction, if any, and append it to the
/// finished siblings.
fn flush_units(
    elems: &mut Vec<Node>,
    units: Vec<Node>,
    has_op: bool,
    data: &Vec<char>,
    Ghost(lo): Ghost<int>,
    Ghost(done): Ghost<int>,
)
    requires
        forall|k: int| 0 <= k < old(elems)@.len() ==> node_wf(#[trigger] old(elems)@[k], data@),
        forall|k: int|
            0 <= k < old(elems)@.len() ==> (#[trigger] old(elems)@[k]).role matches Role::General,
        forall|a: int, b: int|
            0 <= a < b < old(elems)@.len() ==> (#[trigger] old(elems)@[a]).end
                <= (#[trigger] old(elems)@[b]).start,
        forall|k: int|
            0 <= k < old(elems)@.len() ==> lo <= (#[trigger] old(elems)@[k]).start
                && old(elems)@[k].end as int <= unit_lo(units@, done),
        forall|q: int|
            lo <= q < unit_lo(units@, done) && !is_ws(data@[q]) ==> covered(old(elems)@, q),
        forall|k: int| 0 <= k < units@.len() ==> node_wf(#[trigger] units@[k], data@),
        forall|k: int| 0 <= k < units@.len() ==> (#[trigger] units@[k]).role matches Role::General,
        forall|a: int, b: int|
            0 <= a < b < units@.len() ==> (#[trigger] units@[a]).end <= (#[trigger] units@[b]).start,
        forall|k: int|
            0 <= k < units@.len() ==> lo <= (#[trigger] units@[k]).start && units@[k].end as int
                <= done,
        units@.len() > 0 ==> units@.last().end as int == done,
        forall|q: int|
            unit_lo(units@, done) <= q < done && !is_ws(data@[q]) ==> covered(units@, q),
        old(elems)@.len() > 0 && units@.len() == 0 ==> old(elems)@.last().end as int == done,
        lo <= unit_lo(units@, done) <= done,
    ensures
        forall|k: int| 0 <= k < final(elems)@.len() ==> node_wf(#[trigger] final(elems)@[k], data@),
        forall|k: int|
            0 <= k < final(elems)@.len() ==> (#[trigger] final(elems)@[k]).role matches Role::General,
        forall|a: int, b: int|
            0 <= a < b < final(elems)@.len() ==> (#[trigger] final(elems)@[a]).end
                <= (#[trigger] final(elems)@[b]).start,
        forall|k: int|
            0 <= k < final(elems)@.len() ==> lo <= (#[trigger] final(elems)@[k]).start
                && final(elems)@[k].end as int <= done,
        forall|q: int| lo <= q < done && !is_ws(data@[q]) ==> covered(final(elems)@, q),
        final(elems)@.len() > 0 ==> final(elems)@.last().end as int == done,
        final(elems)@.len() == 0 ==> old(elems)@.len() == 0 && units@.len() == 0,
        final(elems)@.len() == old(elems)@.len() + (if units@.len() > 0 {
            1int
        } else {
            0int
        }),
        gseq(final(elems)@) == gflush(gseq(old(elems)@), gseq(units@), has_op),
{
    let ghost ulo = unit_lo(units@, done);
    let ghost uvg = gseq(units@);
    if units.len() > 0 {
        let ghost uv = units@;
        let el = make_element(units, has_op, data);
        let ghost e0 = elems@;
        elems.push(el);
        proof {
            crate::tree::lemma_gseq_push(e0, el);
            assert(gseq(elems@) == gseq(e0).push(gelement(uvg, has_op)));
            assert(el.start == uv[0].start && el.end as int == done);
            assert forall|q: int| lo <= q < done && !is_ws(data@[q]) implies covered(
                elems@,
                q,
            ) by {
                if q < ulo {
                    assert(covered(e0, q));
                    let m = choose|m: int|
                        0 <= m < e0.len() && (#[trigger] e0[m]).start <= q < e0[m].end;
                    assert(elems@[m].start <= q < elems@[m].end);
                } else {
                    assert(elems@[e0.len() as int].start <= q < elems@[e0.len() as int].end);
                }
            }
        }
    } else {
        proof {
            assert(gseq(elems@) == gflush(gseq(elems@), uvg, has_op));
            assert forall|q: int| lo <= q < done && !is_ws(data@[q]) implies covered(
                elems@,
                q,
            ) by {
                assert(q < ulo);
            }
        }
    }
}

/// Wrap the sibling elements of one nesting level into at most one node:
/// nothing for none, the element itself for one, and a comma-delimited
/// sequence (or a generic group, when no comma is present) for several.
fn wrap_siblings(ch: Vec<Node>, data: &Vec<char>) -> (r: Vec<Node>)
    requires
        forall|k: int| 0 <= k < ch@.len() ==> node_wf(#[trigger] ch@[k], data@),
        forall|k: int| 0 <= k < ch@.len() ==> (#[trigger] ch@[k]).role matches Role::General,
        forall|a: int, b: int|
            0 <= a < b < ch@.len() ==> (#[trigger] ch@[a]).end <= (#[trigger] ch@[b]).start,
        ch@.len() > 0 ==> forall|p: int|
            ch@[0].start <= p < ch@.last().end && !is_ws(data@[p]) ==> covered(ch@, p),
    ensures
        ch@.len() == 0 ==> r@.len() == 0,
        ch@.len() > 0 ==> r@.len() == 1 && node_wf(r@[0], data@) && (
        r@[0].role matches Role::General) && r@[0].start == ch@[0].start && r@[0].end
            == ch@.last().end,
        gseq(r@) == gwrap(gseq(ch@)),
{
    let ghost chv0 = ch@;
    let mut r: Vec<Node> = Vec::new();
    if ch.len() == 0 {
        proof {
            assert(gseq(r@) =~= Seq::<GNode>::empty());
            assert(gseq(chv0) =~= Seq::<GNode>::empty());
        }
        return r;
    }
    if ch.len() == 1 {
        let mut ch = ch;
        let n = ch.remove(0);
        proof {
            assert(node_wf(n, data@));
        }
        r.push(n);
        proof {
            assert(gseq(r@) =~= seq![gview(chv0[0])]);
            assert(gseq(chv0) =~= seq![gview(chv0[0])]);
        }
        return r;
    }
    let mut hascomma = false;
    let mut k: usize = 0;
    while k < ch.len()
        invariant
            k <= ch@.len(),
            ch@ == chv0,
            hascomma == exists|q: int|
                0 <= q < k && ((#[trigger] ch@[q]).kind matches Kind::Comma),
        decreases ch@.len() - k,
    {
        let iscomma = match ch[k].kind {
            Kind::Comma => true,
            _ => false,
        };
        if iscomma {
            hascomma = true;
        }
        proof {
            assert(hascomma == exists|q: int|
                0 <= q < k + 1 && ((#[trigger] ch@[q]).kind matches Kind::Comma));
        }
        k = k + 1;
    }
    let start = ch[0].start;
    let end = ch[ch.len() - 1].end;
    let ghost chv = ch@;
    let n = Node {
        kind: if hascomma {
            Kind::CommaSeq
        } else {
            Kind::Group
        },
        role: Role::General,
        start,
        end,
        children: ch,
    };
    proof {
        assert(n.children@ == chv);
        assert(node_wf(chv[0], data@));
        assert(node_wf(chv[chv.len() - 1], data@));
        assert forall|j: int| 0 <= j < chv.len() implies n.start <= (#[trigger] chv[j]).start
            && chv[j].start <= chv[j].end && chv[j].end <= n.end by {
            assert(node_wf(chv[j], data@));
            if j > 0 {
                assert(chv[0].end <= chv[j].start);
            }
            if j < chv.len() - 1 {
                assert(chv[j].end <= chv[chv.len() - 1].start);
            }
        }
        assert(node_wf(n, data@));
        lemma_gview_children(n);
        assert forall|q: int| 0 <= q < chv.len() implies (#[trigger] gseq(chv)[q]).kind
            == chv[q].kind by {
            assert(gseq(chv)[q] == gview(chv[q]));
        }
        assert(hascomma == exists|q: int|
            0 <= q < gseq(chv).len() && ((#[trigger] gseq(chv)[q]).kind matches Kind::Comma)) by {
            if hascomma {
                let w = choose|q: int|
                    0 <= q < chv.len() && ((#[trigger] chv[q]).kind matches Kind::Comma);
                assert(gseq(chv)[w].kind == chv[w].kind);
            }
            if exists|q: int|
                0 <= q < gseq(chv).len() && ((#[trigger] gseq(chv)[q]).kind matches Kind::Comma) {
                let w = choose|q: int|
                    0 <= q < gseq(chv).len() && ((#[trigger] gseq(chv)[q]).kind
                        matches Kind::Comma);
                assert(chv[w].kind == gseq(chv)[w].kind);
            }
        }
        assert(gseq(chv)[0] == gview(chv[0]));
        assert(gseq(chv).last() == gview(chv.last()));
        assert(gview(n) =~= gwrap(gseq(chv))[0]);
    }
    r.push(n);
    proof {
        assert(gseq(r@) =~= seq![gview(n)]);
        assert(gseq(r@) =~= gwrap(gseq(chv)));
    }
    r
}

/// The descent over one nesting level, from token `p` on, carrying the
/// state accumulated so far: the finished sibling elements, the units of
/// the element under construction, and whether an operator is among them.
/// A comma closes the element; an opening bracket parses its inner level
/// recursively and wraps it in a container; the matching closing bracket —
/// or the end of the tokens — closes the level.
pub open spec fn pseq(
    ts: Seq<Token>,
    d: Seq<char>,
    closing: char,
    has_closing: bool,
    elems: Seq<GNode>,
    units: Seq<GNode>,
    has_op: bool,
    p: int,
) -> (Seq<GNode>, int)
    decreases ts.len() - p,
{
    if p < 0 || p >= ts.len() {
        (gflush(elems, units, has_op), p)
    } else {
        let t = ts[p];
        match t.kind {
            TokKind::Comma => pseq(
                ts,
                d,
                closing,
                has_closing,
                gflush(elems, units, has_op).push(gleaf(t)),
                Seq::empty(),
                false,
                p + 1,
            ),
            TokKind::Open => {
                let c = d[t.start as int];
                let r = pseq(ts, d, close_of(c), true, Seq::empty(), Seq::empty(), false, p + 1);
                let p2 = if r.1 < p + 1 {
                    p + 1
                } else if r.1 > ts.len() {
                    ts.len() as int
                } else {
                    r.1
                };
                let ct = if p2 < ts.len() {
                    Some(ts[p2])
                } else {
                    None::<Token>
                };
                let p3 = if p2 < ts.len() {
                    p2 + 1
                } else {
                    p2
                };
                pseq(
                    ts,
                    d,
                    closing,
                    has_closing,
                    elems,
                    units.push(gcontainer(t, gwrap(r.0), ct)),
                    has_op,
                    p3,
                )
            },
            TokKind::Close => {
                if has_closing && d[t.start as int] == closing {
                    (gflush(elems, units, has_op), p)
                } else {
                    pseq(ts, d, closing, has_closing, elems, units.push(gleaf(t)), has_op, p + 1)
                }
            },
            TokKind::Op => pseq(
                ts,
                d,
                closing,
                has_closing,
                elems,
                units.push(gleaf(t)),
                true,
                p + 1,
            ),
            _ => pseq(ts, d, closing, has_closing, elems, units.push(gleaf(t)), has_op, p + 1),
        }
    }
}

/// One pass of the descent over the tokens, from `pos` on: collects the
/// sibling elements of one nesting level, separated by commas, descending
/// into containers, until the matching closing bracket (`closing`, when
/// `has_closing` is set) or the end of the tokens.
#[verifier::rlimit(100)]
fn parse_seq(
    ts: &Vec<Token>,
    data: &Vec<char>,
    pos: usize,
    closing: char,
    has_closing: bool,
) -> (r: (Vec<Node>, usize))
    requires
        tokens_wf(ts@, data@),
        pos <= ts@.len(),
    ensures
        pos <= r.1 <= ts@.len(),
        !has_closing ==> r.1 == ts@.len(),
        has_closing ==> r.1 == ts@.len() || ((ts@[r.1 as int].kind matches TokKind::Close)
            && data@[ts@[r.1 as int].start as int] == closing),
        forall|k: int| 0 <= k < r.0@.len() ==> node_wf(#[trigger] r.0@[k], data@),
        forall|k: int| 0 <= k < r.0@.len() ==> (#[trigger] r.0@[k]).role matches Role::General,
        forall|a: int, b: int|
            0 <= a < b < r.0@.len() ==> (#[trigger] r.0@[a]).end <= (#[trigger] r.0@[b]).start,
        forall|k: int|
            0 <= k < r.0@.len() ==> seg_lo(ts@, pos as int, data@) <= (#[trigger] r.0@[k]).start
                && r.0@[k].end as int <= seg_hi(ts@, pos as int, r.1 as int, data@),
        forall|p: int|
            seg_lo(ts@, pos as int, data@) <= p < seg_hi(ts@, pos as int, r.1 as int, data@)
                && !is_ws(data@[p]) ==> covered(r.0@, p),
        r.0@.len() > 0 ==> r.0@.last().end as int == seg_hi(ts@, pos as int, r.1 as int, data@),
        r.0@.len() == 0 ==> r.1 == pos,
        r.0@.len() > 0 ==> r.1 > pos,
        gseq(r.0@) == pseq(
            ts@,
            data@,
            closing,
            has_closing,
            Seq::empty(),
            Seq::empty(),
            false,
            pos as int,
        ).0,
        r.1 as int == pseq(
            ts@,
            data@,
            closing,
            has_closing,
            Seq::empty(),
            Seq::empty(),
            false,
            pos as int,
        ).1,
    decreases ts@.len() - pos,
{
    let mut elems: Vec<Node> = Vec::new();
    let mut units: Vec<Node> = Vec::new();
    let mut has_op = false;
    let mut p: usize = pos;
    let mut stopped = false;
    let ghost lo = seg_lo(ts@, pos as int, data@);
    let ghost whole = pseq(
        ts@,
        data@,
        closing,
        has_closing,
        Seq::empty(),
        Seq::empty(),
        false,
        pos as int,
    );
    proof {
        if pos < ts@.len() {
            assert(token_wf(ts@[pos as int], data@));
        }
        assert(gseq(elems@) =~= Seq::<GNode>::empty());
        assert(gseq(units@) =~= Seq::<GNode>::empty());
    }
    while p < ts.len() && !stopped
        invariant
            tokens_wf(ts@, data@),
            pos <= p <= ts@.len(),
            lo == seg_lo(ts@, pos as int, data@),
            0 <= lo <= seg_hi(ts@, pos as int, p as int, data@) <= data@.len(),
            forall|k: int| 0 <= k < elems@.len() ==> node_wf(#[trigger] elems@[k], data@),
            forall|k: int|
                0 <= k < elems@.len() ==> (#[trigger] elems@[k]).role matches Role::General,
            forall|a: int, b: int|
                0 <= a < b < elems@.len() ==> (#[trigger] elems@[a]).end
                    <= (#[trigger] elems@[b]).start,
            forall|k: int|
                0 <= k < elems@.len() ==> lo <= (#[trigger] elems@[k]).start && elems@[k].end as int
                    <= unit_lo(units@, seg_hi(ts@, pos as int, p as int, data@)),
            forall|k: int| 0 <= k < units@.len() ==> node_wf(#[trigger] units@[k], data@),
            forall|k: int|
                0 <= k < units@.len() ==> (#[trigger] units@[k]).role matches Role::General,
            forall|a: int, b: int|
                0 <= a < b < units@.len() ==> (#[trigger] units@[a]).end
                    <= (#[trigger] units@[b]).start,
            forall|k: int|
                0 <= k < units@.len() ==> lo <= (#[trigger] units@[k]).start && units@[k].end as int
                    <= seg_hi(ts@, pos as int, p as int, data@),
            units@.len() > 0 ==> units@.last().end as int == seg_hi(ts@, pos as int, p as int, data@),
            lo <= unit_lo(units@, seg_hi(ts@, pos as int, p as int, data@)),
            forall|q: int|
                lo <= q < unit_lo(units@, seg_hi(ts@, pos as int, p as int, data@)) && !is_ws(
                    data@[q],
                ) ==> covered(elems@, q),
            forall|q: int|
                unit_lo(units@, seg_hi(ts@, pos as int, p as int, data@)) <= q < seg_hi(
                    ts@,
                    pos as int,
                    p as int,
                    data@,
                ) && !is_ws(data@[q]) ==> covered(units@, q),
            elems@.len() > 0 && units@.len() == 0 ==> elems@.last().end as int == seg_hi(
                ts@,
                pos as int,
                p as int,
                data@,
            ),
            elems@.len() == 0 && units@.len() == 0 ==> p == pos,
            p == pos ==> elems@.len() == 0 && units@.len() == 0,
            stopped ==> has_closing && p < ts@.len() && (ts@[p as int].kind matches TokKind::Close)
                && data@[ts@[p as int].start as int] == closing,
            !has_closing ==> !stopped,
            whole == (if stopped {
                (gflush(gseq(elems@), gseq(units@), has_op), p as int)
            } else {
                pseq(
                    ts@,
                    data@,
                    closing,
                    has_closing,
                    gseq(elems@),
                    gseq(units@),
                    has_op,
                    p as int,
                )
            }),
        decreases ts@.len() - p + (if stopped {
            0int
        } else {
            1int
        }),
    {
        let ghost e0g = gseq(elems@);
        let ghost u0g = gseq(units@);
        let ghost ho0 = has_op;
        let ghost p0 = p as int;
        let t = ts[p];
        let ghost done0 = seg_hi(ts@, pos as int, p as int, data@);
        proof {
            assert(token_wf(ts@[p as int], data@));
            lemma_tok_gap(ts@, data@, p as int);
            assert(done0 <= t.start) by {
                if p > pos {
                    assert(ts@[p as int - 1].end <= ts@[p as int].start);
                }
            }
            assert forall|q: int| done0 <= q < t.start implies is_ws(#[trigger] data@[q]) by {
                assert(p > pos);
            }
        }
        let mut consume_symbol = false;
        match t.kind {
            TokKind::Comma => {
                let u = units;
                units = Vec::new();
                flush_units(&mut elems, u, has_op, data, Ghost(lo), Ghost(done0));
                has_op = false;
                let nd = leaf_for(t, data);
                let ghost e1 = elems@;
                elems.push(nd);
                proof {
                    assert(unit_lo(units@, seg_hi(ts@, pos as int, p as int + 1, data@)) == t.end);
                    assert forall|q: int|
                        lo <= q < t.end && !is_ws(data@[q]) implies covered(elems@, q) by {
                        if q < done0 {
                            assert(covered(e1, q));
                            let m = choose|m: int|
                                0 <= m < e1.len() && (#[trigger] e1[m]).start <= q < e1[m].end;
                            assert(elems@[m].start <= q < elems@[m].end);
                        } else if q < t.start {
                            assert(is_ws(data@[q]));
                        } else {
                            assert(elems@[e1.len() as int].start <= q < elems@[e1.len() as int].end);
                        }
                    }
                }
                p = p + 1;
                proof {
                    crate::tree::lemma_gseq_push(e1, nd);
                    assert(gseq(e1) == gflush(e0g, u0g, ho0));
                    assert(gseq(elems@) == gflush(e0g, u0g, ho0).push(gleaf(ts@[p0])));
                    assert(gseq(units@) =~= Seq::<GNode>::empty());
                    assert(pseq(ts@, data@, closing, has_closing, e0g, u0g, ho0, p0) == pseq(
                        ts@,
                        data@,
                        closing,
                        has_closing,
                        gseq(elems@),
                        gseq(units@),
                        has_op,
                        p as int,
                    ));
                }
            },
            TokKind::Open => {
                let c = char_at(data, t.start);
                let cc = close_of_x(c);
                let (inner, p2) = parse_seq(ts, data, p + 1, cc, true);
                let ghost iv = inner@;
                let mut close_tok: Option<Token> = None;
                let mut p3 = p2;
                if p2 < ts.len() {
                    close_tok = Some(ts[p2]);
                    p3 = p2 + 1;
                }
                proof {
                    assert(t.end as int <= seg_lo(ts@, p as int + 1, data@)) by {
                        if p + 1 < ts@.len() {
                            assert(ts@[p as int].end <= ts@[p as int + 1].start);
                        } else {
                            assert(token_wf(ts@[p as int], data@));
                        }
                    }
                    if close_tok is Some {
                        assert(token_wf(ts@[p2 as int], data@));
                        assert(t.end <= ts@[p2 as int].start) by {
                            assert(ts@[p as int].end <= ts@[p2 as int].start);
                        }
                        assert forall|k: int| 0 <= k < iv.len() implies (#[trigger] iv[k]).end
                            <= ts@[p2 as int].start by {
                            assert(iv[k].end as int <= seg_hi(ts@, p as int + 1, p2 as int, data@));
                            if p2 > p + 1 {
                                assert(ts@[p2 as int - 1].end <= ts@[p2 as int].start);
                            }
                        }
                    }
                    lemma_tok_gap(ts@, data@, p as int + 1);
                    lemma_tok_gap(ts@, data@, p2 as int);
                }
                let wrapped = wrap_siblings(inner, data);
                let ghost wv = wrapped@;
                proof {
                    if iv.len() > 0 {
                        assert(wv[0].start == iv[0].start && wv[0].end == iv.last().end);
                        assert(t.end <= wv[0].start) by {
                            assert(t.end as int <= seg_lo(ts@, p as int + 1, data@));
                        }
                        if close_tok is Some {
                            assert(wv[0].end <= ts@[p2 as int].start);
                        }
                        assert(spec_container_end(t, wv, close_tok) == spec_container_end(
                            t,
                            iv,
                            close_tok,
                        ));
                        assert forall|q: int|
                            t.end <= q < spec_container_end(t, wv, close_tok) && !is_ws(
                                data@[q],
                            ) implies covered(wv, q) || (close_tok matches Some(ct)
                            && ct.start <= q) by {
                            if wv[0].start <= q < wv[0].end {
                                assert(covered(wv, q));
                            } else if q < wv[0].start {
                                if q >= seg_lo(ts@, p as int + 1, data@) {
                                    assert(covered(iv, q));
                                    let w = choose|w: int|
                                        0 <= w < iv.len() && (#[trigger] iv[w]).start <= q
                                            < iv[w].end;
                                    if w > 0 {
                                        assert(iv[0].end <= iv[w].start);
                                    }
                                    assert(false);
                                }
                                assert(is_ws(data@[q]));
                            } else {
                                assert(q >= wv[0].end);
                                if close_tok is Some {
                                    if q < ts@[p2 as int].start {
                                        assert(q >= seg_hi(ts@, p as int + 1, p2 as int, data@));
                                        assert(is_ws(data@[q]));
                                    }
                                }
                            }
                        }
                    }
                }
                let nd = make_container(data, t, wrapped, close_tok);
                proof {
                    assert(nd.end as int == seg_hi(ts@, pos as int, p3 as int, data@)) by {
                        if close_tok is Some {
                            assert(ts@[p3 as int - 1] == ts@[p2 as int]);
                        } else {
                            assert(p2 == ts@.len());
                            if iv.len() > 0 {
                                assert(p2 > p + 1);
                                assert(wv[0].end == iv.last().end);
                                assert(iv.last().end as int == seg_hi(
                                    ts@,
                                    p as int + 1,
                                    p2 as int,
                                    data@,
                                ));
                            } else {
                                assert(p2 == p + 1);
                            }
                        }
                    }
                }
                let ghost u0 = units@;
                units.push(nd);
                proof {
                    let done3 = seg_hi(ts@, pos as int, p3 as int, data@);
                    assert(units@.last() == nd);
                    assert forall|a: int, b: int| 0 <= a < b < units@.len() implies (
                    #[trigger] units@[a]).end <= (#[trigger] units@[b]).start by {
                        if b < u0.len() {
                            assert(units@[a] == u0[a] && units@[b] == u0[b]);
                        } else {
                            if a < u0.len() {
                                assert(units@[a] == u0[a]);
                                assert(u0[a].end <= done0);
                            }
                        }
                    }
                    assert forall|q: int|
                        unit_lo(units@, done3) <= q < done3 && !is_ws(data@[q]) implies covered(
                        units@,
                        q,
                    ) by {
                        if q < done0 {
                            assert(covered(u0, q));
                            let m = choose|m: int|
                                0 <= m < u0.len() && (#[trigger] u0[m]).start <= q < u0[m].end;
                            assert(units@[m].start <= q < units@[m].end);
                        } else if q < t.start {
                            assert(is_ws(data@[q]));
                        } else {
                            assert(units@[u0.len() as int].start <= q < units@[u0.len() as int].end);
                        }
                    }
                }
                p = p3;
                proof {
                    crate::tree::lemma_gseq_push(u0, nd);
                    let sub = pseq(
                        ts@,
                        data@,
                        close_of(data@[ts@[p0].start as int]),
                        true,
                        Seq::empty(),
                        Seq::empty(),
                        false,
                        p0 + 1,
                    );
                    assert(gseq(iv) == sub.0 && p2 as int == sub.1);
                    assert(p0 + 1 <= p2 as int <= ts@.len());
                    assert(gseq(wv) == gwrap(sub.0));
                    assert(gview(nd) == gcontainer(ts@[p0], gwrap(sub.0), close_tok));
                    assert(gseq(units@) == u0g.push(gcontainer(ts@[p0], gwrap(sub.0), close_tok)));
                    assert(pseq(ts@, data@, closing, has_closing, e0g, u0g, ho0, p0) == pseq(
                        ts@,
                        data@,
                        closing,
                        has_closing,
                        gseq(elems@),
                        gseq(units@),
                        has_op,
                        p as int,
                    ));
                }
            },
            TokKind::Close => {
                let c = char_at(data, t.start);
                if has_closing && c == closing {
                    stopped = true;
                    proof {
                        assert(pseq(ts@, data@, closing, has_closing, e0g, u0g, ho0, p0) == (
                        gflush(e0g, u0g, ho0), p0));
                    }
                } else {
                    consume_symbol = true;
                }
            },
            _ => {
                consume_symbol = true;
            },
        }
        if consume_symbol {
            match t.kind {
                TokKind::Op => {
                    has_op = true;
                },
                _ => {},
            }
            let nd = leaf_for(t, data);
            let ghost u0 = units@;
            units.push(nd);
            proof {
                let done1 = seg_hi(ts@, pos as int, p as int + 1, data@);
                assert(done1 == t.end);
                assert(units@.last() == nd);
                assert forall|a: int, b: int| 0 <= a < b < units@.len() implies (
                #[trigger] units@[a]).end <= (#[trigger] units@[b]).start by {
                    if b < u0.len() {
                        assert(units@[a] == u0[a] && units@[b] == u0[b]);
                    } else {
                        if a < u0.len() {
                            assert(units@[a] == u0[a]);
                            assert(u0[a].end <= done0);
                        }
                    }
                }
                assert forall|q: int|
                    unit_lo(units@, done1) <= q < done1 && !is_ws(data@[q]) implies covered(
                    units@,
                    q,
                ) by {
                    if q < done0 {
                        assert(covered(u0, q));
                        let m = choose|m: int|
                            0 <= m < u0.len() && (#[trigger] u0[m]).start <= q < u0[m].end;
                        assert(units@[m].start <= q < units@[m].end);
                    } else if q < t.start {
                        assert(is_ws(data@[q]));
                    } else {
                        assert(units@[u0.len() as int].start <= q < units@[u0.len() as int].end);
                    }
                }
            }
            p = p + 1;
            proof {
                crate::tree::lemma_gseq_push(u0, nd);
                assert(gseq(units@) == u0g.push(gleaf(ts@[p0])));
                assert(pseq(ts@, data@, closing, has_closing, e0g, u0g, ho0, p0) == pseq(
                    ts@,
                    data@,
                    closing,
                    has_closing,
                    gseq(elems@),
                    gseq(units@),
                    has_op,
                    p as int,
                ));
            }
        }
    }
    let ghost donef = seg_hi(ts@, pos as int, p as int, data@);
    proof {
        if !stopped {
            assert(p == ts@.len());
            assert(pseq(
                ts@,
                data@,
                closing,
                has_closing,
                gseq(elems@),
                gseq(units@),
                has_op,
                p as int,
            ) == (gflush(gseq(elems@), gseq(units@), has_op), p as int));
        }
        assert(whole == (gflush(gseq(elems@), gseq(units@), has_op), p as int));
    }
    let u = units;
    flush_units(&mut elems, u, has_op, data, Ghost(lo), Ghost(donef));
    (elems, p)
}

/// A token begins and ends on a meaningful character: whatever its class,
/// its first and last characters are not whitespace.
pub proof fn lemma_token_ends_nonws(t: Token, data: Seq<char>)
    requires
        token_wf(t, data),
        token_classified(t, data),
    ensures
        !is_ws(data[t.start as int]),
        !is_ws(data[t.end - 1]),
{
    match t.kind {
        TokKind::Op => {
            assert(is_op_char(data[t.start as int]));
            assert(is_op_char(data[t.end - 1]));
        },
        TokKind::Time => {
            assert(is_time_char(data[t.end - 1]));
        },
        TokKind::Word => {
            assert(is_word_char(data[t.start as int]));
            assert(is_word_char(data[t.end - 1]));
        },
        _ => {},
    }
}

/// The root node the descent builds for a whole token list: the single
/// wrapped top-level element, or the empty group for an empty list.
pub open spec fn groot(ts: Seq<Token>, d: Seq<char>) -> GNode {
    let r = pseq(ts, d, ' ', false, Seq::empty(), Seq::empty(), false, 0);
    let w = gwrap(r.0);
    if w.len() == 1 {
        w[0]
    } else {
        GNode { kind: Kind::Group, role: Role::General, start: 0, end: 0, children: Seq::empty() }
    }
}

/// The text the parser builds the tree over: the chunk wrapped in the
/// balancing brackets its own tokens call for.
pub open spec fn balanced_text(chunk: Seq<char>) -> Seq<char> {
    let b = balance_spec(toks_from(chunk, 0), chunk);
    b.0 + chunk + b.1
}

/// The tree the parser returns for a chunk, in mathematical form: the
/// descent's root over the balanced text.
pub open spec fn gparse(chunk: Seq<char>) -> GNode {
    groot(toks_from(balanced_text(chunk), 0), balanced_text(chunk))
}

/// Every meaningful (non-whitespace) character of the text lies inside the
/// root's span: nothing the renderer should see falls outside the tree.
pub open spec fn root_covers(root: Node, text: Seq<char>) -> bool {
    forall|p: int| 0 <= p < text.len() && !is_ws(text[p]) ==> root.start <= p < root.end
}

/// The tree's text is the chunk wrapped in the synthesized balancing
/// brackets: opening ones before it, closing ones after it, and nothing
/// else changed.
pub open spec fn wraps(chunk: Seq<char>, text: Seq<char>, a: Seq<char>, b: Seq<char>) -> bool {
    &&& text == a + chunk + b
    &&& forall|i: int| 0 <= i < a.len() ==> is_open_char(#[trigger] a[i])
    &&& forall|i: int| 0 <= i < b.len() ==> is_close_char(#[trigger] b[i])
}

/// What parsing promises of its tree: the root is well-formed over the
/// tree's text, that text is the chunk with balancing brackets synthesized
/// around it, and the root's span covers every meaningful character of the
/// text.
pub open spec fn parse_post(chunk: Seq<char>, text: Seq<char>, root: Node) -> bool {
    &&& node_wf(root, text)
    &&& root_covers(root, text)
    &&& exists|a: Seq<char>, b: Seq<char>| wraps(chunk, text, a, b)
    &&& (toks_from(text, 0).len() > 0 ==> root.start == toks_from(text, 0)[0].start && root.end
        == toks_from(text, 0)[toks_from(text, 0).len() - 1].end)
    &&& (toks_from(text, 0).len() == 0 ==> root.start == 0 && root.end == 0)
}

/// Parse a whole token list into the root node of the tree: the single
/// top-level element, or a comma-delimited sequence (a generic group when
/// no comma is present) of all top-level siblings.
fn parse_root(ts: &Vec<Token>, data: &Vec<char>) -> (n: Node)
    requires
        tokens_wf(ts@, data@),
        forall|k: int| 0 <= k < ts@.len() ==> token_classified(#[trigger] ts@[k], data@),
    ensures
        node_wf(n, data@),
        root_covers(n, data@),
        gview(n) == groot(ts@, data@),
        ts@.len() > 0 ==> n.start == ts@[0].start && n.end == ts@[ts@.len() - 1].end,
        ts@.len() == 0 ==> n.start == 0 && n.end == 0,
{
    let (ch, _p) = parse_seq(ts, data, 0, ' ', false);
    let ghost chv = ch@;
    let mut wrapped = wrap_siblings(ch, data);
    let ghost wv = wrapped@;
    if wrapped.len() == 1 {
        let n = wrapped.remove(0);
        proof {
            assert(node_wf(n, data@));
            assert(chv.len() > 0);
            assert(ts@.len() > 0);
            assert(n == wv[0]);
            assert(gseq(wv)[0] == gview(wv[0]));
            assert(gseq(wv) == gwrap(gseq(chv)));
            assert(gseq(chv) == pseq(
                ts@,
                data@,
                ' ',
                false,
                Seq::empty(),
                Seq::empty(),
                false,
                0,
            ).0);
            assert(gview(n) == groot(ts@, data@));
            assert(token_wf(ts@[0], data@));
            assert(token_classified(ts@[0], data@));
            lemma_token_ends_nonws(ts@[0], data@);
            assert(token_wf(ts@[ts@.len() - 1], data@));
            assert(ts@[0].start < seg_hi(ts@, 0, ts@.len() as int, data@)) by {
                if ts@.len() > 1 {
                    assert(ts@[0].end <= ts@[ts@.len() - 1].start);
                }
            }
            assert(covered(chv, ts@[0].start as int));
            let i = choose|i: int|
                0 <= i < chv.len() && (#[trigger] chv[i]).start <= ts@[0].start as int
                    && (ts@[0].start as int) < chv[i].end;
            assert(node_wf(chv[0], data@));
            if i > 0 {
                assert(chv[0].end <= chv[i].start);
            }
            assert(chv[0].start == ts@[0].start);
            assert(n.start == chv[0].start && n.end == chv.last().end);
            assert(chv.last().end as int == seg_hi(ts@, 0, ts@.len() as int, data@));
            assert(n.end == ts@[ts@.len() - 1].end);
            assert forall|p: int| 0 <= p < data@.len() && !is_ws(data@[p]) implies n.start <= p
                < n.end by {
                assert(tok_covered(ts@, p));
                let m = choose|m: int|
                    0 <= m < ts@.len() && (#[trigger] ts@[m]).start <= p < ts@[m].end;
                assert(token_wf(ts@[m], data@));
                assert(token_wf(ts@[0], data@));
                assert(token_wf(ts@[ts@.len() - 1], data@));
                if m > 0 {
                    assert(ts@[0].end <= ts@[m].start);
                }
                if m < ts@.len() - 1 {
                    assert(ts@[m].end <= ts@[ts@.len() - 1].start);
                }
                assert(seg_lo(ts@, 0, data@) <= p < seg_hi(ts@, 0, ts@.len() as int, data@));
                assert(covered(chv, p));
                let i = choose|i: int|
                    0 <= i < chv.len() && (#[trigger] chv[i]).start <= p < chv[i].end;
                if i > 0 {
                    assert(chv[0].end <= chv[i].start);
                }
                if i < chv.len() - 1 {
                    assert(chv[i].end <= chv[chv.len() - 1].start);
                }
            }
        }
        n
    } else {
        let n = Node {
            kind: Kind::Group,
            role: Role::General,
            start: 0,
            end: 0,
            children: Vec::new(),
        };
        proof {
            assert(n.children@.len() == 0);
            assert(node_wf(n, data@));
            assert(chv.len() == 0);
            assert(ts@.len() == 0);
            assert(gseq(chv) =~= Seq::<GNode>::empty());
            assert(gseq(chv) == pseq(
                ts@,
                data@,
                ' ',
                false,
                Seq::empty(),
                Seq::empty(),
                false,
                0,
            ).0);
            assert(gwrap(gseq(chv)).len() == 0);
            assert(gview(n) =~= groot(ts@, data@));
            assert forall|p: int| 0 <= p < data@.len() && !is_ws(data@[p]) implies n.start <= p
                < n.end by {
                assert(tok_covered(ts@, p));
                let m = choose|m: int|
                    0 <= m < ts@.len() && (#[trigger] ts@[m]).start <= p < ts@[m].end;
                assert(false);
            }
        }
        n
    }
}

/// Parse one chunk: tokenize it, synthesize the brackets it is missing
/// around it, and build the tree over the balanced text.  Parsing never
/// fails, and balancing only adds characters: every non-whitespace
/// character of the chunk survives into the tree's text.
pub fn parse_chars(chunk: &Vec<char>) -> (t: Tree)
    ensures
        tree_wf(t),
        covers_nonws(chunk@, t.text@),
        parse_post(chunk@, t.text@, t.root),
        t.text@ == balanced_text(chunk@),
        gview(t.root) == gparse(chunk@),
{
    let ts = tokenize(chunk);
    let (pre, post) = compute_balance(&ts, chunk);
    let mut balanced = pre;
    let ghost prev = balanced@;
    let mut mid = subrange_chars(chunk, 0, chunk.len());
    proof {
        assert(mid@ =~= chunk@);
    }
    balanced.append(&mut mid);
    let ghost prev2 = balanced@;
    let mut tail = post;
    let ghost tailv = tail@;
    balanced.append(&mut tail);
    proof {
        assert forall|c: char| !is_ws(c) implies #[trigger] count_in(chunk@, c) <= count_in(
            balanced@,
            c,
        ) by {
            lemma_count_concat(prev2, tailv, c);
            lemma_count_concat(prev, chunk@, c);
        }
    }
    let ts2 = tokenize(&balanced);
    let root = parse_root(&ts2, &balanced);
    let t = Tree { text: balanced, root };
    proof {
        assert(t.text@ =~= prev + chunk@ + tailv);
        assert(wraps(chunk@, t.text@, prev, tailv));
        assert(t.text@ == balanced_text(chunk@));
        assert(gview(t.root) == gparse(chunk@));
    }
    t
}

/// Parse one chunk of raw text.
pub fn parse(text: &str) -> (t: Tree)
    ensures
        tree_wf(t),
        covers_nonws(text@, t.text@),
        parse_post(text@, t.text@, t.root),
        t.text@ == balanced_text(text@),
        gview(t.root) == gparse(text@),
{
    let chunk = str_to_chars(text);
    parse_chars(&chunk)
}

} // verus!
