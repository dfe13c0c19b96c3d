//! The whitespace normalizer: turns a raw text slice (a gap between
//! meaningful tokens, or a verbatim leaf) into render instructions,
//! collapsing runs of whitespace while keeping blank-line signal.

use vstd::prelude::*;

use crate::chars::{count_in, is_ws, is_ws_char, lemma_count_concat};
use crate::inst::{chars_of, deep, inst_chars, lemma_deep_push, Inst, R};

verus! {

/// The single instruction standing for one character: a space becomes
/// `Space`, a line break becomes `Newline`, anything else is kept verbatim.
pub open spec fn char_inst(c: char) -> Inst {
    if c == ' ' {
        Inst::Space
    } else if c == '\n' {
        Inst::Newline
    } else {
        Inst::Char(c)
    }
}

/// The representative of a whitespace run extended by one more character
/// `c`: a line break anywhere in the run wins; a run of one repeated
/// character keeps that character; a mixed run collapses to a space.
pub open spec fn merge_ws(pending: Option<char>, c: char) -> char {
    match pending {
        Some(w) => if c == '\n' || w == '\n' {
            '\n'
        } else if c == w {
            w
        } else {
            ' '
        },
        None => c,
    }
}

pub open spec fn trim_start(s: Seq<char>) -> Seq<char>
    decreases s.len(),
{
    if s.len() > 0 && is_ws(s[0]) {
        trim_start(s.drop_first())
    } else {
        s
    }
}

pub open spec fn trim_end(s: Seq<char>) -> Seq<char>
    decreases s.len(),
{
    if s.len() > 0 && is_ws(s.last()) {
        trim_end(s.drop_last())
    } else {
        s
    }
}

pub open spec fn trim(s: Seq<char>) -> Seq<char> {
    trim_end(trim_start(s))
}

/// The instruction a pending whitespace run flushes to, if any.
pub open spec fn pend_insts(pending: Option<char>) -> Seq<Inst> {
    match pending {
        Some(w) => seq![char_inst(w)],
        None => Seq::empty(),
    }
}

/// The instruction an accumulated non-whitespace run flushes to, if any.
pub open spec fn run_insts(run: Seq<char>) -> Seq<Inst> {
    if run.len() == 0 {
        Seq::empty()
    } else {
        seq![Inst::Text(run)]
    }
}

/// The collapsing scan over a trimmed slice, from position `i` onward:
/// `pending` is the representative of the whitespace run in progress,
/// `run` the non-whitespace run in progress.
pub open spec fn collapse_from(s: Seq<char>, i: int, pending: Option<char>, run: Seq<char>) -> Seq<
    Inst,
>
    decreases s.len() - i,
{
    if i < 0 || i >= s.len() {
        pend_insts(pending) + run_insts(run)
    } else if is_ws(s[i]) {
        run_insts(run) + collapse_from(s, i + 1, Some(merge_ws(pending, s[i])), Seq::empty())
    } else {
        pend_insts(pending) + collapse_from(s, i + 1, None, run.push(s[i]))
    }
}

/// What the whitespace normalizer produces for a raw slice `s`: nothing for
/// an empty slice, one instruction for a single character, and otherwise the
/// collapsing scan over the trimmed slice.
pub open spec fn minimize_spec(s: Seq<char>) -> Seq<Inst> {
    if s.len() == 0 {
        Seq::empty()
    } else if s.len() == 1 {
        seq![char_inst(s[0])]
    } else {
        collapse_from(trim(s), 0, None, Seq::empty())
    }
}

/// One scan step: how many occurrences of `c` a suffix counts.
proof fn lemma_count_skip_step(s: Seq<char>, i: int, c: char)
    requires
        0 <= i < s.len(),
    ensures
        count_in(s.skip(i), c) == (if s[i] == c {
            1nat
        } else {
            0nat
        }) + count_in(s.skip(i + 1), c),
{
    assert(s.skip(i).drop_first() =~= s.skip(i + 1));
    assert(s.skip(i)[0] == s[i]);
}

/// The collapsing scan preserves every non-whitespace character of the
/// suffix it still has to read, next to those already accumulated in `run`.
proof fn lemma_collapse_counts(s: Seq<char>, i: int, pending: Option<char>, run: Seq<char>, c: char)
    requires
        0 <= i <= s.len(),
        pending matches Some(w) ==> is_ws(w),
        !is_ws(c),
    ensures
        count_in(chars_of(collapse_from(s, i, pending, run)), c) == count_in(run, c) + count_in(
            s.skip(i),
            c,
        ),
    decreases s.len() - i,
{
    lemma_pend_counts(pending, c);
    if i >= s.len() {
        lemma_chars_count_concat(pend_insts(pending), run_insts(run), c);
        lemma_run_counts(run, c);
        assert(s.skip(i) =~= Seq::<char>::empty());
    } else if is_ws(s[i]) {
        let rec = collapse_from(s, i + 1, Some(merge_ws(pending, s[i])), Seq::empty());
        lemma_chars_count_concat(run_insts(run), rec, c);
        lemma_run_counts(run, c);
        lemma_collapse_counts(s, i + 1, Some(merge_ws(pending, s[i])), Seq::empty(), c);
        lemma_count_skip_step(s, i, c);
        assert(count_in(Seq::<char>::empty(), c) == 0);
    } else {
        let rec = collapse_from(s, i + 1, None, run.push(s[i]));
        lemma_chars_count_concat(pend_insts(pending), rec, c);
        lemma_collapse_counts(s, i + 1, None, run.push(s[i]), c);
        lemma_count_skip_step(s, i, c);
        assert(run.push(s[i]) =~= run + seq![s[i]]);
        lemma_count_concat(run, seq![s[i]], c);
        crate::chars::lemma_count_single(s[i], c);
    }
}

/// Counting `c` across the characters of two concatenated instruction
/// sequences.
proof fn lemma_chars_count_concat(a: Seq<Inst>, b: Seq<Inst>, c: char)
    ensures
        count_in(chars_of(a + b), c) == count_in(chars_of(a), c) + count_in(chars_of(b), c),
{
    crate::inst::lemma_chars_of_concat(a, b);
    lemma_count_concat(chars_of(a), chars_of(b), c);
}

/// A flushed whitespace run writes no meaningful character.
proof fn lemma_pend_counts(pending: Option<char>, c: char)
    requires
        pending matches Some(w) ==> is_ws(w),
        !is_ws(c),
    ensures
        count_in(chars_of(pend_insts(pending)), c) == 0,
{
    match pending {
        Some(w) => {
            crate::inst::lemma_chars_of_single(char_inst(w));
            crate::chars::lemma_count_single(w, c);
            assert(inst_chars(char_inst(w)) =~= seq![if w == ' ' {
                ' '
            } else if w == '\n' {
                '\n'
            } else {
                w
            }]);
        },
        None => {
            assert(chars_of(pend_insts(pending)) =~= Seq::<char>::empty());
        },
    }
}

/// A flushed text run writes exactly its characters.
proof fn lemma_run_counts(run: Seq<char>, c: char)
    ensures
        count_in(chars_of(run_insts(run)), c) == count_in(run, c),
{
    if run.len() == 0 {
        assert(chars_of(run_insts(run)) =~= Seq::<char>::empty());
    } else {
        crate::inst::lemma_chars_of_single(Inst::Text(run));
    }
}

/// Trimming leading whitespace drops no meaningful character.
proof fn lemma_trim_start_counts(s: Seq<char>, c: char)
    requires
        !is_ws(c),
    ensures
        count_in(trim_start(s), c) == count_in(s, c),
    decreases s.len(),
{
    if s.len() > 0 && is_ws(s[0]) {
        lemma_trim_start_counts(s.drop_first(), c);
    }
}

/// Trimming trailing whitespace drops no meaningful character.
pub proof fn lemma_trim_end_counts(s: Seq<char>, c: char)
    requires
        !is_ws(c),
    ensures
        count_in(trim_end(s), c) == count_in(s, c),
    decreases s.len(),
{
    if s.len() > 0 && is_ws(s.last()) {
        assert(s =~= s.drop_last() + seq![s.last()]);
        lemma_count_concat(s.drop_last(), seq![s.last()], c);
        crate::chars::lemma_count_single(s.last(), c);
        lemma_trim_end_counts(s.drop_last(), c);
    }
}

/// The whitespace normalizer keeps every non-whitespace character of its
/// input exactly as often as the input holds it.
pub proof fn lemma_minimize_counts(s: Seq<char>, c: char)
    requires
        !is_ws(c),
    ensures
        count_in(chars_of(minimize_spec(s)), c) == count_in(s, c),
{
    if s.len() == 0 {
        assert(chars_of(minimize_spec(s)) =~= Seq::<char>::empty());
    } else if s.len() == 1 {
        assert(minimize_spec(s) == seq![char_inst(s[0])]);
        if is_ws(s[0]) {
            lemma_pend_counts(Some(s[0]), c);
            assert(pend_insts(Some(s[0])) == seq![char_inst(s[0])]);
        } else {
            crate::inst::lemma_chars_of_single(char_inst(s[0]));
            assert(chars_of(minimize_spec(s)) == seq![s[0]]);
        }
        assert(s =~= seq![s[0]]);
        crate::chars::lemma_count_single(s[0], c);
    } else {
        lemma_collapse_counts(trim(s), 0, None, Seq::empty(), c);
        assert(trim(s).skip(0) =~= trim(s));
        assert(count_in(Seq::<char>::empty(), c) == 0);
        lemma_trim_end_counts(trim_start(s), c);
        lemma_trim_start_counts(s, c);
    }
}

/// The collapsing scan moves no indent level.
proof fn lemma_collapse_flat(s: Seq<char>, i: int, pending: Option<char>, run: Seq<char>)
    requires
        0 <= i <= s.len(),
    ensures
        crate::inst::flat(collapse_from(s, i, pending, run)),
    decreases s.len() - i,
{
    if i >= s.len() {
        assert forall|k: int|
            0 <= k < collapse_from(s, i, pending, run).len() implies crate::inst::inst_depth(
            #[trigger] collapse_from(s, i, pending, run)[k],
        ) == 0 by {
            let whole = pend_insts(pending) + run_insts(run);
            assert(collapse_from(s, i, pending, run)[k] == whole[k]);
        }
    } else if is_ws(s[i]) {
        lemma_collapse_flat(s, i + 1, Some(merge_ws(pending, s[i])), Seq::empty());
        let rec = collapse_from(s, i + 1, Some(merge_ws(pending, s[i])), Seq::empty());
        assert forall|k: int|
            0 <= k < collapse_from(s, i, pending, run).len() implies crate::inst::inst_depth(
            #[trigger] collapse_from(s, i, pending, run)[k],
        ) == 0 by {
            let whole = run_insts(run) + rec;
            assert(collapse_from(s, i, pending, run)[k] == whole[k]);
            if k >= run_insts(run).len() {
                assert(whole[k] == rec[k - run_insts(run).len()]);
            }
        }
    } else {
        lemma_collapse_flat(s, i + 1, None, run.push(s[i]));
        let rec = collapse_from(s, i + 1, None, run.push(s[i]));
        assert forall|k: int|
            0 <= k < collapse_from(s, i, pending, run).len() implies crate::inst::inst_depth(
            #[trigger] collapse_from(s, i, pending, run)[k],
        ) == 0 by {
            let whole = pend_insts(pending) + rec;
            assert(collapse_from(s, i, pending, run)[k] == whole[k]);
            if k >= pend_insts(pending).len() {
                assert(whole[k] == rec[k - pend_insts(pending).len()]);
            }
        }
    }
}

/// The normalizer writes no indent movement at all: its output is flat,
/// hence well nested.
pub proof fn lemma_minimize_wn(s: Seq<char>)
    ensures
        crate::inst::flat(minimize_spec(s)),
        crate::inst::well_nested(minimize_spec(s)),
{
    if s.len() == 0 {
    } else if s.len() == 1 {
        assert(crate::inst::flat(minimize_spec(s))) by {
            assert(forall|k: int|
                0 <= k < minimize_spec(s).len() ==> #[trigger] minimize_spec(s)[k] == char_inst(
                    s[0],
                ));
        }
    } else {
        lemma_collapse_flat(trim(s), 0, None, Seq::empty());
    }
    crate::inst::lemma_flat_wn(minimize_spec(s));
}

/// A trimmed sequence never ends in whitespace.
pub proof fn lemma_trim_end_last(s: Seq<char>)
    ensures
        trim_end(s).len() > 0 ==> !is_ws(trim_end(s).last()),
    decreases s.len(),
{
    if s.len() > 0 && is_ws(s.last()) {
        lemma_trim_end_last(s.drop_last());
    }
}

/// Text in the normalizer's output form: it neither starts nor ends with
/// whitespace, and never holds two whitespace characters in a row.
pub open spec fn normalized(t: Seq<char>) -> bool {
    &&& t.len() > 0 ==> !is_ws(t[0]) && !is_ws(t.last())
    &&& forall|j: int| 0 <= j < t.len() - 1 ==> !(is_ws(#[trigger] t[j]) && is_ws(t[j + 1]))
}

/// What a pending whitespace run flushes to, in characters: exactly its
/// representative.
proof fn lemma_pend_chars(pending: Option<char>)
    ensures
        chars_of(pend_insts(pending)) == (match pending {
            Some(w) => seq![w],
            None => Seq::<char>::empty(),
        }),
{
    match pending {
        Some(w) => {
            crate::inst::lemma_chars_of_single(char_inst(w));
            assert(inst_chars(char_inst(w)) =~= seq![w]);
        },
        None => {
            assert(chars_of(pend_insts(pending)) =~= Seq::<char>::empty());
        },
    }
}

/// A flushed run writes exactly its characters.
proof fn lemma_run_chars(run: Seq<char>)
    ensures
        chars_of(run_insts(run)) == run,
{
    if run.len() == 0 {
        assert(chars_of(run_insts(run)) =~= run);
    } else {
        crate::inst::lemma_chars_of_single(Inst::Text(run));
    }
}

/// On a suffix with no two adjacent whitespace characters, the collapsing
/// scan is the identity: it writes back the pending run, the accumulated
/// run, and the suffix, character for character.
proof fn lemma_collapse_id(t: Seq<char>, i: int, pending: Option<char>, run: Seq<char>)
    requires
        0 <= i <= t.len(),
        forall|j: int| i <= j < t.len() - 1 ==> !(is_ws(#[trigger] t[j]) && is_ws(t[j + 1])),
        pending matches Some(w) ==> i >= t.len() || !is_ws(t[i]),
    ensures
        chars_of(collapse_from(t, i, pending, run)) == chars_of(pend_insts(pending)) + run
            + t.skip(i),
    decreases t.len() - i,
{
    lemma_pend_chars(pending);
    lemma_run_chars(run);
    if i >= t.len() {
        crate::inst::lemma_chars_of_concat(pend_insts(pending), run_insts(run));
        assert(t.skip(i) =~= Seq::<char>::empty());
        assert(chars_of(pend_insts(pending)) + run + t.skip(i) =~= chars_of(pend_insts(pending))
            + run);
    } else if is_ws(t[i]) {
        let merged = merge_ws(pending, t[i]);
        assert(pending is None);
        assert(merged == t[i]);
        lemma_collapse_id(t, i + 1, Some(merged), Seq::empty());
        let rec = collapse_from(t, i + 1, Some(merged), Seq::empty());
        crate::inst::lemma_chars_of_concat(run_insts(run), rec);
        lemma_pend_chars(Some(merged));
        assert(chars_of(rec) =~= seq![t[i]] + t.skip(i + 1));
        assert(t.skip(i) =~= seq![t[i]] + t.skip(i + 1));
        assert(run + (seq![t[i]] + t.skip(i + 1)) =~= Seq::<char>::empty() + run + t.skip(i));
    } else {
        lemma_collapse_id(t, i + 1, None, run.push(t[i]));
        let rec = collapse_from(t, i + 1, None, run.push(t[i]));
        crate::inst::lemma_chars_of_concat(pend_insts(pending), rec);
        assert(chars_of(rec) =~= run.push(t[i]) + t.skip(i + 1));
        assert(t.skip(i) =~= seq![t[i]] + t.skip(i + 1));
        assert(chars_of(pend_insts(pending)) + (run.push(t[i]) + t.skip(i + 1))
            =~= chars_of(pend_insts(pending)) + run + t.skip(i));
    }
}

/// Whatever the input, the collapsing scan's output never holds two
/// whitespace characters in a row, never ends in whitespace, and starts
/// with the accumulated run's first character when one is open.
proof fn lemma_collapse_shape(t: Seq<char>, i: int, pending: Option<char>, run: Seq<char>)
    requires
        0 <= i <= t.len(),
        t.len() > 0 ==> !is_ws(t.last()),
        pending matches Some(w) ==> i < t.len(),
        forall|j: int| 0 <= j < run.len() ==> !is_ws(#[trigger] run[j]),
    ensures
        ({
            let out = chars_of(collapse_from(t, i, pending, run));
            &&& forall|a: int| 0 <= a < out.len() - 1 ==> !(is_ws(#[trigger] out[a]) && is_ws(
                out[a + 1],
            ))
            &&& out.len() > 0 ==> !is_ws(out.last())
            &&& (pending is None && run.len() > 0) ==> out.len() > 0 && !is_ws(out[0])
        }),
    decreases t.len() - i,
{
    lemma_pend_chars(pending);
    lemma_run_chars(run);
    let out = chars_of(collapse_from(t, i, pending, run));
    if i >= t.len() {
        crate::inst::lemma_chars_of_concat(pend_insts(pending), run_insts(run));
        assert(pending is None);
        assert(out =~= run);
    } else if is_ws(t[i]) {
        let merged = merge_ws(pending, t[i]);
        assert(i < t.len() - 1) by {
            assert(!is_ws(t.last()));
        }
        lemma_collapse_shape(t, i + 1, Some(merged), Seq::empty());
        let rec = chars_of(collapse_from(t, i + 1, Some(merged), Seq::empty()));
        crate::inst::lemma_chars_of_concat(
            run_insts(run),
            collapse_from(t, i + 1, Some(merged), Seq::empty()),
        );
        assert(out =~= run + rec);
        assert forall|a: int| 0 <= a < out.len() - 1 implies !(is_ws(#[trigger] out[a]) && is_ws(
            out[a + 1],
        )) by {
            if a < run.len() {
                assert(!is_ws(run[a]));
            } else {
                assert(out[a] == rec[a - run.len()]);
                assert(out[a + 1] == rec[a + 1 - run.len()]);
            }
        }
        if out.len() > 0 {
            if rec.len() > 0 {
                assert(out.last() == rec.last());
            } else {
                assert(out.last() == run.last());
            }
        }
    } else {
        lemma_collapse_shape(t, i + 1, None, run.push(t[i]));
        let rec = chars_of(collapse_from(t, i + 1, None, run.push(t[i])));
        crate::inst::lemma_chars_of_concat(
            pend_insts(pending),
            collapse_from(t, i + 1, None, run.push(t[i])),
        );
        let pc = chars_of(pend_insts(pending));
        assert(out =~= pc + rec);
        assert(run.push(t[i]).len() > 0);
        assert(forall|j: int|
            0 <= j < run.push(t[i]).len() ==> !is_ws(#[trigger] run.push(t[i])[j]));
        assert(rec.len() > 0 && !is_ws(rec[0]));
        assert forall|a: int| 0 <= a < out.len() - 1 implies !(is_ws(#[trigger] out[a]) && is_ws(
            out[a + 1],
        )) by {
            if a >= pc.len() {
                assert(out[a] == rec[a - pc.len()]);
                assert(out[a + 1] == rec[a + 1 - pc.len()]);
            } else {
                assert(out[a + 1] == rec[0]);
            }
        }
        assert(out.last() == rec.last());
        if pending is None {
            assert(out =~= rec);
        }
    }
}

/// The first character survives trimming from the end.
proof fn lemma_trim_end_prefix(u: Seq<char>)
    ensures
        trim_end(u).len() > 0 ==> trim_end(u)[0] == u[0],
    decreases u.len(),
{
    if u.len() > 0 && is_ws(u.last()) {
        lemma_trim_end_prefix(u.drop_last());
    }
}

/// A trimmed sequence never starts with whitespace.
proof fn lemma_trim_start_first(u: Seq<char>)
    ensures
        trim_start(u).len() > 0 ==> !is_ws(trim_start(u)[0]),
    decreases u.len(),
{
    if u.len() > 0 && is_ws(u[0]) {
        lemma_trim_start_first(u.drop_first());
    }
}

/// The normalizer's output is in normal form (or a single character).
proof fn lemma_minimize_normalized(s: Seq<char>)
    requires
        s.len() >= 2,
    ensures
        normalized(chars_of(minimize_spec(s))),
{
    let t = trim(s);
    let o = chars_of(minimize_spec(s));
    lemma_trim_end_last(trim_start(s));
    lemma_trim_start_first(s);
    lemma_trim_end_prefix(trim_start(s));
    if t.len() == 0 {
        assert(o =~= Seq::<char>::empty()) by {
            assert(collapse_from(t, 0, None, Seq::empty()) == pend_insts(None) + run_insts(
                Seq::empty(),
            ));
            crate::inst::lemma_chars_of_concat(pend_insts(None), run_insts(Seq::empty()));
            lemma_pend_chars(None);
            lemma_run_chars(Seq::empty());
        }
    } else {
        assert(!is_ws(t[0]));
        assert(!is_ws(t.last()));
        // One unfolding step: the first character is not whitespace, so the
        // scan opens a run with it.
        assert(collapse_from(t, 0, None, Seq::empty()) == pend_insts(None) + collapse_from(
            t,
            1,
            None,
            Seq::empty().push(t[0]),
        ));
        crate::inst::lemma_chars_of_concat(
            pend_insts(None),
            collapse_from(t, 1, None, Seq::empty().push(t[0])),
        );
        lemma_pend_chars(None);
        lemma_collapse_shape(t, 1, None, Seq::empty().push(t[0]));
        let rec = chars_of(collapse_from(t, 1, None, Seq::empty().push(t[0])));
        assert(o =~= rec);
        assert(normalized(o)) by {
            assert(forall|a: int|
                0 <= a < o.len() - 1 ==> !(is_ws(#[trigger] o[a]) && is_ws(o[a + 1])));
        }
    }
}

/// Normalizing is idempotent: the characters the whitespace normalizer
/// produces pass through a second normalization unchanged.  This is the
/// normalization half of the formatter's stability: a second format pass
/// finds nothing left to collapse.
pub proof fn lemma_minimize_stable(s: Seq<char>)
    ensures
        chars_of(minimize_spec(chars_of(minimize_spec(s)))) == chars_of(minimize_spec(s)),
{
    let o = chars_of(minimize_spec(s));
    if o.len() == 0 {
        assert(chars_of(minimize_spec(o)) =~= o);
    } else if o.len() == 1 {
        crate::inst::lemma_chars_of_single(char_inst(o[0]));
        assert(inst_chars(char_inst(o[0])) =~= seq![o[0]]);
        assert(chars_of(minimize_spec(o)) =~= o);
    } else {
        assert(s.len() >= 2) by {
            if s.len() == 1 {
                crate::inst::lemma_chars_of_single(char_inst(s[0]));
                assert(inst_chars(char_inst(s[0])) =~= seq![s[0]]);
            }
        }
        lemma_minimize_normalized(s);
        assert(trim_start(o) == o);
        assert(trim_end(o) == o);
        lemma_collapse_id(o, 0, None, Seq::empty());
        lemma_pend_chars(None);
        assert(o.skip(0) =~= o);
        assert(chars_of(pend_insts(None)) + Seq::<char>::empty() + o =~= o);
    }
}

/// The normalizer's output matches its input on every non-whitespace
/// character.
pub proof fn lemma_minimize_same(s: Seq<char>)
    ensures
        crate::chars::same_nonws(chars_of(minimize_spec(s)), s),
{
    assert forall|c: char| !is_ws(c) implies #[trigger] count_in(chars_of(minimize_spec(s)), c)
        == count_in(s, c) by {
        lemma_minimize_counts(s, c);
    }
}

/// Append the instruction for a pending whitespace run, if one is open.
fn push_pending(out: &mut Vec<R>, pending: Option<char>)
    ensures
        deep(final(out)@) == deep(old(out)@) + pend_insts(pending),
{
    let ghost pre = out@;
    match pending {
        Some(w) => {
            if w == ' ' {
                out.push(R::Space);
                proof {
                    lemma_deep_push(pre, R::Space);
                    assert(deep(pre).push(Inst::Space) =~= deep(pre) + pend_insts(pending));
                }
            } else if w == '\n' {
                out.push(R::Newline);
                proof {
                    lemma_deep_push(pre, R::Newline);
                    assert(deep(pre).push(Inst::Newline) =~= deep(pre) + pend_insts(pending));
                }
            } else {
                out.push(R::Char(w));
                proof {
                    lemma_deep_push(pre, R::Char(w));
                    assert(deep(pre).push(Inst::Char(w)) =~= deep(pre) + pend_insts(pending));
                }
            }
        },
        None => {
            proof {
                assert(deep(out@) =~= deep(pre) + pend_insts(pending));
            }
        },
    }
}

/// Append the instruction for an accumulated text run, if it is non-empty.
fn flush_text(out: &mut Vec<R>, text: Vec<char>)
    ensures
        deep(final(out)@) == deep(old(out)@) + run_insts(text@),
{
    let ghost pre = out@;
    let ghost tv = text@;
    if text.len() > 0 {
        proof {
            lemma_deep_push(pre, R::Text(text));
        }
        out.push(R::Text(text));
        proof {
            assert(deep(pre).push(Inst::Text(tv)) =~= deep(pre) + run_insts(tv));
        }
    } else {
        proof {
            assert(deep(out@) =~= deep(pre) + run_insts(tv));
        }
    }
}

/// Normalize a raw text slice into render instructions: non-whitespace runs
/// become literal text, each maximal whitespace run collapses to a single
/// instruction (a `Newline` if the run held one, else the run's character),
/// and leading and trailing whitespace of longer slices is dropped.
pub fn minimize_whitespace(s: &Vec<char>) -> (out: Vec<R>)
    ensures
        deep(out@) == minimize_spec(s@),
{
    let mut out: Vec<R> = Vec::new();
    proof {
        assert(deep(out@) =~= Seq::<Inst>::empty());
    }
    if s.len() == 0 {
        return out;
    }
    if s.len() == 1 {
        let c = s[0];
        push_pending(&mut out, Some(c));
        proof {
            assert(Seq::<Inst>::empty() + pend_insts(Some(c)) =~= pend_insts(Some(c)));
            assert(pend_insts(Some(c)) =~= seq![char_inst(s@[0])]);
        }
        return out;
    }
    // Trim: find the first and last non-whitespace characters.
    let mut lo: usize = 0;
    proof {
        assert(s@.skip(0) =~= s@);
    }
    while lo < s.len() && is_ws_char(s[lo])
        invariant
            lo <= s.len(),
            trim_start(s@) == trim_start(s@.skip(lo as int)),
        decreases s.len() - lo,
    {
        proof {
            assert(s@.skip(lo as int).drop_first() =~= s@.skip(lo as int + 1));
        }
        lo = lo + 1;
    }
    proof {
        if lo == s.len() {
            assert(s@.skip(lo as int) =~= Seq::<char>::empty());
        }
        assert(trim_start(s@) == s@.skip(lo as int));
    }
    if lo == s.len() {
        proof {
            assert(trim(s@) =~= Seq::<char>::empty());
        }
        return out;
    }
    let ghost u = s@.skip(lo as int);
    let mut hi: usize = s.len();
    proof {
        assert(u.take(hi - lo as int) =~= u);
    }
    while hi > lo && is_ws_char(s[hi - 1])
        invariant
            lo < hi <= s.len(),
            u == s@.skip(lo as int),
            !is_ws(s@[lo as int]),
            trim_end(u) == trim_end(u.take(hi - lo as int)),
        decreases hi,
    {
        proof {
            assert(u.take(hi - lo as int).last() == s@[hi - 1]);
            assert(u.take(hi - lo as int).drop_last() =~= u.take(hi - 1 - lo as int));
        }
        hi = hi - 1;
    }
    proof {
        assert(u.take(hi - lo as int).last() == s@[hi - 1]);
        assert(trim_end(u.take(hi - lo as int)) == u.take(hi - lo as int));
        assert(u.take(hi - lo as int) =~= s@.subrange(lo as int, hi as int));
        assert(trim(s@) == s@.subrange(lo as int, hi as int));
    }
    let ghost t = trim(s@);
    // The collapsing scan.
    let mut pending: Option<char> = None;
    let mut run: Vec<char> = Vec::new();
    let mut i: usize = lo;
    proof {
        assert(deep(out@) + collapse_from(t, 0, pending, run@) =~= collapse_from(
            t,
            0,
            None,
            Seq::empty(),
        ));
    }
    while i < hi
        invariant
            lo <= i <= hi <= s.len(),
            t == s@.subrange(lo as int, hi as int),
            collapse_from(t, 0, None, Seq::empty()) == deep(out@) + collapse_from(
                t,
                i - lo as int,
                pending,
                run@,
            ),
        decreases hi - i,
    {
        let ghost k = i - lo as int;
        let c = s[i];
        proof {
            assert(t[k] == s@[i as int]);
        }
        if is_ws_char(c) {
            let ghost old_out = deep(out@);
            let ghost old_pending = pending;
            let ghost old_run = run@;
            let text = run;
            run = Vec::new();
            flush_text(&mut out, text);
            let merged = match pending {
                Some(w) => if c == '\n' || w == '\n' {
                    '\n'
                } else if c == w {
                    w
                } else {
                    ' '
                },
                None => c,
            };
            pending = Some(merged);
            proof {
                assert(merged == merge_ws(old_pending, c));
                assert(run@ =~= Seq::<char>::empty());
                assert(collapse_from(t, k, old_pending, old_run) == run_insts(old_run)
                    + collapse_from(t, k + 1, pending, run@));
                assert((old_out + run_insts(old_run)) + collapse_from(t, k + 1, pending, run@)
                    =~= old_out + (run_insts(old_run) + collapse_from(t, k + 1, pending, run@)));
            }
        } else {
            let ghost old_out = deep(out@);
            let ghost old_pending = pending;
            let ghost old_run = run@;
            push_pending(&mut out, pending);
            pending = None;
            run.push(c);
            proof {
                assert(run@ == old_run.push(t[k]));
                assert(collapse_from(t, k, old_pending, old_run) == pend_insts(old_pending)
                    + collapse_from(t, k + 1, pending, run@));
                assert((old_out + pend_insts(old_pending)) + collapse_from(t, k + 1, pending, run@)
                    =~= old_out + (pend_insts(old_pending) + collapse_from(
                    t,
                    k + 1,
                    pending,
                    run@,
                )));
            }
        }
        i = i + 1;
    }
    let ghost old_out = deep(out@);
    let ghost old_pending = pending;
    let ghost old_run = run@;
    push_pending(&mut out, pending);
    flush_text(&mut out, run);
    proof {
        assert(collapse_from(t, i - lo as int, old_pending, old_run) == pend_insts(old_pending)
            + run_insts(old_run));
        assert((old_out + pend_insts(old_pending)) + run_insts(old_run) =~= old_out + (pend_insts(
            old_pending,
        ) + run_insts(old_run)));
    }
    out
}

} // verus!
