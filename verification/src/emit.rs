//! The output emitter: walks a flat render instruction sequence once,
//! tracking the indent level, and materializes it as text.  A `Newline`
//! becomes a line break plus two spaces per indent level.

use vstd::prelude::*;

use crate::chars::{is_ws, is_ws_char};
use crate::inst::{deep, Inst, R};
use crate::whitespace::trim_end;

verus! {

/// The indentation written after a line break: two spaces per level.
pub open spec fn pad(indent: nat) -> Seq<char> {
    Seq::new(2 * indent, |i: int| ' ')
}

/// The characters the emitter writes for `items`, starting at indent level
/// `indent`.  Literal instructions write their characters verbatim, `Space`
/// one space, `Newline` a line break plus the current indentation; `Indent`
/// and `Unindent` only move the level (never below zero) and write nothing.
pub open spec fn emit_rec(items: Seq<Inst>, indent: nat) -> Seq<char>
    decreases items.len(),
{
    if items.len() == 0 {
        Seq::empty()
    } else {
        let rest = items.drop_first();
        match items[0] {
            Inst::Text(s) => s + emit_rec(rest, indent),
            Inst::Delimiter(c, _) => seq![c] + emit_rec(rest, indent),
            Inst::Char(c) => seq![c] + emit_rec(rest, indent),
            Inst::Space => seq![' '] + emit_rec(rest, indent),
            Inst::Newline => seq!['\n'] + pad(indent) + emit_rec(rest, indent),
            Inst::Indent => emit_rec(rest, indent + 1),
            Inst::Unindent => emit_rec(
                rest,
                if indent > 0 {
                    (indent - 1) as nat
                } else {
                    0
                },
            ),
        }
    }
}

/// Relies on `String::push`: appends one character to the end of the string.
#[verifier::external_body]
fn push_char(s: &mut String, c: char)
    ensures
        final(s)@ == old(s)@.push(c),
{
    s.push(c)
}

/// Build an owned string from a character vector.
pub fn chars_to_string(v: &Vec<char>) -> (s: String)
    ensures
        s@ == v@,
{
    let mut s = String::new();
    let mut i: usize = 0;
    while i < v.len()
        invariant
            i <= v.len(),
            s@ == v@.take(i as int),
        decreases v.len() - i,
    {
        push_char(&mut s, v[i]);
        proof {
            assert(v@.take(i as int + 1) =~= v@.take(i as int).push(v@[i as int]));
        }
        i = i + 1;
    }
    proof {
        assert(v@.take(v@.len() as int) =~= v@);
    }
    s
}

/// Emit a render instruction sequence as characters, starting at indent
/// level zero.
pub fn emit_chars(items: &Vec<R>) -> (out: Vec<char>)
    ensures
        out@ == emit_rec(deep(items@), 0),
{
    let mut out: Vec<char> = Vec::new();
    let mut indent: usize = 0;
    let mut i: usize = 0;
    proof {
        assert(deep(items@).skip(0) =~= deep(items@));
    }
    while i < items.len()
        invariant
            i <= items.len(),
            indent <= i,
            emit_rec(deep(items@), 0) == out@ + emit_rec(
                deep(items@).skip(i as int),
                indent as nat,
            ),
        decreases items.len() - i,
    {
        let ghost all = deep(items@);
        let ghost rem = all.skip(i as int);
        proof {
            assert(rem[0] == all[i as int]);
            assert(rem.drop_first() =~= all.skip(i as int + 1));
        }
        match &items[i] {
            R::Text(s) => {
                let ghost opre = out@;
                let mut j: usize = 0;
                while j < s.len()
                    invariant
                        j <= s.len(),
                        out@ == opre + s@.take(j as int),
                    decreases s.len() - j,
                {
                    out.push(s[j]);
                    proof {
                        assert(s@.take(j as int + 1) =~= s@.take(j as int).push(s@[j as int]));
                        assert(opre + s@.take(j as int + 1) =~= (opre + s@.take(j as int)).push(
                            s@[j as int],
                        ));
                    }
                    j = j + 1;
                }
                proof {
                    assert(s@.take(s@.len() as int) =~= s@);
                    assert((opre + s@) + emit_rec(all.skip(i as int + 1), indent as nat) =~= opre
                        + (s@ + emit_rec(all.skip(i as int + 1), indent as nat)));
                }
            },
            R::Delimiter(c, _) => {
                out.push(*c);
                proof {
                    assert(out@ + emit_rec(all.skip(i as int + 1), indent as nat) =~= out@
                        .drop_last() + (seq![*c] + emit_rec(
                        all.skip(i as int + 1),
                        indent as nat,
                    )));
                }
            },
            R::Char(c) => {
                out.push(*c);
                proof {
                    assert(out@ + emit_rec(all.skip(i as int + 1), indent as nat) =~= out@
                        .drop_last() + (seq![*c] + emit_rec(
                        all.skip(i as int + 1),
                        indent as nat,
                    )));
                }
            },
            R::Space => {
                out.push(' ');
                proof {
                    assert(out@ + emit_rec(all.skip(i as int + 1), indent as nat) =~= out@
                        .drop_last() + (seq![' '] + emit_rec(all.skip(i as int + 1), indent as nat)));
                }
            },
            R::Newline => {
                out.push('\n');
                let ghost opre = out@;
                let mut k: usize = 0;
                while k < indent
                    invariant
                        k <= indent,
                        out@ == opre + pad(k as nat),
                    decreases indent - k,
                {
                    out.push(' ');
                    out.push(' ');
                    proof {
                        assert(opre + pad(k as nat + 1) =~= (opre + pad(k as nat)).push(' ').push(
                            ' ',
                        ));
                    }
                    k = k + 1;
                }
                proof {
                    assert(opre =~= opre.drop_last().push('\n'));
                    assert((opre.drop_last() + (seq!['\n'] + pad(indent as nat))) =~= opre + pad(
                        indent as nat,
                    ));
                    assert(out@ + emit_rec(all.skip(i as int + 1), indent as nat) =~= opre
                        .drop_last() + (seq!['\n'] + pad(indent as nat) + emit_rec(
                        all.skip(i as int + 1),
                        indent as nat,
                    )));
                }
            },
            R::Indent => {
                indent = indent + 1;
            },
            R::Unindent => {
                if indent > 0 {
                    indent = indent - 1;
                }
            },
        }
        i = i + 1;
    }
    proof {
        assert(deep(items@).skip(items@.len() as int) =~= Seq::<Inst>::empty());
        assert(out@ + emit_rec(Seq::<Inst>::empty(), indent as nat) =~= out@);
    }
    out
}

/// Indentation is whitespace: it never contributes a meaningful character.
proof fn lemma_pad_counts(indent: nat, c: char)
    requires
        !crate::chars::is_ws(c),
    ensures
        crate::chars::count_in(pad(indent), c) == 0,
{
    assert forall|i: int| 0 <= i < pad(indent).len() implies pad(indent)[i] != c by {
        assert(pad(indent)[i] == ' ');
    }
    crate::chars::lemma_count_absent(pad(indent), c);
}

/// The emitter writes every meaningful character of its instructions
/// exactly as often as the instructions hold it: indentation and line
/// breaks add only whitespace.
pub proof fn lemma_emit_counts(items: Seq<Inst>, indent: nat, c: char)
    requires
        !crate::chars::is_ws(c),
    ensures
        crate::chars::count_in(emit_rec(items, indent), c) == crate::chars::count_in(
            crate::inst::chars_of(items),
            c,
        ),
    decreases items.len(),
{
    if items.len() > 0 {
        let rest = items.drop_first();
        assert(crate::inst::chars_of(items) == crate::inst::inst_chars(items[0])
            + crate::inst::chars_of(rest));
        crate::chars::lemma_count_concat(
            crate::inst::inst_chars(items[0]),
            crate::inst::chars_of(rest),
            c,
        );
        match items[0] {
            Inst::Text(s) => {
                lemma_emit_counts(rest, indent, c);
                crate::chars::lemma_count_concat(s, emit_rec(rest, indent), c);
            },
            Inst::Delimiter(d, _) => {
                lemma_emit_counts(rest, indent, c);
                crate::chars::lemma_count_concat(seq![d], emit_rec(rest, indent), c);
            },
            Inst::Char(d) => {
                lemma_emit_counts(rest, indent, c);
                crate::chars::lemma_count_concat(seq![d], emit_rec(rest, indent), c);
            },
            Inst::Space => {
                lemma_emit_counts(rest, indent, c);
                crate::chars::lemma_count_concat(seq![' '], emit_rec(rest, indent), c);
                crate::chars::lemma_count_single(' ', c);
            },
            Inst::Newline => {
                lemma_emit_counts(rest, indent, c);
                crate::chars::lemma_count_concat(
                    seq!['\n'] + pad(indent),
                    emit_rec(rest, indent),
                    c,
                );
                crate::chars::lemma_count_concat(seq!['\n'], pad(indent), c);
                crate::chars::lemma_count_single('\n', c);
                lemma_pad_counts(indent, c);
            },
            Inst::Indent => {
                lemma_emit_counts(rest, indent + 1, c);
                assert(crate::inst::inst_chars(items[0]) + crate::inst::chars_of(rest)
                    =~= crate::inst::chars_of(rest));
            },
            Inst::Unindent => {
                lemma_emit_counts(
                    rest,
                    if indent > 0 {
                        (indent - 1) as nat
                    } else {
                        0
                    },
                    c,
                );
                assert(crate::inst::inst_chars(items[0]) + crate::inst::chars_of(rest)
                    =~= crate::inst::chars_of(rest));
            },
        }
    }
}

/// Drop trailing whitespace characters.
pub fn rstrip_chars(v: &mut Vec<char>)
    ensures
        final(v)@ == trim_end(old(v)@),
{
    while rstrip_more(v)
        invariant
            trim_end(v@) == trim_end(old(v)@),
        decreases v@.len(),
    {
        let ghost pre = v@;
        v.pop();
        proof {
            assert(v@ =~= pre.drop_last());
        }
    }
}

/// Whether the last character is whitespace.
fn rstrip_more(v: &Vec<char>) -> (b: bool)
    ensures
        b == (v@.len() > 0 && is_ws(v@.last())),
{
    if v.len() == 0 {
        false
    } else {
        is_ws_char(v[v.len() - 1])
    }
}

/// Emit a render instruction sequence as one owned string, with one final
/// line terminator appended after the whole sequence.
pub fn write_output(items: &Vec<R>) -> (out: String)
    ensures
        out@ == emit_rec(deep(items@), 0).push('\n'),
{
    let mut v = emit_chars(items);
    v.push('\n');
    chars_to_string(&v)
}

} // verus!
