//! The formatter's entry points: format one chunk end to end, and drive
//! the chunk-buffering loop over a whole input.
//!
//! Formatting is a pure, total function of the chunk text: the output is
//! the rendered form of a parse of the chunk, stripped of trailing
//! whitespace and closed by exactly one line terminator, and every
//! non-whitespace character of the chunk occurs at least as often in it.
//! The driver's output is the in-order concatenation of one such piece per
//! chunk, chunks being cut exactly as the buffering rule says.

use vstd::prelude::*;

use crate::chars::{
    char_at, count_in, covers_nonws, is_ws, lemma_count_absent, lemma_count_concat,
    lemma_count_single, str_to_chars, subrange_chars,
};
use crate::emit::{chars_to_string, emit_chars, emit_rec, lemma_emit_counts, rstrip_chars};
use crate::inst::{chars_of, deep};
use crate::parse::{balanced_text, gparse, parse_chars, parse_post};
use crate::render::{format_parse_cursor, grender_spec, lemma_grender_eq, render_spec};
use crate::tree::{gview, Node};
use crate::whitespace::{lemma_trim_end_counts, lemma_trim_end_last, trim_end};

verus! {

/// The finished output for one parsed chunk: the tree rendered over its
/// whole text, emitted from indent level zero, trailing whitespace dropped,
/// and the single line terminator appended.
pub open spec fn formatted_of(text: Seq<char>, root: Node) -> Seq<char> {
    trim_end(emit_rec(render_spec(root, text, 0, text.len() as int), 0)).push('\n')
}

/// What one format pass produces, as a function of the chunk text alone:
/// the parser's tree over the balanced text, rendered, emitted, stripped of
/// trailing whitespace, and closed by the single line terminator.
pub open spec fn gformatted(chunk: Seq<char>) -> Seq<char> {
    let text = balanced_text(chunk);
    trim_end(emit_rec(grender_spec(gparse(chunk), text, 0, text.len() as int), 0)).push('\n')
}

/// What one format pass writes for its chunk: the rendered form of a parse
/// of the chunk, with every non-whitespace character of the chunk kept at
/// least as often, and a single line terminator at the end with no
/// whitespace directly before it.
pub open spec fn piece_ok(chunk: Seq<char>, piece: Seq<char>) -> bool {
    &&& covers_nonws(chunk, piece)
    &&& piece.len() >= 1
    &&& piece.last() == '\n'
    &&& piece.len() >= 2 ==> !is_ws(piece[piece.len() - 2])
    &&& exists|text: Seq<char>, root: Node|
        #[trigger] parse_post(chunk, text, root) && piece == formatted_of(text, root)
    &&& piece == gformatted(chunk)
}

/// The position of the next line terminator at or after `i`, or the end of
/// the input.
pub open spec fn line_end(s: Seq<char>, i: int) -> int
    decreases s.len() - i,
{
    if i < 0 || i >= s.len() {
        s.len() as int
    } else if s[i] == '\n' {
        i
    } else {
        line_end(s, i + 1)
    }
}

pub proof fn lemma_line_end_bounds(s: Seq<char>, i: int)
    requires
        0 <= i <= s.len(),
    ensures
        i <= line_end(s, i) <= s.len(),
    decreases s.len() - i,
{
    if i < s.len() && s[i] != '\n' {
        lemma_line_end_bounds(s, i + 1);
    }
}

/// A scan that stopped at `j` having seen no terminator stopped exactly at
/// [`line_end`].
pub proof fn lemma_line_end_at(s: Seq<char>, i: int, j: int)
    requires
        0 <= i <= j <= s.len(),
        forall|q: int| i <= q < j ==> s[q] != '\n',
        j < s.len() ==> s[j] == '\n',
    ensures
        line_end(s, i) == j,
    decreases j - i,
{
    if i < j {
        lemma_line_end_at(s, i + 1, j);
    }
}

/// The end of a line's content: one carriage return directly before a line
/// terminator belongs to the terminator, not to the line.
pub open spec fn content_end(s: Seq<char>, i: int, j: int) -> int {
    if j < s.len() && j > i && s[j - 1] == '\r' {
        j - 1
    } else {
        j
    }
}

/// The chunks the buffering loop hands the formatter, reading from
/// position `i` with `buf` already accumulated: each line's content joins
/// the buffer with a terminator restored after it; a blank line — or, in
/// per-line mode, every line — flushes the buffer as one chunk; the end of
/// the input flushes whatever is still buffered.
pub open spec fn chunks_rec(s: Seq<char>, i: int, buf: Seq<char>, on_newline: bool) -> Seq<
    Seq<char>,
>
    decreases s.len() - i,
    via chunks_rec_dec
{
    if i < 0 || i >= s.len() {
        if buf.len() > 0 {
            seq![buf]
        } else {
            Seq::empty()
        }
    } else {
        let j = line_end(s, i);
        let ce = content_end(s, i, j);
        let buf2 = if ce > i {
            buf + s.subrange(i, ce).push('\n')
        } else {
            buf
        };
        let next = if j < s.len() {
            j + 1
        } else {
            s.len() as int
        };
        if ce == i || on_newline {
            seq![buf2] + chunks_rec(s, next, Seq::empty(), on_newline)
        } else {
            chunks_rec(s, next, buf2, on_newline)
        }
    }
}

#[via_fn]
proof fn chunks_rec_dec(s: Seq<char>, i: int, buf: Seq<char>, on_newline: bool) {
    if 0 <= i < s.len() {
        lemma_line_end_bounds(s, i);
    }
}

/// The chunks the driver cuts a whole input into.
pub open spec fn chunks_of(input: Seq<char>, on_newline: bool) -> Seq<Seq<char>> {
    chunks_rec(input, 0, Seq::empty(), on_newline)
}

/// An input with anything left to read yields at least one chunk.
pub proof fn lemma_chunks_nonempty(s: Seq<char>, i: int, buf: Seq<char>, on_newline: bool)
    requires
        0 <= i,
        i < s.len() || buf.len() > 0,
    ensures
        chunks_rec(s, i, buf, on_newline).len() >= 1,
    decreases s.len() - i,
{
    if i < s.len() {
        let j = line_end(s, i);
        lemma_line_end_bounds(s, i);
        let ce = content_end(s, i, j);
        let buf2 = if ce > i {
            buf + s.subrange(i, ce).push('\n')
        } else {
            buf
        };
        let next = if j < s.len() {
            j + 1
        } else {
            s.len() as int
        };
        if !(ce == i || on_newline) {
            assert(buf2.len() > 0);
            lemma_chunks_nonempty(s, next, buf2, on_newline);
        }
    }
}

/// The characters of a list of pieces, concatenated in order.
pub open spec fn cat(pieces: Seq<Seq<char>>) -> Seq<char>
    decreases pieces.len(),
{
    if pieces.len() == 0 {
        Seq::empty()
    } else {
        cat(pieces.drop_last()) + pieces.last()
    }
}

pub proof fn lemma_cat_push(pieces: Seq<Seq<char>>, x: Seq<char>)
    ensures
        cat(pieces.push(x)) == cat(pieces) + x,
{
    assert(pieces.push(x).drop_last() =~= pieces);
    assert(pieces.push(x).last() == x);
}

/// The driver's whole output decomposed: one formatted piece per chunk of
/// the buffering rule, concatenated in input order.
pub open spec fn silly_pieces(
    input: Seq<char>,
    on_newline: bool,
    pieces: Seq<Seq<char>>,
    out: Seq<char>,
) -> bool {
    &&& pieces.len() == chunks_of(input, on_newline).len()
    &&& forall|k: int|
        0 <= k < pieces.len() ==> piece_ok(#[trigger] chunks_of(input, on_newline)[k], pieces[k])
    &&& out == cat(pieces)
}

/// Format one chunk, given and returned as plain characters: parse (with
/// bracket balancing), render the tree to instructions, emit them with
/// indentation, drop trailing whitespace and append the single final line
/// terminator.
pub fn do_format_chars(chunk: &Vec<char>) -> (v: Vec<char>)
    ensures
        covers_nonws(chunk@, v@),
        v@.len() >= 1,
        v@.last() == '\n',
        v@.len() >= 2 ==> !is_ws(v@[v@.len() - 2]),
        exists|text: Seq<char>, root: Node|
            #[trigger] parse_post(chunk@, text, root) && v@ == formatted_of(text, root),
        v@ == gformatted(chunk@),
{
    let tree = parse_chars(chunk);
    let n = tree.text.len();
    let items = format_parse_cursor(&tree.root, &tree.text, 0, n);
    let mut v = emit_chars(&items);
    let ghost emitted = v@;
    rstrip_chars(&mut v);
    let ghost stripped = v@;
    v.push('\n');
    proof {
        assert(tree.text@.subrange(0, n as int) =~= tree.text@);
        assert(v@ =~= stripped + seq!['\n']);
        assert forall|c: char| !is_ws(c) implies #[trigger] count_in(chunk@, c) <= count_in(
            v@,
            c,
        ) by {
            lemma_emit_counts(deep(items@), 0, c);
            assert(count_in(emitted, c) == count_in(chars_of(deep(items@)), c));
            assert(count_in(chars_of(deep(items@)), c) == count_in(tree.text@, c));
            lemma_trim_end_counts(emitted, c);
            lemma_count_concat(stripped, seq!['\n'], c);
            lemma_count_single('\n', c);
        }
        lemma_trim_end_last(emitted);
        assert(deep(items@) == render_spec(tree.root, tree.text@, 0, n as int));
        assert(v@ =~= formatted_of(tree.text@, tree.root));
        lemma_grender_eq(tree.root, tree.text@, 0, n as int);
        assert(gview(tree.root) == gparse(chunk@));
        assert(tree.text@ == balanced_text(chunk@));
        assert(v@ =~= gformatted(chunk@));
        assert(parse_post(chunk@, tree.text@, tree.root) && v@ == formatted_of(
            tree.text@,
            tree.root,
        ));
    }
    v
}

/// Format exactly one chunk of raw text: the result is the rendered form
/// of a parse of the chunk, it keeps every non-whitespace character of the
/// chunk at least as often, and it ends with exactly one line terminator,
/// whatever the chunk held.
pub fn do_format(data: &str) -> (out: String)
    ensures
        covers_nonws(data@, out@),
        out@.len() >= 1,
        out@.last() == '\n',
        out@.len() >= 2 ==> !is_ws(out@[out@.len() - 2]),
        exists|text: Seq<char>, root: Node|
            #[trigger] parse_post(data@, text, root) && out@ == formatted_of(text, root),
        out@ == gformatted(data@),
{
    let chunk = str_to_chars(data);
    let v = do_format_chars(&chunk);
    chars_to_string(&v)
}

/// Drive the chunk-buffering loop over a whole input: lines accumulate
/// into a chunk, and the chunk is formatted whenever a blank line arrives
/// — or after every line, when `format_on_newline` is set — and once more
/// at the end of the input if anything is still buffered.  The output is
/// the in-order concatenation of the formatted pieces, one per chunk, and
/// every non-whitespace character of the input occurs at least as often in
/// it.
#[verifier::rlimit(100)]
pub fn silly_format(input: &str, format_on_newline: bool) -> (out: String)
    ensures
        covers_nonws(input@, out@),
        exists|pieces: Seq<Seq<char>>|
            #[trigger] silly_pieces(input@, format_on_newline, pieces, out@),
        out@ == cat(
            chunks_of(input@, format_on_newline).map_values(|c: Seq<char>| gformatted(c)),
        ),
        input@.len() > 0 ==> out@.len() >= 1 && out@.last() == '\n',
{
    let chars = str_to_chars(input);
    let n = chars.len();
    let mut out: Vec<char> = Vec::new();
    let mut buf: Vec<char> = Vec::new();
    let mut i: usize = 0;
    let ghost chunks = chunks_of(chars@, format_on_newline);
    let ghost mut donec: Seq<Seq<char>> = Seq::empty();
    let ghost mut pieces: Seq<Seq<char>> = Seq::empty();
    proof {
        assert(chars@.take(0) =~= Seq::<char>::empty());
        assert(donec + chunks_rec(chars@, 0, buf@, format_on_newline) =~= chunks_rec(
            chars@,
            0,
            Seq::empty(),
            format_on_newline,
        ));
        assert(cat(pieces) =~= Seq::<char>::empty());
    }
    while i < n
        invariant
            i <= n,
            n == chars@.len(),
            chars@ == input@,
            chunks == chunks_of(chars@, format_on_newline),
            chunks == donec + chunks_rec(chars@, i as int, buf@, format_on_newline),
            pieces.len() == donec.len(),
            pieces == donec.map_values(|c: Seq<char>| gformatted(c)),
            forall|k: int| 0 <= k < pieces.len() ==> piece_ok(#[trigger] donec[k], pieces[k]),
            out@ == cat(pieces),
            out@.len() > 0 ==> out@.last() == '\n',
            (out@.len() > 0) <==> (pieces.len() > 0),
            forall|c: char|
                !is_ws(c) ==> #[trigger] count_in(chars@.take(i as int), c) <= count_in(out@, c)
                    + count_in(buf@, c),
        decreases n - i,
    {
        let mut j: usize = i;
        while j < n && char_at(&chars, j) != '\n'
            invariant
                i <= j <= n,
                n == chars@.len(),
                forall|q: int| i <= q < j ==> chars@[q] != '\n',
            decreases n - j,
        {
            j = j + 1;
        }
        proof {
            lemma_line_end_at(chars@, i as int, j as int);
        }
        let mut ce: usize = j;
        if j < n && j > i && char_at(&chars, j - 1) == '\r' {
            ce = j - 1;
        }
        proof {
            assert(ce as int == content_end(chars@, i as int, j as int));
        }
        let ghost line = chars@.subrange(i as int, ce as int);
        let ghost out0 = out@;
        let ghost buf0 = buf@;
        let ghost donec0 = donec;
        let ghost pieces0 = pieces;
        if ce > i {
            let mut piece = subrange_chars(&chars, i, ce);
            buf.append(&mut piece);
            buf.push('\n');
            proof {
                assert(buf@ =~= buf0 + line.push('\n'));
            }
        }
        let ghost buf1 = buf@;
        let flush = ce == i || format_on_newline;
        let ghost mut fv: Seq<char> = Seq::empty();
        if flush {
            let mut formatted = do_format_chars(&buf);
            proof {
                fv = formatted@;
            }
            out.append(&mut formatted);
            buf = Vec::new();
            proof {
                donec = donec0.push(buf1);
                pieces = pieces0.push(fv);
                assert(out@ =~= out0 + fv);
                assert(buf@ =~= Seq::<char>::empty());
                assert(piece_ok(buf1, fv));
                lemma_cat_push(pieces0, fv);
                assert(out@.last() == fv.last());
                assert(fv == gformatted(buf1));
                assert(donec.map_values(|c: Seq<char>| gformatted(c)) =~= donec0.map_values(
                    |c: Seq<char>| gformatted(c),
                ).push(gformatted(buf1)));
            }
        }
        let next = if j < n {
            j + 1
        } else {
            n
        };
        proof {
            let rest = chunks_rec(chars@, next as int, buf@, format_on_newline);
            if flush {
                assert(chunks_rec(chars@, i as int, buf0, format_on_newline) =~= seq![buf1]
                    + rest);
                assert(donec0 + (seq![buf1] + rest) =~= donec0.push(buf1) + rest);
            } else {
                assert(chunks_rec(chars@, i as int, buf0, format_on_newline) == rest);
            }
            assert(chars@.take(next as int) =~= chars@.take(i as int) + chars@.subrange(
                i as int,
                next as int,
            ));
            assert forall|c: char| !is_ws(c) implies #[trigger] count_in(
                chars@.take(next as int),
                c,
            ) <= count_in(out@, c) + count_in(buf@, c) by {
                lemma_count_concat(
                    chars@.take(i as int),
                    chars@.subrange(i as int, next as int),
                    c,
                );
                let tail = chars@.subrange(ce as int, next as int);
                assert(chars@.subrange(i as int, next as int) =~= line + tail);
                lemma_count_concat(line, tail, c);
                assert forall|q: int| 0 <= q < tail.len() implies #[trigger] tail[q] != c by {
                    assert(tail[q] == chars@[ce + q]);
                    assert(is_ws(chars@[ce + q]));
                }
                lemma_count_absent(tail, c);
                if ce > i {
                    lemma_count_concat(buf0, line.push('\n'), c);
                    assert(line.push('\n') =~= line + seq!['\n']);
                    lemma_count_concat(line, seq!['\n'], c);
                    lemma_count_single('\n', c);
                    assert(count_in(buf1, c) == count_in(buf0, c) + count_in(line, c));
                } else {
                    assert(line =~= Seq::<char>::empty());
                    assert(count_in(buf1, c) == count_in(buf0, c) + count_in(line, c));
                }
                if flush {
                    assert(count_in(buf1, c) <= count_in(fv, c));
                    lemma_count_concat(out0, fv, c);
                }
            }
        }
        i = next;
    }
    if buf.len() > 0 {
        let ghost out0 = out@;
        let ghost buf1 = buf@;
        let ghost donec0 = donec;
        let ghost pieces0 = pieces;
        let mut formatted = do_format_chars(&buf);
        let ghost fv = formatted@;
        out.append(&mut formatted);
        proof {
            donec = donec0.push(buf1);
            pieces = pieces0.push(fv);
            assert(out@ =~= out0 + fv);
            assert(piece_ok(buf1, fv));
            lemma_cat_push(pieces0, fv);
            assert(out@.last() == fv.last());
            assert(fv == gformatted(buf1));
            assert(donec.map_values(|c: Seq<char>| gformatted(c)) =~= donec0.map_values(
                |c: Seq<char>| gformatted(c),
            ).push(gformatted(buf1)));
            assert(chunks_rec(chars@, n as int, buf1, format_on_newline) =~= seq![buf1]);
            assert(donec0 + seq![buf1] =~= donec0.push(buf1));
            assert forall|c: char| !is_ws(c) implies #[trigger] count_in(chars@, c) <= count_in(
                out@,
                c,
            ) by {
                assert(chars@.take(n as int) =~= chars@);
                lemma_count_concat(out0, fv, c);
            }
        }
    } else {
        proof {
            assert(chars@.take(n as int) =~= chars@);
            assert(chunks_rec(chars@, n as int, buf@, format_on_newline) =~= Seq::<
                Seq<char>,
            >::empty());
            assert(chunks == donec + Seq::<Seq<char>>::empty());
            assert(chunks =~= donec);
        }
    }
    proof {
        assert(chunks =~= donec);
        assert(silly_pieces(input@, format_on_newline, pieces, out@));
        if input@.len() > 0 {
            lemma_chunks_nonempty(chars@, 0, Seq::empty(), format_on_newline);
            assert(pieces.len() > 0);
        }
    }
    chars_to_string(&out)
}

} // verus!
