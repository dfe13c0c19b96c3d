//! Exact end-to-end scenarios, the chunk-buffering driver, and the
//! formatter's two invariants on concrete inputs: meaningful characters
//! are never dropped, and a second pass reproduces the first.

use std::collections::HashMap;

use sillyfmt::{do_format, silly_format};

#[test]
fn scenario_binary_op() {
    assert_eq!(do_format("a=b"), "a = b\n");
}

#[test]
fn scenario_comma_sequence() {
    assert_eq!(do_format("a,b,c,d,e"), "a, b, c, d, e\n");
}

#[test]
fn scenario_comma_colon_container() {
    assert_eq!(do_format("{,:}"), "{, :}\n");
}

#[test]
fn scenario_compact_container() {
    assert_eq!(do_format("{:}"), "{:}\n");
}

#[test]
fn scenario_labeled_container() {
    assert_eq!(do_format("struct{a:b, c:d}"), "struct{ a: b, c: d }\n");
}

#[test]
fn scenario_exploded_container() {
    let out = do_format("{a:b, c:d, e:f, g:h, i:j, k:l, m:n, o:p, q:r, s:t, u:v, w:x, y:z}");
    assert_eq!(
        out,
        "{\n  a: b,\n  c: d,\n  e: f,\n  g: h,\n  i: j,\n  k: l,\n  m: n,\n  o: p,\n  q: r,\n  s: t,\n  u: v,\n  w: x,\n  y: z\n}\n"
    );
}

#[test]
fn clock_tokens_keep_their_colons() {
    // A clock-like token renders verbatim; an operator colon is spaced.
    assert_eq!(do_format("12:34:56"), "12:34:56\n");
    assert_eq!(do_format("t=12:30"), "t = 12:30\n");
    assert_eq!(do_format("a:b"), "a: b\n");
}

#[test]
fn letters_beyond_ascii_are_words() {
    assert_eq!(do_format("caf\u{e9}=na\u{ef}ve"), "caf\u{e9} = na\u{ef}ve\n");
}

#[test]
fn container_compactness_boundary() {
    // Zero interior length: compact, no padding.
    assert_eq!(do_format("{}"), "{}\n");
    // Four units inside: still compact.
    assert_eq!(do_format("{abcd}"), "{abcd}\n");
    // Five units inside: padded with one space each side.
    assert_eq!(do_format("{abcde}"), "{ abcde }\n");
}

#[test]
fn trailing_newline_always_single() {
    for input in ["", "x", "x\n", "x\n\n\n", "   ", "\n", "a=b  \n  \n"] {
        let out = do_format(input);
        assert!(out.ends_with('\n'), "no terminator for {:?}", input);
        let trimmed = &out[..out.len() - 1];
        assert!(
            !trimmed.ends_with('\n'),
            "double terminator for {:?}: {:?}",
            input,
            out
        );
    }
}

fn char_counts(s: &str) -> HashMap<char, usize> {
    let mut m = HashMap::new();
    for c in s.chars() {
        if !c.is_whitespace() {
            *m.entry(c).or_insert(0) += 1;
        }
    }
    m
}

#[test]
fn characters_never_dropped() {
    let inputs = [
        "a=b",
        "weird )( input ][ here",
        "x!!==??y",
        "deeply{nested[stuff(a,b , c)]}",
        "unbalanced}{brackets)",
        "tabs\tand\rreturns",
        "12:34:56 some log line, pid=423, status={ok}",
        "trailing commas,,,",
        "'quoted text' and file/paths/like-this.txt",
    ];
    for input in inputs {
        let out = do_format(input);
        let need = char_counts(input);
        let have = char_counts(&out);
        for (c, n) in need {
            let got = have.get(&c).copied().unwrap_or(0);
            assert!(
                got >= n,
                "lost {:?} ({} < {}) formatting {:?} -> {:?}",
                c,
                got,
                n,
                input,
                out
            );
        }
    }
}

#[test]
fn format_is_idempotent_on_structure() {
    // Inputs whose grammar round-trips.  A padded container is the known
    // exception: its output holds a one-space gap just inside each bracket,
    // which a second pass reads back as a gap of its own.
    let inputs = [
        "a=b",
        "a,b,c,d,e",
        "{,:}",
        "{:}",
        "{a:b, c:d, e:f, g:h, i:j, k:l, m:n, o:p, q:r, s:t, u:v, w:x, y:z}",
        "some words then key: value",
    ];
    for input in inputs {
        let once = do_format(input);
        let twice = do_format(&once);
        assert_eq!(once, twice, "second pass changed {:?}", input);
    }
}

#[test]
fn driver_flushes_on_blank_line() {
    assert_eq!(silly_format("a=b\n\nc=d", false), "a = b\nc = d\n");
    // A second blank line flushes an empty chunk, which formats to a bare
    // line terminator.
    assert_eq!(silly_format("a=b\n\n\nc=d", false), "a = b\n\nc = d\n");
}

#[test]
fn driver_strips_carriage_return_before_terminator() {
    // A line holding only a carriage return is a blank line: it flushes.
    assert_eq!(silly_format("a=b\r\n\r\nc=d", false), "a = b\nc = d\n");
}

#[test]
fn newline_inside_bracket_explodes() {
    // The raw gap just inside a bracket is normalized, not dropped: a line
    // break there becomes a forced break and explodes the container.
    assert_eq!(do_format("{\na}"), "{\n  \n  a\n}\n");
}

#[test]
fn driver_flushes_every_line_when_asked() {
    assert_eq!(silly_format("a=b\nc=d", true), "a = b\nc = d\n");
}

#[test]
fn driver_buffers_lines_into_one_chunk() {
    assert_eq!(silly_format("a=\nb", false), "a = b\n");
    assert_eq!(silly_format("", false), "");
}
