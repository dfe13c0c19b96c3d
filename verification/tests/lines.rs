//! The simple line-at-a-time engine and the parse tree's public surface.

use std::collections::HashMap;

use sillyfmt::api::walk;
use sillyfmt::{format_line, parse, Kind, ParseCursor, ParseNode, ParseTree, Role};

#[test]
fn line_single_token() {
    assert_eq!(format_line("x"), "x \n");
}

#[test]
fn line_rejoins_with_single_spaces() {
    assert_eq!(format_line("foo   bar"), "foo bar \n");
}

#[test]
fn line_breaks_after_comma() {
    assert_eq!(format_line("a,b"), "a , \nb \n");
}

#[test]
fn line_indents_brackets() {
    assert_eq!(
        format_line("f(aaaa,bbbb,cccc,dddd,eeee,ffff)"),
        "f ( \n  aaaa , \n  bbbb , \n  cccc , \n  dddd , \n  eeee , \n  ffff \n) \n"
    );
}

#[test]
fn line_keeps_near_closes_inline() {
    // The matching close is within lookahead range: no break.
    assert_eq!(format_line("f()"), "f ( ) \n");
    assert_eq!(format_line("f(a,b)"), "f ( a , b ) \n");
}

#[test]
fn line_never_drops_characters() {
    let inputs = ["a=b{c}", "odd )( stuff", "path/to/file.txt, 'quoted'"];
    for input in inputs {
        let out = format_line(input);
        let mut need: HashMap<char, usize> = HashMap::new();
        for c in input.chars() {
            if !c.is_whitespace() {
                *need.entry(c).or_insert(0) += 1;
            }
        }
        for (c, n) in need {
            let got = out.chars().filter(|x| *x == c).count();
            assert!(got >= n, "lost {:?} in {:?} -> {:?}", c, input, out);
        }
        assert!(out.ends_with('\n'));
    }
}

#[test]
fn line_keeps_character_order_exactly_once() {
    for input in ["a=b{c}", "odd )( stuff", "a,b,c", "f(x, y)"] {
        let out = format_line(input);
        let inseq: String = input.chars().filter(|c| !c.is_whitespace()).collect();
        let outseq: String = out.chars().filter(|c| !c.is_whitespace()).collect();
        assert_eq!(inseq, outseq, "order or count changed for {:?}", input);
    }
}

#[test]
fn tree_exposes_nodes_and_cursor() {
    let tree = parse("a=b");
    let root = tree.root_node();
    assert!(matches!(root.kind(), Kind::BinaryOp));
    assert!(root.is_named());
    assert_eq!(root.start_byte(), 0);
    assert_eq!(root.end_byte(), 3);

    let mut cursor = walk(root);
    assert!(matches!(cursor.field_name(), Role::General));
    assert!(cursor.goto_first_child());
    assert_eq!(cursor.node().start_byte(), 0);
    assert_eq!(cursor.node().end_byte(), 1);
    assert!(cursor.goto_next_sibling());
    assert!(matches!(cursor.node().kind(), Kind::Symbol));
    assert!(!cursor.node().is_named());
    assert!(cursor.goto_next_sibling());
    assert!(!cursor.goto_next_sibling());
}

#[test]
fn tree_debug_dump_shows_structure() {
    let tree = parse("a=b");
    let dump = tree.debug_tree();
    assert_eq!(dump, "(binary_op (text) (symbol) (text))");
}

#[test]
fn parser_balances_missing_brackets() {
    let tree = parse("}:");
    // Balancing prepended the missing opening brace.
    assert_eq!(tree.text.iter().collect::<String>(), "{}:");
}
