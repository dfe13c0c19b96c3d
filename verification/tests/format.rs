//! The formatter's end-to-end behavior on whole chunks.

use sillyfmt::do_format;

#[test]
fn test_basic_symbol() {
    let test_str = "a=b";
    let output = do_format(test_str);
    assert_eq!(output.trim(), "a = b");
}

#[test]
fn test_basic_string() {
    let test_str = "asdf";
    let output = do_format(test_str);
    assert_eq!(output.trim(), "asdf");
}

#[test]
fn test_sequence() {
    let test_str = "a,b,c,d,e";
    let output = do_format(test_str);
    assert_eq!(output.trim(), "a, b, c, d, e");
}

#[test]
fn test_binop_sequence_in_container() {
    let test_str = "{a:b, c:d, e:f, g:h, i:j, k:l, m:n, o:p, q:r, s:t, u:v, w:x, y:z}";
    let output = do_format(test_str);

    assert_eq!(
        output.trim(),
        "{
  a: b,
  c: d,
  e: f,
  g: h,
  i: j,
  k: l,
  m: n,
  o: p,
  q: r,
  s: t,
  u: v,
  w: x,
  y: z
}"
    );
}

#[test]
fn test_labeled_container() {
    let test_str = "struct{a:b, c:d}";
    let output = do_format(test_str);

    assert_eq!(output.trim(), "struct{ a: b, c: d }");
}

#[test]
fn test_comma_colon_container() {
    let test_str = "{,:}";
    let output = do_format(test_str);
    assert_eq!(output.trim(), "{, :}");
}

#[test]
fn test_colon_container_seq() {
    let test_str = "{:}";
    let output = do_format(test_str);
    assert_eq!(output.trim(), "{:}");
}

#[test]
fn test_close_colon() {
    let test_str = "}:";
    let output = do_format(test_str);
    assert_eq!(output.trim(), "{}:");
}
