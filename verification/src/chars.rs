//! Character classes and character counting, the vocabulary in which the
//! preservation guarantees of the formatter are stated.

use vstd::prelude::*;

use vstd::string::StrSliceExecFns;

verus! {

/// The whitespace characters that the formatter collapses.  Everything else
/// is "meaningful" and must survive a format pass.
pub open spec fn is_ws(c: char) -> bool {
    c == ' ' || c == '\n' || c == '\t' || c == '\r'
}

/// Executable twin of [`is_ws`].
pub fn is_ws_char(c: char) -> (b: bool)
    ensures
        b == is_ws(c),
{
    c == ' ' || c == '\n' || c == '\t' || c == '\r'
}

/// How many times `c` occurs in `s`.
pub open spec fn count_in(s: Seq<char>, c: char) -> nat
    decreases s.len(),
{
    if s.len() == 0 {
        0
    } else {
        (if s[0] == c {
            1nat
        } else {
            0nat
        }) + count_in(s.drop_first(), c)
    }
}

/// `b` holds every non-whitespace character of `a` exactly as often as `a`
/// does; whitespace may differ freely.
pub open spec fn same_nonws(a: Seq<char>, b: Seq<char>) -> bool {
    forall|c: char| !is_ws(c) ==> #[trigger] count_in(a, c) == count_in(b, c)
}

/// `b` holds every non-whitespace character of `a` at least as often as `a`
/// does.
pub open spec fn covers_nonws(a: Seq<char>, b: Seq<char>) -> bool {
    forall|c: char| !is_ws(c) ==> #[trigger] count_in(a, c) <= count_in(b, c)
}


/// The subsequence of meaningful characters: `s` with its whitespace
/// removed, order kept.
pub open spec fn nonws_of(s: Seq<char>) -> Seq<char>
    decreases s.len(),
{
    if s.len() == 0 {
        Seq::empty()
    } else if is_ws(s[0]) {
        nonws_of(s.drop_first())
    } else {
        seq![s[0]] + nonws_of(s.drop_first())
    }
}

pub proof fn lemma_nonws_concat(a: Seq<char>, b: Seq<char>)
    ensures
        nonws_of(a + b) == nonws_of(a) + nonws_of(b),
    decreases a.len(),
{
    if a.len() == 0 {
        assert(a + b =~= b);
        assert(nonws_of(a) + nonws_of(b) =~= nonws_of(b));
    } else {
        assert((a + b).drop_first() =~= a.drop_first() + b);
        lemma_nonws_concat(a.drop_first(), b);
        if !is_ws(a[0]) {
            assert(seq![a[0]] + (nonws_of(a.drop_first()) + nonws_of(b)) =~= (seq![a[0]]
                + nonws_of(a.drop_first())) + nonws_of(b));
        }
    }
}

/// An all-whitespace slice has no meaningful characters.
pub proof fn lemma_nonws_ws(s: Seq<char>)
    requires
        forall|q: int| 0 <= q < s.len() ==> is_ws(#[trigger] s[q]),
    ensures
        nonws_of(s) == Seq::<char>::empty(),
    decreases s.len(),
{
    if s.len() > 0 {
        assert forall|q: int| 0 <= q < s.drop_first().len() implies is_ws(
            #[trigger] s.drop_first()[q],
        ) by {
            assert(s.drop_first()[q] == s[q + 1]);
        }
        lemma_nonws_ws(s.drop_first());
    }
}

pub proof fn lemma_same_refl(a: Seq<char>)
    ensures
        same_nonws(a, a),
{
}

pub proof fn lemma_same_sym(a: Seq<char>, b: Seq<char>)
    requires
        same_nonws(a, b),
    ensures
        same_nonws(b, a),
{
    assert forall|c: char| !is_ws(c) implies #[trigger] count_in(b, c) == count_in(a, c) by {
        assert(count_in(a, c) == count_in(b, c));
    }
}

pub proof fn lemma_same_trans(a: Seq<char>, b: Seq<char>, d: Seq<char>)
    requires
        same_nonws(a, b),
        same_nonws(b, d),
    ensures
        same_nonws(a, d),
{
    assert forall|c: char| !is_ws(c) implies #[trigger] count_in(a, c) == count_in(d, c) by {
        assert(count_in(a, c) == count_in(b, c));
        assert(count_in(b, c) == count_in(d, c));
    }
}

/// Concatenation respects the matching of non-whitespace characters.
pub proof fn lemma_same_concat(a1: Seq<char>, a2: Seq<char>, b1: Seq<char>, b2: Seq<char>)
    requires
        same_nonws(a1, b1),
        same_nonws(a2, b2),
    ensures
        same_nonws(a1 + a2, b1 + b2),
{
    assert forall|c: char| !is_ws(c) implies #[trigger] count_in(a1 + a2, c) == count_in(
        b1 + b2,
        c,
    ) by {
        lemma_count_concat(a1, a2, c);
        lemma_count_concat(b1, b2, c);
        assert(count_in(a1, c) == count_in(b1, c));
        assert(count_in(a2, c) == count_in(b2, c));
    }
}

/// A sequence of nothing but whitespace matches the empty sequence.
pub proof fn lemma_ws_same_empty(a: Seq<char>)
    requires
        forall|i: int| 0 <= i < a.len() ==> is_ws(#[trigger] a[i]),
    ensures
        same_nonws(a, Seq::<char>::empty()),
{
    assert forall|c: char| !is_ws(c) implies #[trigger] count_in(a, c) == count_in(
        Seq::<char>::empty(),
        c,
    ) by {
        assert(forall|i: int| 0 <= i < a.len() ==> #[trigger] a[i] != c);
        lemma_count_absent(a, c);
    }
}

/// Padding either side of `b` with characters that count nothing keeps the
/// match with `a`.
pub proof fn lemma_same_pad(a: Seq<char>, b: Seq<char>, g: Seq<char>)
    requires
        same_nonws(a, b),
        forall|c: char| !is_ws(c) ==> #[trigger] count_in(g, c) == 0,
    ensures
        same_nonws(a, g + b),
        same_nonws(a, b + g),
{
    assert forall|c: char| !is_ws(c) implies #[trigger] count_in(a, c) == count_in(g + b, c) by {
        lemma_count_concat(g, b, c);
        assert(count_in(a, c) == count_in(b, c));
    }
    assert forall|c: char| !is_ws(c) implies #[trigger] count_in(a, c) == count_in(b + g, c) by {
        lemma_count_concat(b, g, c);
        assert(count_in(a, c) == count_in(b, c));
    }
}

/// Read one character of the text.
pub fn char_at(data: &Vec<char>, i: usize) -> (c: char)
    requires
        i < data@.len(),
    ensures
        c == data@[i as int],
{
    data[i]
}

/// The characters of a string, as a vector.
pub fn str_to_chars(s: &str) -> (v: Vec<char>)
    ensures
        v@ == s@,
{
    let n = s.unicode_len();
    let mut v: Vec<char> = Vec::new();
    let mut i: usize = 0;
    while i < n
        invariant
            i <= n,
            n == s@.len(),
            v@ == s@.take(i as int),
        decreases n - i,
    {
        let c = s.get_char(i);
        v.push(c);
        proof {
            assert(s@.take(i as int + 1) =~= s@.take(i as int).push(s@[i as int]));
        }
        i = i + 1;
    }
    proof {
        assert(s@.take(s@.len() as int) =~= s@);
    }
    v
}

/// Copy out a span of the text.
pub fn subrange_chars(data: &Vec<char>, from: usize, to: usize) -> (v: Vec<char>)
    requires
        from <= to <= data@.len(),
    ensures
        v@ == data@.subrange(from as int, to as int),
{
    let mut v: Vec<char> = Vec::new();
    let mut i: usize = from;
    while i < to
        invariant
            from <= i <= to <= data@.len(),
            v@ == data@.subrange(from as int, i as int),
        decreases to - i,
    {
        v.push(data[i]);
        proof {
            assert(data@.subrange(from as int, i as int + 1) =~= data@.subrange(
                from as int,
                i as int,
            ).push(data@[i as int]));
        }
        i = i + 1;
    }
    v
}

pub proof fn lemma_count_concat(a: Seq<char>, b: Seq<char>, c: char)
    ensures
        count_in(a + b, c) == count_in(a, c) + count_in(b, c),
    decreases a.len(),
{
    if a.len() == 0 {
        assert(a + b =~= b);
    } else {
        assert((a + b).drop_first() =~= a.drop_first() + b);
        lemma_count_concat(a.drop_first(), b, c);
    }
}

/// A sequence with no occurrence of `c` counts zero occurrences of it.
pub proof fn lemma_count_absent(s: Seq<char>, c: char)
    requires
        forall|i: int| 0 <= i < s.len() ==> s[i] != c,
    ensures
        count_in(s, c) == 0,
    decreases s.len(),
{
    if s.len() > 0 {
        lemma_count_absent(s.drop_first(), c);
    }
}

/// A one-character sequence counts one occurrence of its character.
pub proof fn lemma_count_single(x: char, c: char)
    ensures
        count_in(seq![x], c) == (if x == c {
            1nat
        } else {
            0nat
        }),
{
    assert(seq![x].drop_first() =~= Seq::<char>::empty());
    assert(count_in(Seq::<char>::empty(), c) == 0);
}

} // verus!
