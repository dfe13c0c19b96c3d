//! The render instruction: the neutral intermediate representation between
//! the tree-walking renderer and the output emitter.

use vstd::prelude::*;

verus! {

/// One render instruction.  A node renderer produces an owned, flat sequence
/// of these; the output emitter consumes it exactly once.
///
/// A `Delimiter`'s second field is its breakability flag: it is `true` only
/// for the comma, and decides whether the sequence layout may break a line
/// after it.  `Indent` and `Unindent` adjust the emitter's indent counter and
/// write nothing themselves.
pub enum R {
    /// Literal text, emitted verbatim.
    Text(Vec<char>),
    /// A single delimiter character with its breakability flag.
    Delimiter(char, bool),
    /// A single plain character, emitted verbatim.
    Char(char),
    /// One collapsed space.
    Space,
    /// A line break; the emitter follows it with the current indentation.
    Newline,
    /// Increase the indent level by one.
    Indent,
    /// Decrease the indent level by one.
    Unindent,
}

/// The mathematical form of a render instruction, with text as a `Seq<char>`.
pub enum Inst {
    Text(Seq<char>),
    Delimiter(char, bool),
    Char(char),
    Space,
    Newline,
    Indent,
    Unindent,
}

impl DeepView for R {
    type V = Inst;

    open spec fn deep_view(&self) -> Inst {
        match self {
            R::Text(s) => Inst::Text(s@),
            R::Delimiter(c, b) => Inst::Delimiter(*c, *b),
            R::Char(c) => Inst::Char(*c),
            R::Space => Inst::Space,
            R::Newline => Inst::Newline,
            R::Indent => Inst::Indent,
            R::Unindent => Inst::Unindent,
        }
    }
}

/// The mathematical form of a whole instruction sequence, element by
/// element.  For a vector `v` of instructions this equals `v.deep_view()`.
pub open spec fn deep(s: Seq<R>) -> Seq<Inst> {
    Seq::new(s.len(), |i: int| s[i].deep_view())
}

/// The length an instruction contributes to the line-width budget: the
/// character count of literal text, and 1 for everything else.
pub open spec fn inst_len(i: Inst) -> nat {
    match i {
        Inst::Text(s) => s.len(),
        _ => 1,
    }
}

/// The characters an instruction writes when emitted at indent level zero.
pub open spec fn inst_chars(i: Inst) -> Seq<char> {
    match i {
        Inst::Text(s) => s,
        Inst::Delimiter(c, _) => seq![c],
        Inst::Char(c) => seq![c],
        Inst::Space => seq![' '],
        Inst::Newline => seq!['\n'],
        Inst::Indent => Seq::empty(),
        Inst::Unindent => Seq::empty(),
    }
}

pub open spec fn is_newline_inst(i: Inst) -> bool {
    i matches Inst::Newline
}

pub open spec fn is_breakable_inst(i: Inst) -> bool {
    i matches Inst::Delimiter(_, true)
}

/// The characters a whole instruction sequence writes at indent level zero.
pub open spec fn chars_of(items: Seq<Inst>) -> Seq<char>
    decreases items.len(),
{
    if items.len() == 0 {
        Seq::empty()
    } else {
        inst_chars(items[0]) + chars_of(items.drop_first())
    }
}

/// The line-width measure of a whole instruction sequence.
pub open spec fn total_len(items: Seq<Inst>) -> nat
    decreases items.len(),
{
    if items.len() == 0 {
        0
    } else {
        inst_len(items[0]) + total_len(items.drop_first())
    }
}

/// What an instruction does to the indent level.
pub open spec fn inst_depth(i: Inst) -> int {
    match i {
        Inst::Indent => 1,
        Inst::Unindent => -1,
        _ => 0,
    }
}

/// The net indent movement of a whole sequence.
pub open spec fn depth_of(items: Seq<Inst>) -> int
    decreases items.len(),
{
    if items.len() == 0 {
        0
    } else {
        inst_depth(items[0]) + depth_of(items.drop_first())
    }
}

/// The structural invariant of a render instruction stream: every `Indent`
/// has a matching later `Unindent` — the net movement is zero, and no
/// prefix ever dips below the level it started at.
pub open spec fn well_nested(items: Seq<Inst>) -> bool {
    &&& depth_of(items) == 0
    &&& forall|k: int| 0 <= k <= items.len() ==> depth_of(#[trigger] items.take(k)) >= 0
}

/// A sequence that never moves the indent level at all.
pub open spec fn flat(items: Seq<Inst>) -> bool {
    forall|k: int| 0 <= k < items.len() ==> inst_depth(#[trigger] items[k]) == 0
}

pub proof fn lemma_depth_concat(a: Seq<Inst>, b: Seq<Inst>)
    ensures
        depth_of(a + b) == depth_of(a) + depth_of(b),
    decreases a.len(),
{
    if a.len() == 0 {
        assert(a + b =~= b);
    } else {
        assert((a + b).drop_first() =~= a.drop_first() + b);
        lemma_depth_concat(a.drop_first(), b);
    }
}

pub proof fn lemma_depth_single(i: Inst)
    ensures
        depth_of(seq![i]) == inst_depth(i),
{
    assert(seq![i].drop_first() =~= Seq::<Inst>::empty());
    assert(depth_of(Seq::<Inst>::empty()) == 0);
}

pub proof fn lemma_flat_depth(items: Seq<Inst>)
    requires
        flat(items),
    ensures
        depth_of(items) == 0,
    decreases items.len(),
{
    if items.len() > 0 {
        assert(flat(items.drop_first())) by {
            assert(forall|k: int|
                0 <= k < items.drop_first().len() ==> #[trigger] items.drop_first()[k] == items[k
                    + 1]);
        }
        lemma_flat_depth(items.drop_first());
    }
}

/// A sequence that never moves the indent level is trivially well nested.
pub proof fn lemma_flat_wn(items: Seq<Inst>)
    requires
        flat(items),
    ensures
        well_nested(items),
{
    lemma_flat_depth(items);
    assert forall|k: int| 0 <= k <= items.len() implies depth_of(#[trigger] items.take(k))
        >= 0 by {
        assert(flat(items.take(k))) by {
            assert(forall|j: int|
                0 <= j < items.take(k).len() ==> #[trigger] items.take(k)[j] == items[j]);
        }
        lemma_flat_depth(items.take(k));
    }
}

pub proof fn lemma_wn_empty()
    ensures
        well_nested(Seq::<Inst>::empty()),
{
    assert(flat(Seq::<Inst>::empty()));
    lemma_flat_wn(Seq::<Inst>::empty());
}

/// Appending an instruction that moves no indent level keeps a stream
/// well nested.
pub proof fn lemma_wn_push_flat(a: Seq<Inst>, i: Inst)
    requires
        well_nested(a),
        inst_depth(i) == 0,
    ensures
        well_nested(a.push(i)),
{
    assert(a.push(i) =~= a + seq![i]);
    assert(flat(seq![i]));
    lemma_flat_wn(seq![i]);
    lemma_wn_concat(a, seq![i]);
}

/// Well-nested streams compose.
pub proof fn lemma_wn_concat(a: Seq<Inst>, b: Seq<Inst>)
    requires
        well_nested(a),
        well_nested(b),
    ensures
        well_nested(a + b),
{
    lemma_depth_concat(a, b);
    assert forall|k: int| 0 <= k <= (a + b).len() implies depth_of(#[trigger] (a + b).take(k))
        >= 0 by {
        if k <= a.len() {
            assert((a + b).take(k) =~= a.take(k));
        } else {
            assert((a + b).take(k) =~= a + b.take(k - a.len()));
            lemma_depth_concat(a, b.take(k - a.len()));
        }
    }
}

pub open spec fn has_newline(items: Seq<Inst>) -> bool {
    exists|i: int| 0 <= i < items.len() && is_newline_inst(#[trigger] items[i])
}

pub open spec fn has_breakable(items: Seq<Inst>) -> bool {
    exists|i: int| 0 <= i < items.len() && is_breakable_inst(#[trigger] items[i])
}

impl R {
    /// The length this instruction contributes to the line-width budget.
    pub fn len(&self) -> (n: usize)
        ensures
            n == inst_len(self.deep_view()),
    {
        match self {
            R::Text(s) => s.len(),
            _ => 1,
        }
    }

    /// Whether this instruction is a forced line break.
    pub fn is_newline(&self) -> (b: bool)
        ensures
            b == is_newline_inst(self.deep_view()),
    {
        match self {
            R::Newline => true,
            _ => false,
        }
    }

    /// Whether this instruction is a breakable delimiter: a delimiter at
    /// which the sequence layout may break the line.
    pub fn is_breakable_delimiter(&self) -> (b: bool)
        ensures
            b == is_breakable_inst(self.deep_view()),
    {
        match self {
            R::Delimiter(_, breakable) => *breakable,
            _ => false,
        }
    }
}

/// The mathematical form of a list of instruction sequences.
pub open spec fn deep2(s: Seq<Vec<R>>) -> Seq<Seq<Inst>> {
    Seq::new(s.len(), |i: int| deep(s[i]@))
}

pub proof fn lemma_total_len_push(s: Seq<Inst>, x: Inst)
    ensures
        total_len(s.push(x)) == total_len(s) + inst_len(x),
{
    assert(s.push(x) =~= s + seq![x]);
    lemma_total_len_concat(s, seq![x]);
    assert(seq![x].drop_first() =~= Seq::<Inst>::empty());
    assert(total_len(Seq::<Inst>::empty()) == 0);
    assert(total_len(seq![x]) == inst_len(x));
}

pub proof fn lemma_deep_push(s: Seq<R>, x: R)
    ensures
        deep(s.push(x)) == deep(s).push(x.deep_view()),
{
    assert(deep(s.push(x)) =~= deep(s).push(x.deep_view()));
}

/// Append one instruction, tracked at the mathematical level.
pub fn push_inst(out: &mut Vec<R>, x: R)
    ensures
        deep(final(out)@) == deep(old(out)@).push(x.deep_view()),
{
    proof {
        lemma_deep_push(out@, x);
    }
    out.push(x);
}

pub proof fn lemma_deep_concat(a: Seq<R>, b: Seq<R>)
    ensures
        deep(a + b) == deep(a) + deep(b),
{
    assert(deep(a + b) =~= deep(a) + deep(b));
}

pub proof fn lemma_chars_of_concat(a: Seq<Inst>, b: Seq<Inst>)
    ensures
        chars_of(a + b) == chars_of(a) + chars_of(b),
    decreases a.len(),
{
    if a.len() == 0 {
        assert(a + b =~= b);
        assert(chars_of(a) + chars_of(b) =~= chars_of(b));
    } else {
        assert((a + b).drop_first() =~= a.drop_first() + b);
        lemma_chars_of_concat(a.drop_first(), b);
        assert(inst_chars(a[0]) + (chars_of(a.drop_first()) + chars_of(b)) =~= (inst_chars(a[0])
            + chars_of(a.drop_first())) + chars_of(b));
    }
}

pub proof fn lemma_total_len_concat(a: Seq<Inst>, b: Seq<Inst>)
    ensures
        total_len(a + b) == total_len(a) + total_len(b),
    decreases a.len(),
{
    if a.len() == 0 {
        assert(a + b =~= b);
    } else {
        assert((a + b).drop_first() =~= a.drop_first() + b);
        lemma_total_len_concat(a.drop_first(), b);
    }
}

pub proof fn lemma_chars_of_single(i: Inst)
    ensures
        chars_of(seq![i]) == inst_chars(i),
{
    assert(seq![i].drop_first() =~= Seq::<Inst>::empty());
    assert(chars_of(Seq::<Inst>::empty()) =~= Seq::<char>::empty());
    assert(inst_chars(i) + Seq::<char>::empty() =~= inst_chars(i));
}

pub proof fn lemma_chars_of_push(a: Seq<Inst>, i: Inst)
    ensures
        chars_of(a.push(i)) == chars_of(a) + inst_chars(i),
{
    assert(a.push(i) =~= a + seq![i]);
    lemma_chars_of_concat(a, seq![i]);
    assert(seq![i].drop_first() =~= Seq::<Inst>::empty());
    assert(chars_of(Seq::<Inst>::empty()) =~= Seq::<char>::empty());
    assert(chars_of(seq![i]) =~= inst_chars(i));
}

} // verus!
