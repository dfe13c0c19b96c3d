//! The parse tree the renderer walks: a node carries a kind tag, a
//! half-open character span into the chunk text, a structural role within
//! its parent, and its children.  Well-formedness ties the spans to the
//! text: children sit ordered and disjoint inside their parent, and every
//! meaningful (non-whitespace) character of a node's span lies inside one
//! of its children.

use vstd::prelude::*;

use crate::chars::{count_in, is_ws, lemma_ws_same_empty, same_nonws};

verus! {

/// The kind tag of a parse node, deciding how the renderer lays it out.
#[derive(Clone, Copy, PartialEq, Eq, Structural, Debug)]
pub enum Kind {
    /// A punctuation token: a single character renders as an unbreakable
    /// delimiter, a longer one as literal text.
    Symbol,
    /// An operand-operator chain such as `a = b` or `key: value`.
    BinaryOp,
    /// Free-running text, rendered verbatim through the whitespace
    /// normalizer.
    Text,
    /// A clock-like token of digits and colons, rendered verbatim so that
    /// its colons are not spaced like operators.
    Time,
    /// The comma: the one breakable delimiter of the language.
    Comma,
    /// A bracketed container: an opening bracket, inner siblings, a closing
    /// bracket.
    Container,
    /// A comma-delimited sequence of siblings.
    CommaSeq,
    /// Any other named production: siblings joined generically, with the
    /// raw gaps between them preserved.
    Group,
}

/// The structural role of a child inside a container.
#[derive(Clone, Copy, PartialEq, Eq, Structural, Debug)]
pub enum Role {
    /// An ordinary child, rendered recursively.
    General,
    /// The child supplying the opening bracket character.
    Open,
    /// The child supplying the closing bracket character.
    Close,
}

/// One parse-tree node over the chunk text.
pub struct Node {
    pub kind: Kind,
    pub role: Role,
    /// Start of the node's character span, inclusive.
    pub start: usize,
    /// End of the node's character span, exclusive.
    pub end: usize,
    pub children: Vec<Node>,
}

/// One parsed chunk: the chunk text the tree's spans point into (the
/// parser may have added balancing brackets to it), and the root node.
pub struct Tree {
    pub text: Vec<char>,
    pub root: Node,
}

/// The purely mathematical form of a parse node: the same shape as
/// [`Node`], with integer span ends and `Seq` children, so that spec
/// functions can build one.  The parser's contract pins the tree it returns
/// through this form.
#[verifier::ext_equal]
pub ghost struct GNode {
    pub kind: Kind,
    pub role: Role,
    pub start: int,
    pub end: int,
    pub children: Seq<GNode>,
}

/// The mathematical form of a node.
pub open spec fn gview(n: Node) -> GNode
    decreases n, n.children@.len() as int + 1,
{
    GNode {
        kind: n.kind,
        role: n.role,
        start: n.start as int,
        end: n.end as int,
        children: gchildren(n, n.children@.len() as int),
    }
}

/// The mathematical forms of the first `k` children of a node.
pub open spec fn gchildren(n: Node, k: int) -> Seq<GNode>
    decreases n, k,
{
    if k <= 0 || k > n.children@.len() {
        Seq::empty()
    } else {
        gchildren(n, k - 1).push(gview(n.children@[k - 1]))
    }
}

/// The mathematical form of a node list, element by element.
pub open spec fn gseq(ns: Seq<Node>) -> Seq<GNode> {
    Seq::new(ns.len(), |i: int| gview(ns[i]))
}

pub proof fn lemma_gchildren(n: Node, k: int)
    requires
        0 <= k <= n.children@.len(),
    ensures
        gchildren(n, k).len() == k,
        forall|i: int| 0 <= i < k ==> gchildren(n, k)[i] == gview(n.children@[i]),
    decreases k,
{
    if k > 0 {
        lemma_gchildren(n, k - 1);
    }
}

/// A node's mathematical children are its children's mathematical forms.
pub proof fn lemma_gview_children(n: Node)
    ensures
        gview(n).children == gseq(n.children@),
{
    lemma_gchildren(n, n.children@.len() as int);
    assert(gview(n).children =~= gseq(n.children@));
}

pub proof fn lemma_gseq_push(ns: Seq<Node>, x: Node)
    ensures
        gseq(ns.push(x)) == gseq(ns).push(gview(x)),
{
    assert(gseq(ns.push(x)) =~= gseq(ns).push(gview(x)));
}

/// A tree is well-formed when its root is, over its own text.
pub open spec fn tree_wf(t: Tree) -> bool {
    node_wf(t.root, t.text@)
}

/// Whether position `p` lies inside some child's span.
pub open spec fn covered(ch: Seq<Node>, p: int) -> bool {
    exists|i: int| 0 <= i < ch.len() && (#[trigger] ch[i]).start <= p < ch[i].end
}

/// The structural relation between a parent span `[s, e)` and its children:
/// each child's span is sane and sits inside the parent's, children are
/// pairwise ordered and disjoint, and every non-whitespace character of the
/// parent's span lies inside some child.
pub open spec fn span_wf(ch: Seq<Node>, data: Seq<char>, s: int, e: int) -> bool {
    &&& forall|i: int|
        0 <= i < ch.len() ==> s <= (#[trigger] ch[i]).start && ch[i].start <= ch[i].end && ch[i].end
            <= e
    &&& forall|i: int, j: int|
        0 <= i < j < ch.len() ==> (#[trigger] ch[i]).end <= (#[trigger] ch[j]).start
    &&& forall|p: int| s <= p < e && !is_ws(data[p]) ==> covered(ch, p)
}

/// Well-formedness of a node over the chunk text `data`.
///
/// The span is sane; a comma spans exactly its one character; leaves have
/// no children.  For the branch kinds, the children are well-formed, sit
/// ordered and disjoint inside the parent's span, and cover every
/// non-whitespace character of it — so the raw text between siblings is
/// whitespace only.  In a container, only the first child may carry the
/// `Open` role and only the last the `Close` role, each spanning exactly
/// one character.
pub open spec fn node_wf(n: Node, data: Seq<char>) -> bool
    decreases n,
{
    &&& n.start <= n.end <= data.len()
    &&& match n.kind {
        Kind::Symbol | Kind::Text | Kind::Time => n.children@.len() == 0,
        Kind::Comma => {
            &&& n.children@.len() == 0
            &&& n.end == n.start + 1
            &&& data[n.start as int] == ','
        },
        Kind::BinaryOp | Kind::CommaSeq | Kind::Group | Kind::Container => {
            let ch = n.children@;
            &&& span_wf(ch, data, n.start as int, n.end as int)
            &&& forall|i: int| 0 <= i < ch.len() ==> node_wf(#[trigger] ch[i], data)
            &&& (n.kind matches Kind::Container ==> forall|i: int|
                0 <= i < ch.len() ==> role_wf(#[trigger] ch[i], i, ch.len() as int))
            &&& (!(n.kind matches Kind::Container) ==> forall|i: int|
                0 <= i < ch.len() ==> (#[trigger] ch[i]).role matches Role::General)
        },
    }
}

/// The role constraint on the `i`-th of `len` container children: a
/// bracket-supplying child stands first (opening) or last (closing) and
/// spans exactly one character.
pub open spec fn role_wf(c: Node, i: int, len: int) -> bool {
    match c.role {
        Role::General => true,
        Role::Open => i == 0 && c.end == c.start + 1,
        Role::Close => i == len - 1 && c.end == c.start + 1,
    }
}

/// A stretch `[a, b)` of a well-formed span that no child touches holds
/// nothing but whitespace: the raw gaps between siblings carry no
/// meaningful character.
pub proof fn lemma_gap_ws(ch: Seq<Node>, data: Seq<char>, s: int, e: int, a: int, b: int)
    requires
        span_wf(ch, data, s, e),
        0 <= s <= a <= b <= e,
        e <= data.len(),
        forall|i: int| 0 <= i < ch.len() ==> b <= (#[trigger] ch[i]).start || ch[i].end <= a,
    ensures
        forall|c: char|
            !is_ws(c) ==> #[trigger] count_in(data.subrange(a, b), c) == 0,
        same_nonws(data.subrange(a, b), Seq::<char>::empty()),
{
    assert forall|p: int| a <= p < b implies is_ws(#[trigger] data[p]) by {
        if !is_ws(data[p]) {
            assert(covered(ch, p));
            let i = choose|i: int| 0 <= i < ch.len() && (#[trigger] ch[i]).start <= p < ch[i].end;
            assert(b <= ch[i].start || ch[i].end <= a);
        }
    }
    let sub = data.subrange(a, b);
    assert forall|i: int| 0 <= i < sub.len() implies is_ws(#[trigger] sub[i]) by {
        assert(sub[i] == data[a + i]);
    }
    lemma_ws_same_empty(sub);
    assert forall|c: char| !is_ws(c) implies #[trigger] count_in(sub, c) == 0 by {
        assert(count_in(sub, c) == count_in(Seq::<char>::empty(), c));
    }
}

/// The end of the last of the first `k` children, or the parent's start
/// while none has been walked yet: how far a child loop has read.
pub open spec fn walked_to(ch: Seq<Node>, k: int, s: int) -> int {
    if k == 0 {
        s
    } else {
        ch[k - 1].end as int
    }
}

/// The raw gap between the walked prefix and the `k`-th child holds only
/// whitespace.
pub proof fn lemma_gap_before_child(ch: Seq<Node>, data: Seq<char>, s: int, e: int, k: int)
    requires
        span_wf(ch, data, s, e),
        0 <= s,
        e <= data.len(),
        0 <= k < ch.len(),
    ensures
        s <= walked_to(ch, k, s) <= ch[k].start as int,
        forall|c: char|
            !is_ws(c) ==> #[trigger] count_in(
                data.subrange(walked_to(ch, k, s), ch[k].start as int),
                c,
            ) == 0,
{
    let a = walked_to(ch, k, s);
    if k > 0 {
        assert(ch[k - 1].end <= ch[k].start);
        assert(s <= ch[k - 1].start);
    }
    assert forall|i: int| 0 <= i < ch.len() implies ch[k].start as int <= (#[trigger] ch[i]).start
        || ch[i].end <= a by {
        if i < k {
            if i < k - 1 {
                assert(ch[i].end <= ch[k - 1].start);
            }
        } else {
            if k < i {
                assert(ch[k].end <= ch[i].start);
            }
        }
    }
    lemma_gap_ws(ch, data, s, e, a, ch[k].start as int);
}

/// Whatever follows the last child inside the parent's span holds only
/// whitespace.
pub proof fn lemma_gap_after_children(ch: Seq<Node>, data: Seq<char>, s: int, e: int)
    requires
        span_wf(ch, data, s, e),
        0 <= s <= e,
        e <= data.len(),
    ensures
        s <= walked_to(ch, ch.len() as int, s) <= e,
        forall|c: char|
            !is_ws(c) ==> #[trigger] count_in(
                data.subrange(walked_to(ch, ch.len() as int, s), e),
                c,
            ) == 0,
{
    let len = ch.len() as int;
    let a = walked_to(ch, len, s);
    if len > 0 {
        assert(s <= ch[len - 1].start);
        assert(ch[len - 1].end <= e);
    }
    assert forall|i: int| 0 <= i < ch.len() implies e <= (#[trigger] ch[i]).start || ch[i].end
        <= a by {
        if i < len - 1 {
            assert(ch[i].end <= ch[len - 1].start);
        }
    }
    lemma_gap_ws(ch, data, s, e, a, e);
}

} // verus!
