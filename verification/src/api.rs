//! The parse capability the layout engine consumes, as a set of traits: a
//! tree exposes a root node and a debug dump; a node exposes its kind tag,
//! span and namedness; a cursor walks a node's children depth-first.  The
//! crate's own parser implements all three, and any other backend that
//! produces the same [`Node`] shape can stand in for it.

use vstd::prelude::*;

use vstd::string::StringExecFns;

use crate::tree::{Kind, Node, Role, Tree};

verus! {

/// A parse tree: a root node over one chunk of text, plus a debug dump.
pub trait ParseTree {
    /// The root node, at the mathematical level.
    spec fn root_spec(&self) -> Node;

    /// The root node of the tree.
    fn root_node(&self) -> (r: &Node)
        ensures
            *r == self.root_spec(),
    ;

    /// A bracketed dump of the tree's productions: every node of the root,
    /// depth first.
    fn debug_tree(&self) -> (s: String)
        ensures
            s@ == debug_spec(self.root_spec()),
    ;
}

/// A parse node: a kind tag, a half-open character span, and whether the
/// production is semantically named rather than raw punctuation.
pub trait ParseNode {
    /// The node, at the mathematical level.
    spec fn model(&self) -> Node;

    /// The node's kind tag.
    fn kind(&self) -> (k: Kind)
        ensures
            k == self.model().kind,
    ;

    /// Start of the node's character span, inclusive.
    fn start_byte(&self) -> (r: usize)
        ensures
            r == self.model().start,
    ;

    /// End of the node's character span, exclusive.
    fn end_byte(&self) -> (r: usize)
        ensures
            r == self.model().end,
    ;

    /// Whether the node is a semantically meaningful production: everything
    /// but raw punctuation — single symbols and the comma.
    fn is_named(&self) -> (b: bool)
        ensures
            b == !((self.model().kind matches Kind::Symbol) || (
            self.model().kind matches Kind::Comma)),
    ;
}

/// A mutable traversal position over a tree: descend to the first child,
/// advance to the next sibling, and read the current node and its
/// structural role within its parent.
pub trait ParseCursor {
    /// The node the cursor stands on, at the mathematical level.
    spec fn current_spec(&self) -> Node;

    /// The ancestors descended through, outermost first, each with the
    /// child index the cursor took below it.
    spec fn trail_spec(&self) -> Seq<(Node, int)>;

    /// Descend to the current node's first child; `false`, moving nothing,
    /// if it has none.
    fn goto_first_child(&mut self) -> (b: bool)
        ensures
            b == (old(self).current_spec().children@.len() > 0),
            b ==> final(self).current_spec() == old(self).current_spec().children@[0],
            b ==> final(self).trail_spec()
                == old(self).trail_spec().push((old(self).current_spec(), 0int)),
            !b ==> final(self).current_spec() == old(self).current_spec(),
            !b ==> final(self).trail_spec() == old(self).trail_spec(),
    ;

    /// Advance to the current node's next sibling; `false`, moving nothing,
    /// at the last sibling or at the node the cursor started from.
    fn goto_next_sibling(&mut self) -> (b: bool)
        ensures
            b == (old(self).trail_spec().len() > 0
                && old(self).trail_spec().last().1 + 1
                < old(self).trail_spec().last().0.children@.len()),
            b ==> final(self).current_spec()
                == old(self).trail_spec().last().0.children@[old(self).trail_spec().last().1 + 1],
            b ==> final(self).trail_spec()
                == old(self).trail_spec().drop_last().push(
                (old(self).trail_spec().last().0, old(self).trail_spec().last().1 + 1),
            ),
            !b ==> final(self).current_spec() == old(self).current_spec(),
            !b ==> final(self).trail_spec() == old(self).trail_spec(),
    ;

    /// The node the cursor stands on.
    fn node(&self) -> (r: &Node)
        ensures
            *r == self.current_spec(),
    ;

    /// The structural role of the current node within its parent.
    fn field_name(&self) -> (r: Role)
        ensures
            r == self.current_spec().role,
    ;
}

/// A depth-first cursor over one tree, remembering the ancestors it
/// descended through and the child index taken at each.
pub struct Cursor<'a> {
    trail: Vec<(&'a Node, usize)>,
    current: &'a Node,
}

/// Start a cursor at `n`, with an empty trail.
pub fn walk<'a>(n: &'a Node) -> (c: Cursor<'a>)
    ensures
        c.current_spec() == *n,
        c.trail_spec() == Seq::<(Node, int)>::empty(),
{
    let c = Cursor { trail: Vec::new(), current: n };
    proof {
        assert(c.trail_spec() =~= Seq::<(Node, int)>::empty());
    }
    c
}

impl<'a> ParseCursor for Cursor<'a> {
    closed spec fn current_spec(&self) -> Node {
        *self.current
    }

    closed spec fn trail_spec(&self) -> Seq<(Node, int)> {
        Seq::new(self.trail@.len(), |i: int| (*self.trail@[i].0, self.trail@[i].1 as int))
    }

    fn goto_first_child(&mut self) -> (b: bool) {
        let cur = self.current;
        if cur.children.len() > 0 {
            let ghost pre = self.trail_spec();
            self.trail.push((cur, 0));
            self.current = &cur.children[0];
            proof {
                assert(self.trail_spec() =~= pre.push((*cur, 0int)));
            }
            true
        } else {
            false
        }
    }

    fn goto_next_sibling(&mut self) -> (b: bool) {
        if self.trail.len() == 0 {
            false
        } else {
            let (parent, idx) = self.trail[self.trail.len() - 1];
            if idx < parent.children.len() && idx + 1 < parent.children.len() {
                let ghost pre = self.trail_spec();
                self.trail.pop();
                self.trail.push((parent, idx + 1));
                self.current = &parent.children[idx + 1];
                proof {
                    assert(self.trail_spec() =~= pre.drop_last().push(
                        (*parent, idx as int + 1),
                    ));
                }
                true
            } else {
                false
            }
        }
    }

    fn node(&self) -> (r: &Node) {
        self.current
    }

    fn field_name(&self) -> (r: Role) {
        self.current.role
    }
}

impl ParseNode for Node {
    open spec fn model(&self) -> Node {
        *self
    }

    fn kind(&self) -> (k: Kind) {
        self.kind
    }

    fn start_byte(&self) -> (r: usize) {
        self.start
    }

    fn end_byte(&self) -> (r: usize) {
        self.end
    }

    fn is_named(&self) -> (b: bool) {
        match self.kind {
            Kind::Symbol => false,
            Kind::Comma => false,
            _ => true,
        }
    }
}

impl ParseTree for Tree {
    open spec fn root_spec(&self) -> Node {
        self.root
    }

    fn root_node(&self) -> (r: &Node) {
        &self.root
    }

    fn debug_tree(&self) -> (s: String) {
        let mut s = String::new();
        proof {
            assert(s@ + debug_spec(self.root) =~= debug_spec(self.root));
        }
        debug_node(&self.root, &mut s);
        s
    }
}

/// The display name of a kind tag, for the debug dump.
pub open spec fn kind_name_spec(k: Kind) -> Seq<char> {
    match k {
        Kind::Symbol => "symbol"@,
        Kind::BinaryOp => "binary_op"@,
        Kind::Text => "text"@,
        Kind::Time => "time"@,
        Kind::Comma => ","@,
        Kind::Container => "container"@,
        Kind::CommaSeq => "comma_delimited_sequence"@,
        Kind::Group => "group"@,
    }
}

/// The dump of one node: its kind name and its children's dumps, space
/// separated, in one bracket pair.
pub open spec fn debug_spec(n: Node) -> Seq<char>
    decreases n, n.children@.len() as int + 1,
{
    "("@ + kind_name_spec(n.kind) + debug_children_spec(n, n.children@.len() as int) + ")"@
}

/// The dumps of the first `k` children, each preceded by one space.
pub open spec fn debug_children_spec(n: Node, k: int) -> Seq<char>
    decreases n, k,
{
    if k <= 0 || k > n.children@.len() {
        Seq::empty()
    } else {
        debug_children_spec(n, k - 1) + " "@ + debug_spec(n.children@[k - 1])
    }
}

/// The display name of a kind tag.
fn kind_name(k: Kind) -> (r: &'static str)
    ensures
        r@ == kind_name_spec(k),
{
    match k {
        Kind::Symbol => "symbol",
        Kind::BinaryOp => "binary_op",
        Kind::Text => "text",
        Kind::Time => "time",
        Kind::Comma => ",",
        Kind::Container => "container",
        Kind::CommaSeq => "comma_delimited_sequence",
        Kind::Group => "group",
    }
}

/// Append a bracketed dump of `n` and its children to `out`.
fn debug_node(n: &Node, out: &mut String)
    ensures
        final(out)@ == old(out)@ + debug_spec(*n),
    decreases *n,
{
    let ghost pre = out@;
    out.append("(");
    out.append(kind_name(n.kind));
    let mut i: usize = 0;
    proof {
        assert(out@ =~= pre + ("("@ + kind_name_spec(n.kind) + debug_children_spec(
            *n,
            0,
        )));
    }
    while i < n.children.len()
        invariant
            i <= n.children@.len(),
            out@ == pre + ("("@ + kind_name_spec(n.kind) + debug_children_spec(*n, i as int)),
        decreases n.children@.len() - i,
    {
        let ghost mid = out@;
        out.append(" ");
        debug_node(&n.children[i], out);
        proof {
            assert(out@ =~= pre + ("("@ + kind_name_spec(n.kind) + debug_children_spec(
                *n,
                i as int + 1,
            )));
        }
        i = i + 1;
    }
    out.append(")");
    proof {
        assert(out@ =~= pre + debug_spec(*n));
    }
}

} // verus!
