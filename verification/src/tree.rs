use vstd::prelude::*;
use vstd::string::StringExecFns;

use crate::charset::Charset;

verus! {

/// A node of a labeled tree: a line of text and its subtrees.
#[derive(Debug)]
pub struct Node {
    pub data: String,
    pub children: Vec<Node>,
}

/// A labeled tree to be drawn with the given glyphs. Only the root's
/// children are drawn; the root itself is a silent anchor.
#[derive(Debug)]
pub struct Tree {
    pub charset: Charset,
    pub root: Node,
}

/// The ghost shape of a node: its text and its subtrees' shapes.
pub ghost struct NodeV {
    pub data: Seq<char>,
    pub children: Seq<NodeV>,
}

impl Node {
    /// The ghost shape of this node.
    pub open spec fn view(self) -> NodeV
        decreases self,
    {
        NodeV { data: self.data@, children: nodes_view(self.children@) }
    }

    pub fn new(data: String) -> (r: Node)
        ensures
            r@.data == data@,
            r@.children == Seq::<NodeV>::empty(),
    {
        let r = Node { data, children: Vec::new() };
        proof {
            assert(nodes_view(r.children@) =~= Seq::<NodeV>::empty());
        }
        r
    }
}

/// The ghost shapes of a run of nodes.
pub open spec fn nodes_view(s: Seq<Node>) -> Seq<NodeV>
    decreases s,
{
    if s.len() == 0 {
        Seq::empty()
    } else {
        nodes_view(s.drop_last()).push(s.last()@)
    }
}

/// `nodes_view` is the pointwise shape of the run.
pub proof fn lemma_nodes_view_index(s: Seq<Node>)
    ensures
        nodes_view(s).len() == s.len(),
        forall|i: int| 0 <= i < s.len() ==> nodes_view(s)[i] == (#[trigger] s[i])@,
    decreases s.len(),
{
    if s.len() > 0 {
        lemma_nodes_view_index(s.drop_last());
        assert forall|i: int| 0 <= i < s.len() implies nodes_view(s)[i] == (#[trigger] s[i])@ by {
            if i < s.len() - 1 {
                assert(nodes_view(s)[i] == nodes_view(s.drop_last())[i]);
                assert(s.drop_last()[i] == s[i]);
            }
        }
    }
}

/// Pushing one node extends the run's shape by the node's shape.
pub proof fn lemma_push_view(before: Seq<Node>, after: Seq<Node>, x: Node)
    requires
        after == before.push(x),
    ensures
        nodes_view(after) == nodes_view(before).push(x@),
{
    lemma_nodes_view_index(after);
    lemma_nodes_view_index(before);
    assert forall|i: int| 0 <= i < after.len() implies nodes_view(after)[i] == nodes_view(
        before,
    ).push(x@)[i] by {
        if i < before.len() {
            assert(after[i] == before[i]);
        } else {
            assert(after[i] == x);
        }
    }
    assert(nodes_view(after) =~= nodes_view(before).push(x@));
}

/// One drawn node: its own line behind the branch glyph, then its children,
/// the last behind a corner, the rest behind a tee.
pub open spec fn spec_draw_node(n: NodeV, pre: Seq<char>, is_last: bool, cs: Charset) -> Seq<char>
    decreases n, 1int, 0int,
{
    let head = pre + (if is_last {
        cs.tree_corner@
    } else {
        cs.tree_sideways_t@
    }) + n.data + seq!['\n'];
    let child_pre = pre + (if is_last {
        cs.tree_space@
    } else {
        cs.tree_pipe_gap@
    });
    head + spec_draw_children(n.children, 0, child_pre, cs)
}

/// The drawn children from index `i` on.
pub open spec fn spec_draw_children(s: Seq<NodeV>, i: int, pre: Seq<char>, cs: Charset) -> Seq<
    char,
>
    decreases s, 0int, s.len() - i,
{
    if 0 <= i < s.len() {
        spec_draw_node(s[i], pre, i == s.len() - 1, cs) + spec_draw_children(s, i + 1, pre, cs)
    } else {
        Seq::empty()
    }
}

/// The whole drawing: each top-level node as a bare line, then its subtree.
pub open spec fn spec_draw_top(s: Seq<NodeV>, i: int, cs: Charset) -> Seq<char>
    decreases s, 0int, s.len() - i,
{
    if 0 <= i < s.len() {
        s[i].data + seq!['\n'] + spec_draw_children(s[i].children, 0, Seq::empty(), cs)
            + spec_draw_top(s, i + 1, cs)
    } else {
        Seq::empty()
    }
}

/// What a tree renders to.
pub open spec fn spec_render_tree(t: Tree) -> Seq<char> {
    spec_draw_top(t.root@.children, 0, t.charset)
}

impl Tree {
    pub fn is_empty(&self) -> (r: bool)
        ensures
            r == (self.root@.children.len() == 0),
    {
        self.root.children.len() == 0
    }

    /// Draws the tree, one line per node, ending with a newline unless the
    /// tree is empty.
    pub fn render(&self) -> (r: String)
        ensures
            r@ == spec_render_tree(*self),
    {
        let mut out = String::new();
        let n = self.root.children.len();
        proof {
            assert(Seq::<char>::empty() + spec_draw_top(self.root@.children, 0, self.charset)
                =~= spec_draw_top(self.root@.children, 0, self.charset));
        }
        let mut i: usize = 0;
        #[verifier::loop_isolation(false)]
        while i < n
            invariant
                i <= n,
                out@ + spec_draw_top(self.root@.children, i as int, self.charset)
                    == spec_render_tree(*self),
            decreases n - i,
        {
            let lv1 = &self.root.children[i];
            out.append(lv1.data.as_str());
            out.append("\n");
            let pre = String::new();
            let sub = draw_children(&lv1.children, &pre, &self.charset);
            out.append(sub.as_str());
            proof {
                reveal_strlit("\n");
                assert(("\n")@ =~= seq!['\n']);
                lemma_nodes_view_index(self.root.children@);
                assert(self.root@.children[i as int] == self.root.children@[i as int]@);
                assert(out@ + spec_draw_top(self.root@.children, i + 1, self.charset)
                    =~= spec_render_tree(*self));
            }
            i = i + 1;
        }
        proof {
            lemma_nodes_view_index(self.root.children@);
            assert(out@ + spec_draw_top(self.root@.children, n as int, self.charset) =~= out@);
        }
        out
    }
}

/// Draws a run of sibling nodes under the given prefix.
fn draw_children(s: &Vec<Node>, pre: &String, cs: &Charset) -> (r: String)
    ensures
        r@ == spec_draw_children(nodes_view(s@), 0, pre@, *cs),
    decreases s,
{
    let mut out = String::new();
    let n = s.len();
    proof {
        lemma_nodes_view_index(s@);
        assert(Seq::<char>::empty() + spec_draw_children(nodes_view(s@), 0, pre@, *cs)
            =~= spec_draw_children(nodes_view(s@), 0, pre@, *cs));
    }
    let mut i: usize = 0;
    #[verifier::loop_isolation(false)]
    while i < n
        invariant
            i <= n,
            out@ + spec_draw_children(nodes_view(s@), i as int, pre@, *cs) == spec_draw_children(
                nodes_view(s@),
                0,
                pre@,
                *cs,
            ),
        decreases n - i,
    {
        let is_last = i == n - 1;
        let sub = draw_node(&s[i], pre, is_last, cs);
        out.append(sub.as_str());
        proof {
            lemma_nodes_view_index(s@);
            assert(nodes_view(s@)[i as int] == s@[i as int]@);
            assert(out@ + spec_draw_children(nodes_view(s@), i + 1, pre@, *cs)
                =~= spec_draw_children(nodes_view(s@), 0, pre@, *cs));
        }
        i = i + 1;
    }
    proof {
        assert(out@ + spec_draw_children(nodes_view(s@), n as int, pre@, *cs) =~= out@);
    }
    out
}

/// Draws one node and its subtree under the given prefix.
fn draw_node(n: &Node, pre: &String, is_last: bool, cs: &Charset) -> (r: String)
    ensures
        r@ == spec_draw_node(n@, pre@, is_last, *cs),
    decreases n,
{
    let mut out = String::new();
    out.append(pre.as_str());
    if is_last {
        out.append(cs.tree_corner.as_str());
    } else {
        out.append(cs.tree_sideways_t.as_str());
    }
    out.append(n.data.as_str());
    out.append("\n");
    let mut child_pre = String::new();
    child_pre.append(pre.as_str());
    if is_last {
        child_pre.append(cs.tree_space.as_str());
    } else {
        child_pre.append(cs.tree_pipe_gap.as_str());
    }
    let sub = draw_children(&n.children, &child_pre, cs);
    out.append(sub.as_str());
    proof {
        reveal_strlit("\n");
        assert(("\n")@ =~= seq!['\n']);
    }
    out
}

} // verus!
