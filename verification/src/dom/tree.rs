//! The tree written out as an outline, one node to a line.

use crate::dom::{lemma_element_node_view, repeated, Node, NodeView};
use vstd::prelude::*;
use vstd::string::StringExecFns;

verus! {

/// The outline of `node` at nesting depth `depth`. Every line is indented
/// by two spaces for each level. An element is its tag name, with its
/// children one level deeper; a text stands between double quotes; a
/// comment stands behind `//`.
pub open spec fn tree_node(node: NodeView, depth: nat) -> Seq<char>
    decreases node,
{
    match node {
        NodeView::Element(element) => repeated("  "@, depth) + element.tag_name + "\n"@
            + tree_nodes(element.children, depth + 1),
        NodeView::Text(text) => repeated("  "@, depth) + "\""@ + text + "\"\n"@,
        NodeView::Comment(text) => repeated("  "@, depth) + "//"@ + text + "\n"@,
    }
}

/// The outlines of `nodes`, one after the other, at nesting depth `depth`.
pub open spec fn tree_nodes(nodes: Seq<NodeView>, depth: nat) -> Seq<char>
    decreases nodes,
{
    if nodes.len() == 0 {
        Seq::empty()
    } else {
        tree_nodes(nodes.drop_last(), depth) + tree_node(nodes.last(), depth)
    }
}

/// Writes `node` out as an outline.
pub fn node_tree(node: &Node) -> (outline: String)
    ensures
        outline@ == tree_node(node@, 0),
{
    let mut new_str = String::new();
    let indent = String::new();
    assert(indent@ =~= repeated("  "@, 0));
    _node_tree(node, &mut new_str, indent.as_str(), Ghost(0));
    assert(Seq::<char>::empty() + tree_node(node@, 0) =~= tree_node(node@, 0));
    new_str
}

#[verifier::loop_isolation(false)]
fn _node_tree(node: &Node, string: &mut String, indent: &str, Ghost(depth): Ghost<nat>)
    requires
        indent@ == repeated("  "@, depth),
    ensures
        final(string)@ == old(string)@ + tree_node(node@, depth),
    decreases node,
{
    let ghost before = string@;
    match node {
        Node::Element(ed) => {
            proof {
                lemma_element_node_view(*ed);
            }
            string.append(indent);
            string.append(ed.tag_name.as_str());
            string.append("\n");
            let mut deeper = String::new();
            deeper.append(indent);
            deeper.append("  ");
            assert(deeper@ =~= repeated("  "@, depth + 1));
            let ghost opened = string@;
            let mut j: usize = 0;
            assert(ed@.children.take(0) =~= Seq::<NodeView>::empty());
            assert(string@ =~= opened + tree_nodes(ed@.children.take(0), depth + 1));
            while j < ed.children.len()
                invariant
                    j <= ed.children@.len(),
                    deeper@ == repeated("  "@, depth + 1),
                    string@ == opened + tree_nodes(ed@.children.take(j as int), depth + 1),
                decreases ed.children@.len() - j,
            {
                let ghost seen = ed@.children.take(j as int);
                assert(ed@.children.take(j + 1).drop_last() =~= seen);
                assert(ed@.children.take(j + 1).last() == ed.children@[j as int]@);
                _node_tree(&ed.children[j], string, deeper.as_str(), Ghost(depth + 1));
                assert(string@ =~= opened + tree_nodes(ed@.children.take(j + 1), depth + 1));
                j += 1;
            }
            assert(ed@.children.take(ed.children@.len() as int) =~= ed@.children);
            assert(string@ =~= before + tree_node(node@, depth));
        },
        Node::Text(text) => {
            string.append(indent);
            string.append("\"");
            string.append(text.as_str());
            string.append("\"\n");
            assert(string@ =~= before + tree_node(node@, depth));
        },
        Node::Comment(comm) => {
            string.append(indent);
            string.append("//");
            string.append(comm.as_str());
            string.append("\n");
            assert(string@ =~= before + tree_node(node@, depth));
        },
    }
}

} // verus!
