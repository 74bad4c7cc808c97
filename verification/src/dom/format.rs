//! The tree written out as markup, one node to a line.

use crate::dom::{lemma_element_node_view, repeated, Node, NodeView};
use crate::strmap::entry_views;
use vstd::prelude::*;
use vstd::string::StringExecFns;

verus! {

/// The attributes as they stand in an opening tag: for each, a space, the
/// name, `=` and the value between double quotes.
pub open spec fn format_attributes(attributes: Seq<(Seq<char>, Seq<char>)>) -> Seq<char>
    decreases attributes.len(),
{
    if attributes.len() == 0 {
        Seq::empty()
    } else {
        format_attributes(attributes.drop_last()) + " "@ + attributes.last().0 + "=\""@
            + attributes.last().1 + "\""@
    }
}

/// The markup of `node` at nesting depth `depth`. Every line is indented by
/// four spaces for each level. An element is written as an opening tag, its
/// children one level deeper, and a closing tag, whether it was paired or
/// not.
pub open spec fn format_node(node: NodeView, depth: nat) -> Seq<char>
    decreases node,
{
    match node {
        NodeView::Element(element) => repeated("    "@, depth) + "<"@ + element.tag_name
            + format_attributes(element.attributes) + ">\n"@ + format_nodes(
            element.children,
            depth + 1,
        ) + repeated("    "@, depth) + "</"@ + element.tag_name + ">\n"@,
        NodeView::Text(text) => repeated("    "@, depth) + text + "\n"@,
        NodeView::Comment(text) => repeated("    "@, depth) + "<!--"@ + text + "-->\n"@,
    }
}

/// The markup of `nodes`, one after the other, at nesting depth `depth`.
pub open spec fn format_nodes(nodes: Seq<NodeView>, depth: nat) -> Seq<char>
    decreases nodes,
{
    if nodes.len() == 0 {
        Seq::empty()
    } else {
        format_nodes(nodes.drop_last(), depth) + format_node(nodes.last(), depth)
    }
}

/// Writes `node` out as markup.
pub fn node_format(node: &Node) -> (markup: String)
    ensures
        markup@ == format_node(node@, 0),
{
    let mut new_str = String::new();
    let indent = String::new();
    assert(indent@ =~= repeated("    "@, 0));
    _node_format(node, &mut new_str, indent.as_str(), Ghost(0));
    assert(Seq::<char>::empty() + format_node(node@, 0) =~= format_node(node@, 0));
    new_str
}

#[verifier::loop_isolation(false)]
fn _node_format(node: &Node, string: &mut String, indent: &str, Ghost(depth): Ghost<nat>)
    requires
        indent@ == repeated("    "@, depth),
    ensures
        final(string)@ == old(string)@ + format_node(node@, depth),
    decreases node,
{
    let ghost before = string@;
    match node {
        Node::Element(ed) => {
            proof {
                lemma_element_node_view(*ed);
            }
            let ghost shown = entry_views(ed.attributes@);
            let mut attrs = String::new();
            let mut i: usize = 0;
            assert(shown.take(0) =~= Seq::<(Seq<char>, Seq<char>)>::empty());
            while i < ed.attributes.len()
                invariant
                    i <= shown.len(),
                    shown.len() == ed.attributes@.len(),
                    attrs@ == format_attributes(shown.take(i as int)),
                decreases shown.len() - i,
            {
                assert(shown.take(i + 1).drop_last() =~= shown.take(i as int));
                attrs.append(" ");
                attrs.append(ed.attributes.key_at(i).as_str());
                attrs.append("=\"");
                attrs.append(ed.attributes.value_at(i).as_str());
                attrs.append("\"");
                i += 1;
            }
            assert(shown.take(shown.len() as int) =~= shown);
            string.append(indent);
            string.append("<");
            string.append(ed.tag_name.as_str());
            string.append(attrs.as_str());
            string.append(">\n");
            let mut deeper = String::new();
            deeper.append(indent);
            deeper.append("    ");
            assert(deeper@ =~= repeated("    "@, depth + 1));
            let ghost opened = string@;
            let mut j: usize = 0;
            assert(ed@.children.take(0) =~= Seq::<NodeView>::empty());
            assert(string@ =~= opened + format_nodes(ed@.children.take(0), depth + 1));
            while j < ed.children.len()
                invariant
                    j <= ed.children@.len(),
                    deeper@ == repeated("    "@, depth + 1),
                    string@ == opened + format_nodes(ed@.children.take(j as int), depth + 1),
                decreases ed.children@.len() - j,
            {
                let ghost seen = ed@.children.take(j as int);
                assert(ed@.children.take(j + 1).drop_last() =~= seen);
                assert(ed@.children.take(j + 1).last() == ed.children@[j as int]@);
                _node_format(&ed.children[j], string, deeper.as_str(), Ghost(depth + 1));
                assert(string@ =~= opened + format_nodes(ed@.children.take(j + 1), depth + 1));
                j += 1;
            }
            assert(ed@.children.take(ed.children@.len() as int) =~= ed@.children);
            string.append(indent);
            string.append("</");
            string.append(ed.tag_name.as_str());
            string.append(">\n");
            assert(string@ =~= before + format_node(node@, depth));
        },
        Node::Text(text) => {
            string.append(indent);
            string.append(text.as_str());
            string.append("\n");
            assert(string@ =~= before + format_node(node@, depth));
        },
        Node::Comment(comm) => {
            string.append(indent);
            string.append("<!--");
            string.append(comm.as_str());
            string.append("-->\n");
            assert(string@ =~= before + format_node(node@, depth));
        },
    }
}

} // verus!
