//! Writing a tree out as markup and reading it back.
//!
//! The markup that `node_format` writes gives every node a line of its own,
//! and so a text that is read back has the end of its line with it. For a
//! tree without text nodes, whose attribute values hold no double quote,
//! reading the markup back gives the tree again, with every element paired.

use crate::dom::format::{format_attributes, format_node, format_nodes};
use crate::dom::{repeated, ElementView, NodeView};
use crate::html::{
    is_tag_char, lemma_attr_advances, lemma_attribute_read, lemma_attributes_done,
    lemma_attributes_skip_whitespace, lemma_not_a_comment, lemma_tag_name_read, not_char,
    spec_attr, spec_attributes, spec_attributes_from, spec_closing_tag, spec_comment,
    spec_element, spec_node, spec_nodes, spec_nodes_from, spec_parse, tag_name_end,
};
use crate::parser::{
    has_prefix_at, is_whitespace, lemma_run_end, lemma_run_end_unique, lemma_whitespace_end,
    run_end, spec_sequence, whitespace_end, ParseError,
};
use crate::strmap::{find_key, insert_entry, keys_distinct, lemma_find_key, lemma_insert_entry};
use vstd::prelude::*;

verus! {

/// `text` holds no `c`.
pub open spec fn lacks(text: Seq<char>, c: char) -> bool {
    forall|k: int| 0 <= k < text.len() ==> (#[trigger] text[k]) != c
}

/// `name` is made of lower-case letters and digits.
pub open spec fn is_name(name: Seq<char>) -> bool {
    forall|k: int| 0 <= k < name.len() ==> is_tag_char(#[trigger] name[k])
}

/// Each name of `attributes` is a name and stands once.
pub open spec fn attributes_well_formed(attributes: Seq<(Seq<char>, Seq<char>)>) -> bool {
    &&& keys_distinct(attributes)
    &&& forall|k: int| 0 <= k < attributes.len() ==> is_name((#[trigger] attributes[k]).0)
}

/// What holds of every tree that the parser gives: tag names and attribute
/// names are names, no attribute name stands twice in an element, no comment
/// holds a `-`, and an element that is not paired has no children.
pub open spec fn well_formed(node: NodeView) -> bool
    decreases node,
{
    match node {
        NodeView::Text(_) => true,
        NodeView::Comment(text) => lacks(text, '-'),
        NodeView::Element(element) => {
            &&& is_name(element.tag_name)
            &&& attributes_well_formed(element.attributes)
            &&& (!element.is_paired ==> element.children.len() == 0)
            &&& forall|k: int|
                0 <= k < element.children.len() ==> well_formed(#[trigger] element.children[k])
        },
    }
}

/// The tree holds no text node.
pub open spec fn has_no_text(node: NodeView) -> bool
    decreases node,
{
    match node {
        NodeView::Text(_) => false,
        NodeView::Comment(_) => true,
        NodeView::Element(element) => forall|k: int|
            0 <= k < element.children.len() ==> has_no_text(#[trigger] element.children[k]),
    }
}

/// No attribute value of the tree holds a double quote.
pub open spec fn has_no_double_quote(node: NodeView) -> bool
    decreases node,
{
    match node {
        NodeView::Text(_) => true,
        NodeView::Comment(_) => true,
        NodeView::Element(element) => {
            &&& forall|k: int|
                0 <= k < element.attributes.len() ==> lacks(
                    (#[trigger] element.attributes[k]).1,
                    '"',
                )
            &&& forall|k: int|
                0 <= k < element.children.len() ==> has_no_double_quote(
                    #[trigger] element.children[k],
                )
        },
    }
}

/// The tree with every element paired.
pub open spec fn paired(node: NodeView) -> NodeView
    decreases node,
{
    match node {
        NodeView::Element(element) => NodeView::Element(
            ElementView {
                tag_name: element.tag_name,
                is_paired: true,
                attributes: element.attributes,
                children: Seq::new(
                    element.children.len(),
                    |k: int|
                        if 0 <= k < element.children.len() {
                            paired(element.children[k])
                        } else {
                            NodeView::Text(Seq::empty())
                        },
                ),
            },
        ),
        other => other,
    }
}

/// Each of the trees with every element paired.
pub open spec fn paired_all(nodes: Seq<NodeView>) -> Seq<NodeView> {
    Seq::new(nodes.len(), |k: int| paired(nodes[k]))
}

/// A run of characters of a tag name is a name.
proof fn lemma_tag_name_is_name(s: Seq<char>, i: int)
    requires
        0 <= i <= s.len(),
    ensures
        is_name(s.subrange(i, tag_name_end(s, i))),
{
    lemma_run_end(s, i, |c: char| is_tag_char(c));
    let end = tag_name_end(s, i);
    let name = s.subrange(i, end);
    assert forall|k: int| 0 <= k < name.len() implies is_tag_char(#[trigger] name[k]) by {
        assert(name[k] == s[i + k]);
    }
}

/// Giving a name a value keeps attributes well-formed.
proof fn lemma_insert_well_formed(
    found: Seq<(Seq<char>, Seq<char>)>,
    name: Seq<char>,
    value: Seq<char>,
)
    requires
        attributes_well_formed(found),
        is_name(name),
    ensures
        attributes_well_formed(insert_entry(found, name, value)),
{
    lemma_insert_entry(found, name, value);
    lemma_find_key(found, name);
    let after = insert_entry(found, name, value);
    assert forall|k: int| 0 <= k < after.len() implies is_name((#[trigger] after[k]).0) by {
        if k < found.len() && after[k] != (name, value) {
            assert(after[k] == found[k]);
        }
    }
}

/// The attributes that are read are well-formed.
proof fn lemma_attributes_well_formed(s: Seq<char>, i: int, found: Seq<(Seq<char>, Seq<char>)>)
    requires
        0 <= i <= s.len(),
        attributes_well_formed(found),
    ensures
        spec_attributes_from(s, i, found) matches Ok((attributes, _)) ==> attributes_well_formed(
            attributes,
        ),
    decreases s.len() - i,
{
    lemma_whitespace_end(s, i);
    let at = whitespace_end(s, i);
    if at < s.len() && !(s[at] == '>' || s[at] == '/') {
        lemma_attr_advances(s, at);
        match spec_attr(s, at) {
            Err(e) => {},
            Ok((pair, end)) => {
                lemma_tag_name_is_name(s, at);
                lemma_insert_well_formed(found, pair.0, pair.1);
                lemma_attributes_well_formed(s, end, insert_entry(found, pair.0, pair.1));
            },
        }
    }
}

/// The comment that is read holds no `-`.
proof fn lemma_comment_well_formed(s: Seq<char>, i: int)
    ensures
        spec_comment(s, i) matches Ok((node, _)) ==> well_formed(node),
{
    match spec_sequence(s, i, "!--"@) {
        Err(e) => {},
        Ok(start) => {
            lemma_run_end(s, start, not_char('-'));
            let end = run_end(s, start, not_char('-'));
            let text = s.subrange(start, end);
            assert forall|k: int| 0 <= k < text.len() implies (#[trigger] text[k]) != '-' by {
                assert(text[k] == s[start + k]);
            }
        },
    }
}

/// The element or comment that is read at `i` is well-formed.
pub proof fn lemma_element_well_formed(s: Seq<char>, i: int)
    ensures
        spec_element(s, i) matches Ok((node, _)) ==> well_formed(node),
    decreases s.len() - i, 0nat,
{
    if 0 <= i < s.len() && s[i] == '<' {
        if has_prefix_at(s, i + 1, "!--"@) {
            lemma_comment_well_formed(s, i + 1);
        } else {
            let name_end = tag_name_end(s, i + 1);
            lemma_run_end(s, i + 1, |c: char| is_tag_char(c));
            lemma_tag_name_is_name(s, i + 1);
            lemma_attributes_well_formed(s, name_end, Seq::empty());
            match spec_attributes(s, name_end) {
                Err(e) => {},
                Ok((attributes, at)) => {
                    if i < at < s.len() && s[at] == '>' {
                        lemma_nodes_well_formed(s, at + 1, Seq::empty());
                    }
                },
            }
        }
    }
}

/// The node that is read at `i` is well-formed.
pub proof fn lemma_node_well_formed(s: Seq<char>, i: int)
    ensures
        spec_node(s, i) matches Ok((node, _)) ==> well_formed(node),
    decreases s.len() - i, 1nat,
{
    if 0 <= i < s.len() && s[i] == '<' {
        lemma_element_well_formed(s, i);
    }
}

/// The nodes that are read from `i` on are well-formed, if those found
/// before are.
pub proof fn lemma_nodes_well_formed(s: Seq<char>, i: int, found: Seq<NodeView>)
    requires
        forall|k: int| 0 <= k < found.len() ==> well_formed(#[trigger] found[k]),
    ensures
        spec_nodes_from(s, i, found) matches Ok((nodes, _)) ==> forall|k: int|
            0 <= k < nodes.len() ==> well_formed(#[trigger] nodes[k]),
    decreases s.len() - i, 2nat,
{
    let at = whitespace_end(s, i);
    if (0 <= i <= at < s.len()) && !has_prefix_at(s, at, "</"@) {
        lemma_node_well_formed(s, at);
        match spec_node(s, at) {
            Err(e) => {},
            Ok((node, end)) => {
                if at < end <= s.len() {
                    let more = found.push(node);
                    assert forall|k: int| 0 <= k < more.len() implies well_formed(
                        #[trigger] more[k],
                    ) by {
                        if k < found.len() {
                            assert(more[k] == found[k]);
                        }
                    }
                    lemma_nodes_well_formed(s, end, more);
                }
            },
        }
    }
}

/// Every tree that the parser gives is well-formed.
pub proof fn lemma_parsed_is_well_formed(source: Seq<char>)
    ensures
        spec_parse(source) matches Ok(tree) ==> well_formed(tree),
{
    lemma_nodes_well_formed(source, 0, Seq::empty());
}

/// A tree that `node_format` writes so that it can be read back: it is
/// well-formed, holds no text node, and no attribute value of it holds a
/// double quote.
pub open spec fn printable(node: NodeView) -> bool {
    well_formed(node) && has_no_text(node) && has_no_double_quote(node)
}

/// Four spaces for each level are that many spaces.
proof fn lemma_indent(depth: nat)
    ensures
        repeated("    "@, depth).len() == 4 * depth,
        forall|k: int| 0 <= k < 4 * depth ==> (#[trigger] repeated("    "@, depth)[k]) == ' ',
    decreases depth,
{
    reveal_strlit("    ");
    if depth > 0 {
        lemma_indent((depth - 1) as nat);
    }
}

/// A text that stands at `i` has its first part at `i` and its second part
/// behind it.
proof fn lemma_prefix_split(s: Seq<char>, i: int, a: Seq<char>, b: Seq<char>)
    requires
        has_prefix_at(s, i, a + b),
    ensures
        has_prefix_at(s, i, a),
        has_prefix_at(s, i + a.len(), b),
{
    assert forall|k: int| 0 <= k < a.len() implies s[i + k] == #[trigger] a[k] by {
        assert((a + b)[k] == a[k]);
    }
    assert forall|k: int| 0 <= k < b.len() implies s[i + a.len() + k] == #[trigger] b[k] by {
        assert((a + b)[a.len() + k] == b[k]);
    }
}

/// The attributes after one name after the other is given its value.
pub open spec fn inserted(
    found: Seq<(Seq<char>, Seq<char>)>,
    attributes: Seq<(Seq<char>, Seq<char>)>,
) -> Seq<(Seq<char>, Seq<char>)>
    decreases attributes.len(),
{
    if attributes.len() == 0 {
        found
    } else {
        insert_entry(
            inserted(found, attributes.drop_last()),
            attributes.last().0,
            attributes.last().1,
        )
    }
}

/// Names that all differ, given their values one after the other, are the
/// attributes themselves.
proof fn lemma_inserted_distinct(attributes: Seq<(Seq<char>, Seq<char>)>)
    requires
        keys_distinct(attributes),
    ensures
        inserted(Seq::empty(), attributes) == attributes,
    decreases attributes.len(),
{
    if attributes.len() > 0 {
        let front = attributes.drop_last();
        assert forall|i: int, j: int| 0 <= i < j < front.len() implies (#[trigger] front[i]).0 != (
        #[trigger] front[j]).0 by {
            assert(front[i] == attributes[i] && front[j] == attributes[j]);
        }
        lemma_inserted_distinct(front);
        lemma_find_key(front, attributes.last().0);
        if find_key(front, attributes.last().0) is Some {
            let k = find_key(front, attributes.last().0)->0;
            assert(front[k] == attributes[k]);
            assert(attributes[k].0 != attributes[attributes.len() - 1].0);
        }
        assert(insert_entry(front, attributes.last().0, attributes.last().1) =~= attributes);
    } else {
        assert(attributes =~= Seq::empty());
    }
}

/// Attributes as they are written are read as they are: behind them the
/// attributes go on, with each name given its value.
#[verifier::rlimit(40)]
proof fn lemma_written_attributes(
    s: Seq<char>,
    i: int,
    attributes: Seq<(Seq<char>, Seq<char>)>,
    found: Seq<(Seq<char>, Seq<char>)>,
)
    requires
        0 <= i,
        has_prefix_at(s, i, format_attributes(attributes)),
        i + format_attributes(attributes).len() < s.len(),
        forall|k: int| 0 <= k < attributes.len() ==> is_name((#[trigger] attributes[k]).0),
        forall|k: int| 0 <= k < attributes.len() ==> lacks((#[trigger] attributes[k]).1, '"'),
    ensures
        spec_attributes_from(s, i, found) == spec_attributes_from(
            s,
            i + format_attributes(attributes).len(),
            inserted(found, attributes),
        ),
        attributes.len() > 0 ==> format_attributes(attributes).len() > 0 && s[i] == ' ',
    decreases attributes.len(),
{
    if attributes.len() > 0 {
        reveal_strlit(" ");
        reveal_strlit("=\"");
        reveal_strlit("\"");
        let front = attributes.drop_last();
        let name = attributes.last().0;
        let value = attributes.last().1;
        let written = format_attributes(front);
        let piece1 = written + " "@;
        let piece2 = piece1 + name;
        let piece3 = piece2 + "=\""@;
        let piece4 = piece3 + value;
        assert(format_attributes(attributes) == piece4 + "\""@);
        lemma_prefix_split(s, i, piece4, "\""@);
        lemma_prefix_split(s, i, piece3, value);
        lemma_prefix_split(s, i, piece2, "=\""@);
        lemma_prefix_split(s, i, piece1, name);
        lemma_prefix_split(s, i, written, " "@);
        assert forall|k: int| 0 <= k < front.len() implies is_name((#[trigger] front[k]).0) by {
            assert(front[k] == attributes[k]);
        }
        assert forall|k: int| 0 <= k < front.len() implies lacks((#[trigger] front[k]).1, '"') by {
            assert(front[k] == attributes[k]);
        }
        lemma_written_attributes(s, i, front, found);
        let at = i + written.len();
        let so_far = inserted(found, front);
        assert(s[at] == ' ') by {
            assert(" "@[0] == ' ');
            assert(s[at + 0] == " "@[0]);
        }
        assert(s[at + 1 + name.len()] == '=' && s[at + 2 + name.len()] == '"') by {
            assert("=\""@[0] == '=' && "=\""@[1] == '"');
            assert(s[at + 1 + name.len() + 0] == "=\""@[0]);
            assert(s[at + 1 + name.len() + 1] == "=\""@[1]);
        }
        assert(s[at + 3 + name.len() + value.len()] == '"') by {
            assert("\""@[0] == '"');
            assert(s[at + 3 + name.len() + value.len() + 0] == "\""@[0]);
        }
        assert(!is_whitespace(s[at + 1])) by {
            if name.len() > 0 {
                assert(s[at + 1 + 0] == name[0]);
                assert(is_tag_char(name[0]));
            }
        }
        lemma_run_end_unique(s, at, at + 1, |c: char| is_whitespace(c));
        lemma_attributes_skip_whitespace(s, at, so_far);
        lemma_attribute_read(s, at + 1, name, '"', value, so_far);
        if front.len() == 0 {
            assert(written.len() == 0);
        }
    }
}

/// The nodes as they are written: the first, and then the others.
proof fn lemma_format_nodes_first(nodes: Seq<NodeView>, depth: nat)
    requires
        nodes.len() > 0,
    ensures
        format_nodes(nodes, depth) == format_node(nodes[0], depth) + format_nodes(
            nodes.drop_first(),
            depth,
        ),
    decreases nodes.len(),
{
    if nodes.len() == 1 {
        assert(nodes.drop_last() =~= Seq::<NodeView>::empty());
        assert(nodes.drop_first() =~= Seq::<NodeView>::empty());
        assert(format_nodes(nodes, depth) =~= format_node(nodes[0], depth) + format_nodes(
            nodes.drop_first(),
            depth,
        ));
    } else {
        let front = nodes.drop_last();
        lemma_format_nodes_first(front, depth);
        assert(front.drop_first() =~= nodes.drop_first().drop_last());
        assert(nodes.drop_first().last() == nodes.last());
        assert(format_nodes(nodes, depth) =~= format_node(nodes[0], depth) + format_nodes(
            nodes.drop_first(),
            depth,
        ));
    }
}

/// Where the markup of an element stands: its pieces, one behind the other.
spec fn element_layout(s: Seq<char>, i: int, element: ElementView, depth: nat) -> bool {
    let tag = element.tag_name;
    let start = i + 4 * depth;
    let name_end = start + 1 + tag.len();
    let at = name_end + format_attributes(element.attributes).len();
    let body = at + 2;
    let foot = body + format_nodes(element.children, depth + 1).len();
    let close = foot + 4 * depth;
    let end = close + 2 + tag.len() + 1;
    &&& format_node(NodeView::Element(element), depth).len() == end + 1 - i
    &&& end < s.len()
    &&& forall|k: int| i <= k < start ==> (#[trigger] s[k]) == ' '
    &&& s[start] == '<'
    &&& has_prefix_at(s, start + 1, tag)
    &&& has_prefix_at(s, name_end, format_attributes(element.attributes))
    &&& s[at] == '>'
    &&& s[at + 1] == '\n'
    &&& has_prefix_at(s, body, format_nodes(element.children, depth + 1))
    &&& forall|k: int| foot <= k < close ==> (#[trigger] s[k]) == ' '
    &&& s[close] == '<'
    &&& s[close + 1] == '/'
    &&& has_prefix_at(s, close + 2, tag)
    &&& s[end - 1] == '>'
    &&& s[end] == '\n'
}

/// The markup of an element that stands at `i` is laid out as
/// `element_layout` says.
#[verifier::rlimit(40)]
proof fn lemma_element_layout(s: Seq<char>, i: int, element: ElementView, depth: nat)
    requires
        0 <= i,
        has_prefix_at(s, i, format_node(NodeView::Element(element), depth)),
    ensures
        element_layout(s, i, element, depth),
{
    let indent = repeated("    "@, depth);
    let start = i + 4 * depth;
    lemma_indent(depth);
    reveal_strlit("<");
    reveal_strlit(">\n");
    reveal_strlit("</");
    let tag = element.tag_name;
    let written = format_attributes(element.attributes);
    let inner = format_nodes(element.children, depth + 1);
    let part1 = indent + "<"@;
    let part2 = part1 + tag;
    let part3 = part2 + written;
    let part4 = part3 + ">\n"@;
    let part5 = part4 + inner;
    let part6 = part5 + indent;
    let part7 = part6 + "</"@;
    let part8 = part7 + tag;
    assert(format_node(NodeView::Element(element), depth) == part8 + ">\n"@);
    lemma_prefix_split(s, i, part8, ">\n"@);
    lemma_prefix_split(s, i, part7, tag);
    lemma_prefix_split(s, i, part6, "</"@);
    lemma_prefix_split(s, i, part5, indent);
    lemma_prefix_split(s, i, part4, inner);
    lemma_prefix_split(s, i, part3, ">\n"@);
    lemma_prefix_split(s, i, part2, written);
    lemma_prefix_split(s, i, part1, tag);
    lemma_prefix_split(s, i, indent, "<"@);
    let name_end = start + 1 + tag.len();
    let at = name_end + written.len();
    let body = at + 2;
    let foot = body + inner.len();
    let close = foot + 4 * depth;
    let end = close + 2 + tag.len() + 1;
    assert forall|k: int| i <= k < start implies (#[trigger] s[k]) == ' ' by {
        assert(s[i + (k - i)] == indent[k - i]);
    }
    assert(s[start] == '<') by {
        assert(s[start + 0] == "<"@[0]);
    }
    assert(s[at] == '>' && s[at + 1] == '\n') by {
        assert(s[at + 0] == ">\n"@[0]);
        assert(s[at + 1] == ">\n"@[1]);
    }
    assert(s[close] == '<' && s[close + 1] == '/') by {
        assert(s[close + 0] == "</"@[0]);
        assert(s[close + 1] == "</"@[1]);
    }
    assert(s[end - 1] == '>' && s[end] == '\n') by {
        assert(s[end - 1 + 0] == ">\n"@[0]);
        assert(s[end - 1 + 1] == ">\n"@[1]);
    }
    assert forall|k: int| foot <= k < close implies (#[trigger] s[k]) == ' ' by {
        assert(s[foot + (k - foot)] == indent[k - foot]);
    }
}

/// A comment as it is written is read as it is.
#[verifier::rlimit(40)]
proof fn lemma_written_comment(s: Seq<char>, i: int, text: Seq<char>, depth: nat)
    requires
        0 <= i,
        lacks(text, '-'),
        has_prefix_at(s, i, format_node(NodeView::Comment(text), depth)),
    ensures
        format_node(NodeView::Comment(text), depth).len() == 4 * depth + text.len() + 8,
        forall|k: int| i <= k < i + 4 * depth ==> (#[trigger] s[k]) == ' ',
        s[i + 4 * depth] == '<',
        s[i + 4 * depth + 1] == '!',
        s[i + 4 * depth + text.len() + 7] == '\n',
        spec_element(s, i + 4 * depth) == Ok::<(NodeView, int), ParseError>(
            (NodeView::Comment(text), i + 4 * depth + text.len() + 7),
        ),
{
    let indent = repeated("    "@, depth);
    let start = i + 4 * depth;
    lemma_indent(depth);
    reveal_strlit("<!--");
    reveal_strlit("-->\n");
    reveal_strlit("!--");
    reveal_strlit("-->");
    let part1 = indent + "<!--"@;
    let part2 = part1 + text;
    assert(format_node(NodeView::Comment(text), depth) == part2 + "-->\n"@);
    lemma_prefix_split(s, i, part2, "-->\n"@);
    lemma_prefix_split(s, i, part1, text);
    lemma_prefix_split(s, i, indent, "<!--"@);
    assert forall|k: int| i <= k < i + 4 * depth implies (#[trigger] s[k]) == ' ' by {
        assert(s[i + (k - i)] == indent[k - i]);
    }
    assert(s[start] == '<' && s[start + 1] == '!' && s[start + 2] == '-' && s[start + 3] == '-')
        by {
        assert(s[start + 0] == "<!--"@[0]);
        assert(s[start + 1] == "<!--"@[1]);
        assert(s[start + 2] == "<!--"@[2]);
        assert(s[start + 3] == "<!--"@[3]);
    }
    let body = start + 4;
    let tail = body + text.len();
    assert(s[tail] == '-' && s[tail + 1] == '-' && s[tail + 2] == '>' && s[tail + 3] == '\n') by {
        assert(s[tail + 0] == "-->\n"@[0]);
        assert(s[tail + 1] == "-->\n"@[1]);
        assert(s[tail + 2] == "-->\n"@[2]);
        assert(s[tail + 3] == "-->\n"@[3]);
    }
    assert(has_prefix_at(s, start + 1, "!--"@));
    assert(has_prefix_at(s, tail, "-->"@));
    assert forall|k: int| body <= k < tail implies not_char('-')(#[trigger] s[k]) by {
        assert(s[body + (k - body)] == text[k - body]);
    }
    lemma_run_end_unique(s, body, tail, not_char('-'));
    assert(s.subrange(body, tail) =~= text);
    assert(spec_sequence(s, start + 1, "!--"@) == Ok::<int, ParseError>(body));
    assert(spec_sequence(s, tail, "-->"@) == Ok::<int, ParseError>(tail + 3));
    assert(spec_comment(s, start + 1) == Ok::<(NodeView, int), ParseError>(
        (NodeView::Comment(text), tail + 3),
    ));
}

/// The opening tag of an element that is laid out at `i` is read as it is
/// written: its name and its attributes.
proof fn lemma_written_opening(s: Seq<char>, i: int, element: ElementView, depth: nat)
    requires
        0 <= i,
        element_layout(s, i, element, depth),
        is_name(element.tag_name),
        attributes_well_formed(element.attributes),
        forall|k: int|
            0 <= k < element.attributes.len() ==> lacks((#[trigger] element.attributes[k]).1, '"'),
    ensures
        ({
            let start = i + 4 * depth;
            let name_end = start + 1 + element.tag_name.len();
            let at = name_end + format_attributes(element.attributes).len();
            &&& !has_prefix_at(s, start + 1, "!--"@)
            &&& s[start + 1] != '/'
            &&& tag_name_end(s, start + 1) == name_end
            &&& s.subrange(start + 1, name_end) == element.tag_name
            &&& spec_attributes(s, name_end) == Ok::<
                (Seq<(Seq<char>, Seq<char>)>, int),
                ParseError,
            >((element.attributes, at))
        }),
{
    let tag = element.tag_name;
    let start = i + 4 * depth;
    let name_end = start + 1 + tag.len();
    let at = name_end + format_attributes(element.attributes).len();
    lemma_written_attributes(s, name_end, element.attributes, Seq::empty());
    lemma_inserted_distinct(element.attributes);
    lemma_run_end_unique(s, at, at, |c: char| is_whitespace(c));
    lemma_attributes_done(s, at, element.attributes);
    assert(!is_tag_char(s[name_end]));
    lemma_tag_name_read(s, start + 1, tag);
    assert(s[start + 1] != '/' && s[start + 1] != '!') by {
        if tag.len() > 0 {
            assert(s[start + 1 + 0] == tag[0]);
            assert(is_tag_char(tag[0]));
        }
    }
    lemma_not_a_comment(s, start + 1);
}

/// The closing tag of an element that is laid out at `i` is read as it is
/// written.
proof fn lemma_written_closing(s: Seq<char>, i: int, element: ElementView, depth: nat)
    requires
        0 <= i,
        element_layout(s, i, element, depth),
        is_name(element.tag_name),
    ensures
        ({
            let end = i + format_node(NodeView::Element(element), depth).len() - 1;
            let close = end - element.tag_name.len() - 3;
            spec_closing_tag(s, close, element.tag_name) == Ok::<int, ParseError>(end)
        }),
{
    reveal_strlit("</");
    let tag = element.tag_name;
    let end = i + format_node(NodeView::Element(element), depth).len() - 1;
    let close = end - tag.len() - 3;
    lemma_tag_name_read(s, close + 2, tag);
    assert(has_prefix_at(s, close, "</"@));
    assert(spec_sequence(s, close, "</"@) == Ok::<int, ParseError>(close + 2));
}

/// A node as it is written is read as it is, with every element paired.
///
/// Where the markup of `node` at nesting depth `depth` stands at `i`, its
/// line starts with the indentation, the node is read behind that, and the
/// reading ends before the line end that ends the markup.
#[verifier::rlimit(40)]
proof fn lemma_written_node(s: Seq<char>, i: int, node: NodeView, depth: nat)
    requires
        0 <= i,
        printable(node),
        has_prefix_at(s, i, format_node(node, depth)),
    ensures
        format_node(node, depth).len() >= 4 * depth + 3,
        forall|k: int| i <= k < i + 4 * depth ==> (#[trigger] s[k]) == ' ',
        s[i + 4 * depth] == '<',
        s[i + 4 * depth + 1] != '/',
        s[i + format_node(node, depth).len() - 1] == '\n',
        spec_node(s, i + 4 * depth) == Ok::<(NodeView, int), ParseError>(
            (paired(node), i + format_node(node, depth).len() - 1),
        ),
    decreases node,
{
    match node {
        NodeView::Text(_) => {},
        NodeView::Comment(text) => {
            lemma_written_comment(s, i, text, depth);
        },
        NodeView::Element(element) => {
            let tag = element.tag_name;
            let start = i + 4 * depth;
            let name_end = start + 1 + tag.len();
            let at = name_end + format_attributes(element.attributes).len();
            let foot = at + 2 + format_nodes(element.children, depth + 1).len();
            let close = foot + 4 * depth;
            let end = close + 2 + tag.len() + 1;
            lemma_element_layout(s, i, element, depth);
            lemma_written_opening(s, i, element, depth);
            lemma_written_closing(s, i, element, depth);
            lemma_children_printable(element);
            assert(has_prefix_at(s, close, "</"@)) by {
                reveal_strlit("</");
            }
            lemma_written_nodes(
                s,
                at + 1,
                element.children,
                depth + 1,
                Seq::empty(),
                4 * depth,
            );
            assert(Seq::<NodeView>::empty() + paired_all(element.children) =~= paired_all(
                element.children,
            ));
            lemma_written_element(s, start, element, at, close, end);
        },
    }
}

/// The children of a printable element are printable.
proof fn lemma_children_printable(element: ElementView)
    requires
        printable(NodeView::Element(element)),
    ensures
        forall|k: int|
            0 <= k < element.children.len() ==> printable(#[trigger] element.children[k]),
{
}

/// An element whose parts are read as they are written is read as it is
/// written, paired.
proof fn lemma_written_element(
    s: Seq<char>,
    start: int,
    element: ElementView,
    at: int,
    close: int,
    end: int,
)
    requires
        0 <= start < at < s.len(),
        s[start] == '<',
        s[at] == '>',
        !has_prefix_at(s, start + 1, "!--"@),
        s.subrange(start + 1, tag_name_end(s, start + 1)) == element.tag_name,
        spec_attributes(s, tag_name_end(s, start + 1)) == Ok::<
            (Seq<(Seq<char>, Seq<char>)>, int),
            ParseError,
        >((element.attributes, at)),
        spec_nodes(s, at + 1) == Ok::<(Seq<NodeView>, int), ParseError>(
            (paired_all(element.children), close),
        ),
        spec_closing_tag(s, close, element.tag_name) == Ok::<int, ParseError>(end),
    ensures
        spec_node(s, start) == Ok::<(NodeView, int), ParseError>(
            (paired(NodeView::Element(element)), end),
        ),
{
    assert(paired(NodeView::Element(element))->Element_0.children =~= paired_all(
        element.children,
    ));
}

/// Nodes as they are written are read as they are, with every element
/// paired.
///
/// Where a line end stands at `at`, behind it the markup of `nodes` at
/// nesting depth `depth`, and behind that `spaces` spaces and the end of
/// the text or `</`, the nodes are read up to there.
#[verifier::rlimit(40)]
proof fn lemma_written_nodes(
    s: Seq<char>,
    at: int,
    nodes: Seq<NodeView>,
    depth: nat,
    found: Seq<NodeView>,
    spaces: nat,
)
    requires
        0 <= at < s.len(),
        s[at] == '\n',
        forall|k: int| 0 <= k < nodes.len() ==> printable(#[trigger] nodes[k]),
        has_prefix_at(s, at + 1, format_nodes(nodes, depth)),
        at + 1 + format_nodes(nodes, depth).len() + spaces <= s.len(),
        forall|k: int|
            at + 1 + format_nodes(nodes, depth).len() <= k < at + 1 + format_nodes(
                nodes,
                depth,
            ).len() + spaces ==> (#[trigger] s[k]) == ' ',
        at + 1 + format_nodes(nodes, depth).len() + spaces == s.len() || has_prefix_at(
            s,
            at + 1 + format_nodes(nodes, depth).len() + spaces,
            "</"@,
        ),
    ensures
        spec_nodes_from(s, at, found) == Ok::<(Seq<NodeView>, int), ParseError>(
            (found + paired_all(nodes), at + 1 + format_nodes(nodes, depth).len() + spaces),
        ),
    decreases nodes,
{
    reveal_strlit("</");
    let stop = at + 1 + format_nodes(nodes, depth).len() + spaces;
    if nodes.len() == 0 {
        assert(format_nodes(nodes, depth).len() == 0);
        assert forall|k: int| at <= k < stop implies is_whitespace(#[trigger] s[k]) by {}
        if stop < s.len() {
            assert(s[stop] == '<') by {
                assert(s[stop + 0] == "</"@[0]);
            }
        }
        lemma_run_end_unique(s, at, stop, |c: char| is_whitespace(c));
        assert(found + paired_all(nodes) =~= found);
    } else {
        let first = nodes[0];
        let others = nodes.drop_first();
        lemma_format_nodes_first(nodes, depth);
        let head = format_node(first, depth);
        lemma_prefix_split(s, at + 1, head, format_nodes(others, depth));
        lemma_written_node(s, at + 1, first, depth);
        let start = at + 1 + 4 * depth;
        let end = at + head.len();
        assert forall|k: int| at <= k < start implies is_whitespace(#[trigger] s[k]) by {}
        lemma_run_end_unique(s, at, start, |c: char| is_whitespace(c));
        assert(!has_prefix_at(s, start, "</"@)) by {
            assert("</"@[1] == '/');
            if has_prefix_at(s, start, "</"@) {
                assert(s[start + 1] == "</"@[1]);
            }
        }
        assert forall|k: int| 0 <= k < others.len() implies printable(#[trigger] others[k]) by {
            assert(others[k] == nodes[k + 1]);
        }
        lemma_written_nodes(s, end, others, depth, found.push(paired(first)), spaces);
        assert(found.push(paired(first)) + paired_all(others) =~= found + paired_all(nodes));
    }
}

/// Reading back what was written: for a tree that the parser gave, that
/// holds no text node and no double quote in an attribute value, the markup
/// that `node_format` writes is read as the same tree with every element
/// paired. Tag names, attributes, comments and the order of the nodes are
/// those of the tree.
pub proof fn lemma_round_trip(source: Seq<char>)
    requires
        spec_parse(source) is Ok,
        has_no_text(spec_parse(source)->Ok_0),
        has_no_double_quote(spec_parse(source)->Ok_0),
    ensures
        spec_parse(format_node(spec_parse(source)->Ok_0, 0)) == Ok::<NodeView, ParseError>(
            paired(spec_parse(source)->Ok_0),
        ),
{
    lemma_parsed_is_well_formed(source);
    lemma_written_tree(spec_parse(source)->Ok_0);
}

/// The markup of a printable tree is read as the tree with every element
/// paired.
pub proof fn lemma_written_tree(tree: NodeView)
    requires
        printable(tree),
    ensures
        spec_parse(format_node(tree, 0)) == Ok::<NodeView, ParseError>(paired(tree)),
{
    let s = format_node(tree, 0);
    assert(has_prefix_at(s, 0, s));
    lemma_written_node(s, 0, tree, 0);
    let last = s.len() - 1;
    lemma_run_end_unique(s, 0, 0, |c: char| is_whitespace(c));
    assert(!has_prefix_at(s, 0, "</"@)) by {
        reveal_strlit("</");
        assert("</"@[1] == '/');
        if has_prefix_at(s, 0, "</"@) {
            assert(s[1] == "</"@[1]);
        }
    }
    let one = Seq::<NodeView>::empty().push(paired(tree));
    lemma_run_end_unique(s, last, last + 1, |c: char| is_whitespace(c));
    assert(spec_nodes_from(s, last, one) == Ok::<(Seq<NodeView>, int), ParseError>(
        (one, last + 1),
    ));
    assert(spec_nodes(s, 0) == Ok::<(Seq<NodeView>, int), ParseError>((one, last + 1)));
}

} // verus!
