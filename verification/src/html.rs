//! The markup parser: from a text to a document tree.
//!
//! The grammar is written down once, as spec functions on a sequence of
//! characters and an index into it. Each of them gives the value that was
//! read and the index behind it, or the failure that ends the parse. The
//! parser's methods return what these functions say.

use crate::boundary::same_text;
use crate::dom::{
    lemma_element_node_view, nodes_view, AttrMap, ElementData, ElementView, Node, NodeView,
};
use crate::parser;
use crate::parser::{
    has_prefix_at, is_whitespace, lemma_run_end, lemma_run_end_unique, lemma_whitespace_end,
    run_end, spec_sequence, whitespace_end, ParseError,
};
use crate::strmap::{entry_views, insert_entry, lemma_entry_views_insert};
use vstd::prelude::*;

verus! {

/// A character of a tag name or of an attribute name: a lower-case letter or
/// a digit.
pub open spec fn is_tag_char(c: char) -> bool {
    ('a' <= c && c <= 'z') || ('0' <= c && c <= '9')
}

/// Where the tag name that starts at `i` ends.
pub open spec fn tag_name_end(s: Seq<char>, i: int) -> int {
    run_end(s, i, |c: char| is_tag_char(c))
}

/// The characters other than `q`.
pub open spec fn not_char(q: char) -> spec_fn(char) -> bool {
    |c: char| c != q
}

/// An attribute value at `i`: a quote, `"` or `'`, the characters up to the
/// next quote of the same kind, and that quote.
pub open spec fn spec_attr_value(s: Seq<char>, i: int) -> Result<(Seq<char>, int), ParseError> {
    if !(0 <= i < s.len()) {
        Err(ParseError::EndOfInput)
    } else if s[i] != '"' && s[i] != '\'' {
        Err(ParseError::UnexpectedToken)
    } else {
        let end = run_end(s, i + 1, not_char(s[i]));
        if end >= s.len() {
            Err(ParseError::EndOfInput)
        } else {
            Ok((s.subrange(i + 1, end), end + 1))
        }
    }
}

/// An attribute at `i`: a name, `=`, and a value.
pub open spec fn spec_attr(s: Seq<char>, i: int) -> Result<
    ((Seq<char>, Seq<char>), int),
    ParseError,
> {
    let eq = tag_name_end(s, i);
    if !(0 <= eq < s.len()) {
        Err(ParseError::EndOfInput)
    } else if s[eq] != '=' {
        Err(ParseError::UnexpectedToken)
    } else {
        match spec_attr_value(s, eq + 1) {
            Err(e) => Err(e),
            Ok((value, end)) => Ok(((s.subrange(i, eq), value), end)),
        }
    }
}

/// An attribute that was read ends behind where it starts.
pub proof fn lemma_attr_advances(s: Seq<char>, i: int)
    requires
        0 <= i <= s.len(),
    ensures
        spec_attr(s, i) matches Ok((_, end)) ==> i < end <= s.len(),
{
    lemma_run_end(s, i, |c: char| is_tag_char(c));
    let eq = tag_name_end(s, i);
    if eq + 1 < s.len() && (s[eq + 1] == '"' || s[eq + 1] == '\'') {
        lemma_run_end(s, eq + 2, not_char(s[eq + 1]));
    }
}

/// The attributes from `i` on, added to `found`: whitespace, then either
/// `>` or `/`, where the attributes end and which is not consumed, or one
/// more attribute. A name that comes again replaces the value it had.
pub open spec fn spec_attributes_from(
    s: Seq<char>,
    i: int,
    found: Seq<(Seq<char>, Seq<char>)>,
) -> Result<(Seq<(Seq<char>, Seq<char>)>, int), ParseError>
    decreases s.len() - i,
{
    let at = whitespace_end(s, i);
    if !(0 <= i <= at < s.len()) {
        Err(ParseError::EndOfInput)
    } else if s[at] == '>' || s[at] == '/' {
        Ok((found, at))
    } else {
        match spec_attr(s, at) {
            Err(e) => Err(e),
            Ok((pair, end)) => {
                proof {
                    lemma_attr_advances(s, at);
                }
                spec_attributes_from(s, end, insert_entry(found, pair.0, pair.1))
            },
        }
    }
}

/// The attributes of a tag, from `i` on.
pub open spec fn spec_attributes(s: Seq<char>, i: int) -> Result<
    (Seq<(Seq<char>, Seq<char>)>, int),
    ParseError,
> {
    spec_attributes_from(s, i, Seq::empty())
}

/// Attributes that were read end in the text, before a `>` or a `/`.
pub proof fn lemma_attributes_end(s: Seq<char>, i: int, found: Seq<(Seq<char>, Seq<char>)>)
    requires
        0 <= i <= s.len(),
    ensures
        spec_attributes_from(s, i, found) matches Ok((_, end)) ==> i <= end < s.len() && (s[end]
            == '>' || s[end] == '/'),
    decreases s.len() - i,
{
    lemma_run_end(s, i, |c: char| is_whitespace(c));
    let at = whitespace_end(s, i);
    if at < s.len() && !(s[at] == '>' || s[at] == '/') {
        lemma_attr_advances(s, at);
        match spec_attr(s, at) {
            Err(e) => {},
            Ok((pair, end)) => {
                lemma_attributes_end(s, end, insert_entry(found, pair.0, pair.1));
            },
        }
    }
}

/// A text node at `i`: the characters up to the next `<`, which may be none.
pub open spec fn spec_text(s: Seq<char>, i: int) -> (NodeView, int) {
    let end = run_end(s, i, not_char('<'));
    (NodeView::Text(s.subrange(i, end)), end)
}

/// A comment at `i`, behind the `<`: `!--`, the characters up to the next
/// `-`, and `-->`.
pub open spec fn spec_comment(s: Seq<char>, i: int) -> Result<(NodeView, int), ParseError> {
    match spec_sequence(s, i, "!--"@) {
        Err(e) => Err(e),
        Ok(start) => {
            let end = run_end(s, start, not_char('-'));
            match spec_sequence(s, end, "-->"@) {
                Err(e) => Err(e),
                Ok(after) => Ok((NodeView::Comment(s.subrange(start, end)), after)),
            }
        },
    }
}

/// What follows the children of the element named `tag`, at `i`: `</`, the
/// same name, and `>`.
pub open spec fn spec_closing_tag(s: Seq<char>, i: int, tag: Seq<char>) -> Result<int, ParseError> {
    match spec_sequence(s, i, "</"@) {
        Err(e) => Err(e),
        Ok(start) => {
            let end = tag_name_end(s, start);
            if s.subrange(start, end) != tag {
                Err(ParseError::TagMismatch)
            } else if !(0 <= end < s.len()) {
                Err(ParseError::EndOfInput)
            } else if s[end] != '>' {
                Err(ParseError::UnexpectedToken)
            } else {
                Ok(end + 1)
            }
        },
    }
}

/// An element or a comment at `i`.
///
/// Behind `<` stands either a comment or a tag name and attributes. After
/// `>` come the children and the closing tag, and the element is paired.
/// After `/` comes `>`, and the element has closed itself and has no
/// children.
pub open spec fn spec_element(s: Seq<char>, i: int) -> Result<(NodeView, int), ParseError>
    decreases s.len() - i, 0nat,
{
    if !(0 <= i < s.len()) {
        Err(ParseError::EndOfInput)
    } else if s[i] != '<' {
        Err(ParseError::UnexpectedToken)
    } else if has_prefix_at(s, i + 1, "!--"@) {
        spec_comment(s, i + 1)
    } else {
        let name_end = tag_name_end(s, i + 1);
        let tag = s.subrange(i + 1, name_end);
        match spec_attributes(s, name_end) {
            Err(e) => Err(e),
            Ok((attributes, at)) => {
                if !(i < at < s.len()) {
                    Err(ParseError::UnexpectedToken)
                } else if s[at] == '>' {
                    match spec_nodes(s, at + 1) {
                        Err(e) => Err(e),
                        Ok((children, close)) => match spec_closing_tag(s, close, tag) {
                            Err(e) => Err(e),
                            Ok(end) => Ok(
                                (
                                    NodeView::Element(
                                        ElementView { tag_name: tag, is_paired: true, attributes, children },
                                    ),
                                    end,
                                ),
                            ),
                        },
                    }
                } else if s[at] == '/' {
                    if at + 1 >= s.len() {
                        Err(ParseError::EndOfInput)
                    } else if s[at + 1] != '>' {
                        Err(ParseError::UnexpectedToken)
                    } else {
                        Ok(
                            (
                                NodeView::Element(
                                    ElementView {
                                        tag_name: tag,
                                        is_paired: false,
                                        attributes,
                                        children: Seq::empty(),
                                    },
                                ),
                                at + 2,
                            ),
                        )
                    }
                } else {
                    Err(ParseError::UnexpectedToken)
                }
            },
        }
    }
}

/// One node at `i`: an element or a comment where `<` stands there, else a
/// text node.
pub open spec fn spec_node(s: Seq<char>, i: int) -> Result<(NodeView, int), ParseError>
    decreases s.len() - i, 1nat,
{
    if !(0 <= i < s.len()) {
        Err(ParseError::EndOfInput)
    } else if s[i] == '<' {
        spec_element(s, i)
    } else {
        Ok(spec_text(s, i))
    }
}

/// The nodes from `i` on, added to `found`: whitespace, then the end of the
/// text or `</`, where the nodes end, or one more node. A node that consumed
/// nothing would end the parse.
pub open spec fn spec_nodes_from(s: Seq<char>, i: int, found: Seq<NodeView>) -> Result<
    (Seq<NodeView>, int),
    ParseError,
>
    decreases s.len() - i, 2nat,
{
    let at = whitespace_end(s, i);
    if !(0 <= i <= at < s.len()) || has_prefix_at(s, at, "</"@) {
        Ok((found, at))
    } else {
        match spec_node(s, at) {
            Err(e) => Err(e),
            Ok((node, end)) => {
                if at < end <= s.len() {
                    spec_nodes_from(s, end, found.push(node))
                } else {
                    Err(ParseError::UnexpectedToken)
                }
            },
        }
    }
}

/// A sequence of nodes at `i`.
pub open spec fn spec_nodes(s: Seq<char>, i: int) -> Result<(Seq<NodeView>, int), ParseError>
    decreases s.len() - i, 3nat,
{
    spec_nodes_from(s, i, Seq::empty())
}

/// The element that holds the nodes of a text that has not exactly one node
/// at its top: it has no name and no attributes, and is paired.
pub open spec fn wrapper(children: Seq<NodeView>) -> NodeView {
    NodeView::Element(
        ElementView {
            tag_name: Seq::empty(),
            is_paired: true,
            attributes: Seq::empty(),
            children,
        },
    )
}

/// The tree of a whole text: its one node, or a wrapper round its nodes.
pub open spec fn spec_parse(s: Seq<char>) -> Result<NodeView, ParseError> {
    match spec_nodes(s, 0) {
        Err(e) => Err(e),
        Ok((nodes, _)) => if nodes.len() == 1 {
            Ok(nodes[0])
        } else {
            Ok(wrapper(nodes))
        },
    }
}

/// What a method that reads a node returned, as the grammar states it: the
/// node's view with the index behind it, or the failure.
pub open spec fn node_outcome(r: Result<Node, ParseError>, end: int) -> Result<
    (NodeView, int),
    ParseError,
> {
    match r {
        Ok(node) => Ok((node@, end)),
        Err(e) => Err(e),
    }
}

/// The markup parser: a cursor over the markup.
pub struct Parser {
    pub parser: parser::Parser,
}

impl Parser {
    /// Parses `source` into one tree. A text with exactly one node at its top
    /// gives that node; any other gives an element without a name that holds
    /// the nodes.
    pub fn parse(source: String) -> (r: Result<Node, ParseError>)
        ensures
            match r {
                Ok(node) => spec_parse(source@) == Ok::<NodeView, ParseError>(node@),
                Err(e) => spec_parse(source@) == Err::<NodeView, ParseError>(e),
            },
    {
        let mut parser = Parser { parser: parser::Parser::new(source) };
        let mut nodes = match parser.parse_nodes() {
            Ok(nodes) => nodes,
            Err(e) => {
                return Err(e);
            },
        };
        if nodes.len() == 1 {
            Ok(nodes.swap_remove(0))
        } else {
            let data = ElementData {
                children: nodes,
                is_paired: true,
                attributes: AttrMap::new(),
                tag_name: String::new(),
            };
            proof {
                lemma_element_node_view(data);
                assert(data@.attributes =~= Seq::<(Seq<char>, Seq<char>)>::empty());
            }
            Ok(Node::Element(data))
        }
    }

    /// Reads a tag name: lower-case letters and digits, as many as there
    /// are, which may be none.
    pub fn parse_tag_name(&mut self) -> (name: String)
        requires
            old(self).parser.wf(),
        ensures
            final(self).parser.wf(),
            final(self).parser.input == old(self).parser.input,
            old(self).parser.pos <= final(self).parser.pos,
            final(self).parser.index() == tag_name_end(
                old(self).parser.input@,
                old(self).parser.index(),
            ),
            old(self).parser.index() <= final(self).parser.index() <= old(self).parser.input@.len(),
            name@ == old(self).parser.input@.subrange(
                old(self).parser.index(),
                final(self).parser.index(),
            ),
    {
        let ghost text = self.parser.input@;
        let ghost start = self.parser.index();
        let test = |c: char| -> (b: bool)
            ensures
                b == is_tag_char(c),
            {
                match c {
                    'a'..='z' | '0'..='9' => true,
                    _ => false,
                }
            };
        let name = self.parser.consume_while(test);
        proof {
            lemma_run_end_unique(text, start, self.parser.index(), |c: char| is_tag_char(c));
        }
        name
    }

    fn parse_attr(&mut self) -> (r: Result<(String, String), ParseError>)
        requires
            old(self).parser.wf(),
        ensures
            final(self).parser.wf(),
            final(self).parser.input == old(self).parser.input,
            old(self).parser.pos <= final(self).parser.pos,
            match r {
                Ok(pair) => {
                    &&& spec_attr(old(self).parser.input@, old(self).parser.index()) == Ok::<
                        ((Seq<char>, Seq<char>), int),
                        ParseError,
                    >(((pair.0@, pair.1@), final(self).parser.index()))
                    &&& old(self).parser.index() < final(self).parser.index()
                        <= old(self).parser.input@.len()
                },
                Err(e) => spec_attr(old(self).parser.input@, old(self).parser.index()) == Err::<
                    ((Seq<char>, Seq<char>), int),
                    ParseError,
                >(e),
            },
    {
        let name = self.parse_tag_name();
        match self.parser.consume_char() {
            Err(e) => {
                return Err(e);
            },
            Ok(c) => {
                if c != '=' {
                    return Err(ParseError::UnexpectedToken);
                }
            },
        }
        let value = match self.parse_attr_value() {
            Ok(value) => value,
            Err(e) => {
                return Err(e);
            },
        };
        Ok((name, value))
    }

    fn parse_attr_value(&mut self) -> (r: Result<String, ParseError>)
        requires
            old(self).parser.wf(),
        ensures
            final(self).parser.wf(),
            final(self).parser.input == old(self).parser.input,
            old(self).parser.pos <= final(self).parser.pos,
            match r {
                Ok(value) => {
                    &&& spec_attr_value(old(self).parser.input@, old(self).parser.index()) == Ok::<
                        (Seq<char>, int),
                        ParseError,
                    >((value@, final(self).parser.index()))
                    &&& old(self).parser.index() < final(self).parser.index()
                        <= old(self).parser.input@.len()
                },
                Err(e) => spec_attr_value(old(self).parser.input@, old(self).parser.index())
                    == Err::<(Seq<char>, int), ParseError>(e),
            },
    {
        let ghost text = self.parser.input@;
        let ghost start = self.parser.index();
        let open_quote = match self.parser.consume_char() {
            Ok(c) => c,
            Err(e) => {
                return Err(e);
            },
        };
        if !(open_quote == '"' || open_quote == '\'') {
            return Err(ParseError::UnexpectedToken);
        }
        let test = |c: char| -> (b: bool)
            ensures
                b == (c != open_quote),
            {
                c != open_quote
            };
        let value = self.parser.consume_while(test);
        proof {
            lemma_run_end_unique(text, start + 1, self.parser.index(), not_char(open_quote));
        }
        match self.parser.consume_char() {
            Err(e) => Err(e),
            Ok(c) => {
                if c != open_quote {
                    Err(ParseError::UnexpectedToken)
                } else {
                    Ok(value)
                }
            },
        }
    }

    fn parse_attributes(&mut self) -> (r: Result<AttrMap, ParseError>)
        requires
            old(self).parser.wf(),
        ensures
            final(self).parser.wf(),
            final(self).parser.input == old(self).parser.input,
            old(self).parser.pos <= final(self).parser.pos,
            match r {
                Ok(attributes) => {
                    &&& spec_attributes(old(self).parser.input@, old(self).parser.index()) == Ok::<
                        (Seq<(Seq<char>, Seq<char>)>, int),
                        ParseError,
                    >((entry_views(attributes@), final(self).parser.index()))
                    &&& old(self).parser.index() <= final(self).parser.index()
                        < old(self).parser.input@.len()
                },
                Err(e) => spec_attributes(old(self).parser.input@, old(self).parser.index())
                    == Err::<(Seq<(Seq<char>, Seq<char>)>, int), ParseError>(e),
            },
    {
        let ghost text = self.parser.input@;
        let ghost start = self.parser.index();
        let mut attributes = AttrMap::new();
        proof {
            self.parser.lemma_index_in_text();
            assert(entry_views(attributes@) =~= Seq::<(Seq<char>, Seq<char>)>::empty());
        }
        loop
            invariant
                self.parser.wf(),
                self.parser.input == old(self).parser.input,
                old(self).parser.pos <= self.parser.pos,
                text == self.parser.input@,
                start == old(self).parser.index(),
                0 <= start <= self.parser.index() <= text.len(),
                spec_attributes(text, start) == spec_attributes_from(
                    text,
                    self.parser.index(),
                    entry_views(attributes@),
                ),
            decreases text.len() - self.parser.index(),
        {
            self.parser.consume_whitespace();
            match self.parser.next_char() {
                Err(e) => {
                    return Err(e);
                },
                Ok(c) => {
                    if c == '>' || c == '/' {
                        return Ok(attributes);
                    }
                },
            }
            let (name, value) = match self.parse_attr() {
                Ok(pair) => pair,
                Err(e) => {
                    return Err(e);
                },
            };
            let ghost entries = attributes@;
            attributes.insert(name, value);
            proof {
                lemma_entry_views_insert(entries, name@, value);
            }
        }
    }

    /// Reads a comment behind its `<`: `!--`, the text up to the next `-`,
    /// and `-->`.
    pub fn parse_comment(&mut self) -> (r: Result<Node, ParseError>)
        requires
            old(self).parser.wf(),
        ensures
            final(self).parser.wf(),
            final(self).parser.input == old(self).parser.input,
            old(self).parser.pos <= final(self).parser.pos,
            spec_comment(old(self).parser.input@, old(self).parser.index()) == node_outcome(
                r,
                final(self).parser.index(),
            ),
            r is Ok ==> old(self).parser.index() < final(self).parser.index()
                <= old(self).parser.input@.len(),
    {
        let ghost text = self.parser.input@;
        proof {
            reveal_strlit("!--");
            reveal_strlit("-->");
        }
        match self.parser.consume_sequence("!--") {
            Err(e) => {
                return Err(e);
            },
            Ok(_) => {},
        }
        let ghost start = self.parser.index();
        let test = |c: char| -> (b: bool)
            ensures
                b == (c != '-'),
            {
                c != '-'
            };
        let to_return = Node::Comment(self.parser.consume_while(test));
        proof {
            lemma_run_end_unique(text, start, self.parser.index(), not_char('-'));
        }
        match self.parser.consume_sequence("-->") {
            Err(e) => {
                return Err(e);
            },
            Ok(_) => {},
        }
        Ok(to_return)
    }

    /// Reads an element with all that it holds, or a comment, at a `<`.
    pub fn parse_element(&mut self) -> (r: Result<Node, ParseError>)
        requires
            old(self).parser.wf(),
        ensures
            final(self).parser.wf(),
            final(self).parser.input == old(self).parser.input,
            old(self).parser.pos <= final(self).parser.pos,
            spec_element(old(self).parser.input@, old(self).parser.index()) == node_outcome(
                r,
                final(self).parser.index(),
            ),
            r is Ok ==> old(self).parser.index() < final(self).parser.index()
                <= old(self).parser.input@.len(),
        decreases old(self).parser.input@.len() - old(self).parser.index(), 0nat,
    {
        let ghost text = self.parser.input@;
        match self.parser.consume_char() {
            Err(e) => {
                return Err(e);
            },
            Ok(c) => {
                if c != '<' {
                    return Err(ParseError::UnexpectedToken);
                }
            },
        }
        if self.parser.starts_with("!--") {
            return self.parse_comment();
        }
        let tag_name = self.parse_tag_name();
        let attrs = match self.parse_attributes() {
            Ok(attrs) => attrs,
            Err(e) => {
                return Err(e);
            },
        };
        let mut children: Vec<Node> = Vec::new();
        let mut is_paired = true;
        let closer = match self.parser.consume_char() {
            Ok(c) => c,
            Err(e) => {
                return Err(e);
            },
        };
        if closer == '>' {
            children = match self.parse_nodes() {
                Ok(nodes) => nodes,
                Err(e) => {
                    return Err(e);
                },
            };
            proof {
                reveal_strlit("</");
            }
            match self.parser.consume_sequence("</") {
                Err(e) => {
                    return Err(e);
                },
                Ok(_) => {},
            }
            let closing = self.parse_tag_name();
            if !same_text(closing.as_str(), tag_name.as_str()) {
                return Err(ParseError::TagMismatch);
            }
            match self.parser.consume_char() {
                Err(e) => {
                    return Err(e);
                },
                Ok(c) => {
                    if c != '>' {
                        return Err(ParseError::UnexpectedToken);
                    }
                },
            }
        } else if closer == '/' {
            match self.parser.consume_char() {
                Err(e) => {
                    return Err(e);
                },
                Ok(c) => {
                    if c != '>' {
                        return Err(ParseError::UnexpectedToken);
                    }
                },
            }
            is_paired = false;
            assert(nodes_view(children@) =~= Seq::<NodeView>::empty());
        } else {
            return Err(ParseError::UnexpectedToken);
        }
        let elem_data = ElementData {
            attributes: attrs,
            is_paired: is_paired,
            children: children,
            tag_name: tag_name,
        };
        proof {
            lemma_element_node_view(elem_data);
        }
        Ok(Node::Element(elem_data))
    }

    /// Reads a text node: the characters up to the next `<`. At a `<` the
    /// text is empty.
    pub fn parse_text(&mut self) -> (node: Node)
        requires
            old(self).parser.wf(),
        ensures
            final(self).parser.wf(),
            final(self).parser.input == old(self).parser.input,
            old(self).parser.pos <= final(self).parser.pos,
            spec_text(old(self).parser.input@, old(self).parser.index()) == (
                node@,
                final(self).parser.index(),
            ),
            old(self).parser.index() <= final(self).parser.index() <= old(self).parser.input@.len(),
    {
        let ghost text = self.parser.input@;
        let ghost start = self.parser.index();
        let test = |c: char| -> (b: bool)
            ensures
                b == (c != '<'),
            {
                c != '<'
            };
        let node = Node::Text(self.parser.consume_while(test));
        proof {
            lemma_run_end_unique(text, start, self.parser.index(), not_char('<'));
        }
        node
    }

    /// Reads one node: an element or a comment at a `<`, else a text node.
    pub fn parse_node(&mut self) -> (r: Result<Node, ParseError>)
        requires
            old(self).parser.wf(),
        ensures
            final(self).parser.wf(),
            final(self).parser.input == old(self).parser.input,
            old(self).parser.pos <= final(self).parser.pos,
            spec_node(old(self).parser.input@, old(self).parser.index()) == node_outcome(
                r,
                final(self).parser.index(),
            ),
            r is Ok ==> old(self).parser.index() < final(self).parser.index()
                <= old(self).parser.input@.len(),
        decreases old(self).parser.input@.len() - old(self).parser.index(), 1nat,
    {
        let ghost text = self.parser.input@;
        let ghost start = self.parser.index();
        match self.parser.next_char() {
            Err(e) => Err(e),
            Ok(c) => {
                if c == '<' {
                    self.parse_element()
                } else {
                    proof {
                        lemma_run_end(text, start + 1, not_char('<'));
                    }
                    Ok(self.parse_text())
                }
            },
        }
    }

    fn parse_nodes(&mut self) -> (r: Result<Vec<Node>, ParseError>)
        requires
            old(self).parser.wf(),
        ensures
            final(self).parser.wf(),
            final(self).parser.input == old(self).parser.input,
            old(self).parser.pos <= final(self).parser.pos,
            match r {
                Ok(nodes) => {
                    &&& spec_nodes(old(self).parser.input@, old(self).parser.index()) == Ok::<
                        (Seq<NodeView>, int),
                        ParseError,
                    >((nodes_view(nodes@), final(self).parser.index()))
                    &&& old(self).parser.index() <= final(self).parser.index()
                        <= old(self).parser.input@.len()
                },
                Err(e) => spec_nodes(old(self).parser.input@, old(self).parser.index()) == Err::<
                    (Seq<NodeView>, int),
                    ParseError,
                >(e),
            },
        decreases old(self).parser.input@.len() - old(self).parser.index(), 2nat,
    {
        let ghost text = self.parser.input@;
        let ghost start = self.parser.index();
        let mut nodes: Vec<Node> = Vec::new();
        proof {
            self.parser.lemma_index_in_text();
            assert(nodes_view(nodes@) =~= Seq::<NodeView>::empty());
        }
        loop
            invariant
                self.parser.wf(),
                self.parser.input == old(self).parser.input,
                old(self).parser.pos <= self.parser.pos,
                text == self.parser.input@,
                start == old(self).parser.index(),
                0 <= start <= self.parser.index() <= text.len(),
                spec_nodes(text, start) == spec_nodes_from(
                    text,
                    self.parser.index(),
                    nodes_view(nodes@),
                ),
            decreases text.len() - self.parser.index(),
        {
            self.parser.consume_whitespace();
            if self.parser.eof() || self.parser.starts_with("</") {
                return Ok(nodes);
            }
            let ghost found = nodes_view(nodes@);
            let node = match self.parse_node() {
                Ok(node) => node,
                Err(e) => {
                    return Err(e);
                },
            };
            nodes.push(node);
            assert(nodes_view(nodes@) =~= found.push(node@));
        }
    }
}

/// No comment starts with a character of a tag name, nor with `/` or `>`.
pub proof fn lemma_not_a_comment(s: Seq<char>, i: int)
    requires
        0 <= i < s.len(),
        s[i] != '!',
    ensures
        !has_prefix_at(s, i, "!--"@),
{
    reveal_strlit("!--");
    assert("!--"@[0] == '!');
}

/// Where a name stands before a character that can stand in no name, the
/// name that is read there is that name.
pub proof fn lemma_tag_name_read(s: Seq<char>, i: int, name: Seq<char>)
    requires
        has_prefix_at(s, i, name),
        forall|k: int| 0 <= k < name.len() ==> is_tag_char(#[trigger] name[k]),
        i + name.len() < s.len() ==> !is_tag_char(s[i + name.len()]),
    ensures
        tag_name_end(s, i) == i + name.len(),
        s.subrange(i, i + name.len()) == name,
{
    assert forall|k: int| i <= k < i + name.len() implies is_tag_char(#[trigger] s[k]) by {
        assert(s[i + (k - i)] == name[k - i]);
    }
    lemma_run_end_unique(s, i, i + name.len(), |c: char| is_tag_char(c));
    assert(s.subrange(i, i + name.len()) =~= name);
}

/// Whitespace before the attributes of a tag changes nothing: the
/// attributes are the same from every index of that whitespace.
pub proof fn lemma_attributes_skip_whitespace(
    s: Seq<char>,
    i: int,
    found: Seq<(Seq<char>, Seq<char>)>,
)
    requires
        0 <= i <= s.len(),
    ensures
        spec_attributes_from(s, whitespace_end(s, i), found) == spec_attributes_from(s, i, found),
{
    lemma_whitespace_end(s, i);
}

/// One attribute: where `name`, `=`, and `value` between two quotes of one
/// kind stand at `i`, the attributes from `i` on are those behind the
/// closing quote, added to what was found with `name` given `value`.
pub proof fn lemma_attribute_read(
    s: Seq<char>,
    i: int,
    name: Seq<char>,
    quote: char,
    value: Seq<char>,
    found: Seq<(Seq<char>, Seq<char>)>,
)
    requires
        quote == '"' || quote == '\'',
        forall|k: int| 0 <= k < name.len() ==> is_tag_char(#[trigger] name[k]),
        forall|k: int| 0 <= k < value.len() ==> (#[trigger] value[k]) != quote,
        has_prefix_at(s, i, name),
        i + name.len() + value.len() + 3 <= s.len(),
        s[i + name.len()] == '=',
        s[i + name.len() + 1] == quote,
        has_prefix_at(s, i + name.len() + 2, value),
        s[i + name.len() + value.len() + 2] == quote,
    ensures
        spec_attributes_from(s, i, found) == spec_attributes_from(
            s,
            i + name.len() + value.len() + 3,
            insert_entry(found, name, value),
        ),
        spec_attr(s, i) == Ok::<((Seq<char>, Seq<char>), int), ParseError>(
            ((name, value), i + name.len() + value.len() + 3),
        ),
{
    let eq = i + name.len();
    let open = eq + 1;
    let close = open + 1 + value.len();
    lemma_tag_name_read(s, i, name);
    assert forall|k: int| open + 1 <= k < close implies not_char(quote)(#[trigger] s[k]) by {
        assert(s[open + 1 + (k - (open + 1))] == value[k - (open + 1)]);
    }
    lemma_run_end_unique(s, open + 1, close, not_char(quote));
    assert(s.subrange(open + 1, close) =~= value);
    lemma_run_end_unique(s, i, i, |c: char| is_whitespace(c));
}

/// Where `>` or `/` stands behind whitespace, the attributes end there.
pub proof fn lemma_attributes_done(s: Seq<char>, i: int, found: Seq<(Seq<char>, Seq<char>)>)
    requires
        0 <= i <= s.len(),
        whitespace_end(s, i) < s.len(),
        s[whitespace_end(s, i)] == '>' || s[whitespace_end(s, i)] == '/',
    ensures
        spec_attributes_from(s, i, found) == Ok::<(Seq<(Seq<char>, Seq<char>)>, int), ParseError>(
            (found, whitespace_end(s, i)),
        ),
{
    lemma_whitespace_end(s, i);
}

/// Paired markup: where `<`, a tag name and attributes stand at `i`, then
/// `>`, nodes, and the closing tag of that name, the element that is read
/// has that name, is paired, and has those attributes and those nodes as its
/// children.
pub proof fn lemma_paired_element(s: Seq<char>, i: int)
    requires
        0 <= i < s.len(),
        s[i] == '<',
        !has_prefix_at(s, i + 1, "!--"@),
        spec_attributes(s, tag_name_end(s, i + 1)) matches Ok((_, at)) && s[at] == '>' && (
        spec_nodes(s, at + 1) matches Ok((_, close)) && spec_closing_tag(
            s,
            close,
            s.subrange(i + 1, tag_name_end(s, i + 1)),
        ) is Ok),
    ensures
        ({
            let tag = s.subrange(i + 1, tag_name_end(s, i + 1));
            let (attributes, at) = spec_attributes(s, tag_name_end(s, i + 1))->Ok_0;
            let (children, close) = spec_nodes(s, at + 1)->Ok_0;
            let end = spec_closing_tag(s, close, tag)->Ok_0;
            spec_element(s, i) == Ok::<(NodeView, int), ParseError>(
                (
                    NodeView::Element(
                        ElementView { tag_name: tag, is_paired: true, attributes, children },
                    ),
                    end,
                ),
            )
        }),
{
    lemma_run_end(s, i + 1, |c: char| is_tag_char(c));
    lemma_attributes_end(s, tag_name_end(s, i + 1), Seq::empty());
}

/// Markup that closes itself: where `<`, a tag name and `/>` stand at `i`,
/// the element that is read has that name, is not paired, and has neither
/// attributes nor children.
pub proof fn lemma_self_closing_element(s: Seq<char>, i: int, tag: Seq<char>)
    requires
        0 <= i,
        i + tag.len() + 3 <= s.len(),
        s[i] == '<',
        has_prefix_at(s, i + 1, tag),
        forall|k: int| 0 <= k < tag.len() ==> is_tag_char(#[trigger] tag[k]),
        s[i + 1 + tag.len()] == '/',
        s[i + 2 + tag.len()] == '>',
    ensures
        spec_element(s, i) == Ok::<(NodeView, int), ParseError>(
            (
                NodeView::Element(
                    ElementView {
                        tag_name: tag,
                        is_paired: false,
                        attributes: Seq::empty(),
                        children: Seq::empty(),
                    },
                ),
                i + tag.len() + 3,
            ),
        ),
{
    let name_end = i + 1 + tag.len();
    if tag.len() > 0 {
        assert(s[i + 1 + 0] == tag[0]);
    }
    lemma_not_a_comment(s, i + 1);
    lemma_tag_name_read(s, i + 1, tag);
    lemma_run_end_unique(s, name_end, name_end, |c: char| is_whitespace(c));
}

/// An element that was read and is not paired has no children.
pub proof fn lemma_unpaired_has_no_children(s: Seq<char>, i: int)
    ensures
        spec_element(s, i) matches Ok((NodeView::Element(element), _)) ==> (!element.is_paired
            ==> element.children.len() == 0),
{
}

} // verus!
