//! The document tree.

use crate::boundary::same_text;
use crate::strmap::{entry_views, StrMap};
use vstd::prelude::*;

pub mod format;
pub mod tree;

verus! {

/// The attributes of an element: each name once, with its value.
pub type AttrMap = StrMap<String>;

/// A node of the document tree.
#[derive(Debug)]
pub enum Node {
    Text(String),
    Element(ElementData),
    Comment(String),
}

/// An element: its tag name, whether it was closed by a closing tag of its
/// own (`is_paired`) or closed itself, its attributes and its children. An
/// element that closed itself has no children.
#[derive(Debug)]
pub struct ElementData {
    pub tag_name: String,
    pub is_paired: bool,
    pub attributes: AttrMap,
    pub children: Vec<Node>,
}

/// What a node is to the contracts.
pub enum NodeView {
    Text(Seq<char>),
    Element(ElementView),
    Comment(Seq<char>),
}

/// What an element is to the contracts. The attributes stand in the order
/// in which their names first came.
pub struct ElementView {
    pub tag_name: Seq<char>,
    pub is_paired: bool,
    pub attributes: Seq<(Seq<char>, Seq<char>)>,
    pub children: Seq<NodeView>,
}

/// `unit` written `count` times.
pub open spec fn repeated(unit: Seq<char>, count: nat) -> Seq<char>
    decreases count,
{
    if count == 0 {
        Seq::empty()
    } else {
        repeated(unit, (count - 1) as nat) + unit
    }
}

/// The views of a sequence of nodes.
pub open spec fn nodes_view(nodes: Seq<Node>) -> Seq<NodeView> {
    Seq::new(nodes.len(), |i: int| nodes[i]@)
}

/// The views of a sequence of elements.
pub open spec fn elements_view(elements: Seq<ElementData>) -> Seq<ElementView> {
    Seq::new(elements.len(), |i: int| elements[i]@)
}

impl View for Node {
    type V = NodeView;

    open spec fn view(&self) -> NodeView
        decreases self,
    {
        match self {
            Node::Text(text) => NodeView::Text(text@),
            Node::Comment(text) => NodeView::Comment(text@),
            Node::Element(data) => NodeView::Element(
                ElementView {
                    tag_name: data.tag_name@,
                    is_paired: data.is_paired,
                    attributes: entry_views(data.attributes@),
                    children: Seq::new(
                        data.children.len() as nat,
                        |i: int|
                            if 0 <= i < data.children.len() {
                                data.children[i].view()
                            } else {
                                NodeView::Text(Seq::empty())
                            },
                    ),
                },
            ),
        }
    }
}

impl View for ElementData {
    type V = ElementView;

    open spec fn view(&self) -> ElementView {
        ElementView {
            tag_name: self.tag_name@,
            is_paired: self.is_paired,
            attributes: entry_views(self.attributes@),
            children: nodes_view(self.children@),
        }
    }
}

/// The view of an element node is the view of its element.
pub proof fn lemma_element_node_view(data: ElementData)
    ensures
        Node::Element(data)@ == NodeView::Element(data@),
{
    assert(Node::Element(data)@->Element_0.children =~= data@.children);
}

/// The elements named `tag` in the tree under `element`, in document order.
/// An element that is named so is found whole: the search does not go on
/// among its children.
pub open spec fn elements_by_tag(element: ElementView, tag: Seq<char>) -> Seq<ElementView>
    decreases element,
{
    if element.tag_name == tag {
        seq![element]
    } else {
        elements_among(element.children, tag)
    }
}

/// The elements named `tag` in the trees under `nodes`, in document order.
pub open spec fn elements_among(nodes: Seq<NodeView>, tag: Seq<char>) -> Seq<ElementView>
    decreases nodes,
{
    if nodes.len() == 0 {
        Seq::empty()
    } else {
        elements_among(nodes.drop_last(), tag) + (match nodes.last() {
            NodeView::Element(child) => elements_by_tag(child, tag),
            _ => Seq::empty(),
        })
    }
}

impl Clone for Node {
    fn clone(&self) -> (copy: Self)
        ensures
            copy@ == self@,
        decreases self,
    {
        match self {
            Node::Text(text) => Node::Text(text.clone()),
            Node::Comment(text) => Node::Comment(text.clone()),
            Node::Element(data) => {
                let copy = data.clone();
                proof {
                    lemma_element_node_view(*data);
                    lemma_element_node_view(copy);
                }
                Node::Element(copy)
            },
        }
    }
}

impl Clone for ElementData {
    #[verifier::loop_isolation(false)]
    fn clone(&self) -> (copy: Self)
        ensures
            copy@ == self@,
        decreases self,
    {
        let mut children: Vec<Node> = Vec::new();
        let mut i: usize = 0;
        while i < self.children.len()
            invariant
                i <= self.children@.len(),
                children@.len() == i,
                forall|k: int| 0 <= k < i ==> children@[k]@ == self.children@[k]@,
            decreases self.children@.len() - i,
        {
            let child = self.children[i].clone();
            children.push(child);
            i += 1;
        }
        assert(nodes_view(children@) =~= nodes_view(self.children@));
        ElementData {
            tag_name: self.tag_name.clone(),
            is_paired: self.is_paired,
            attributes: self.attributes.clone(),
            children,
        }
    }
}

impl ElementData {
    #[verifier::loop_isolation(false)]
    fn _get_elements_by_tag_name(&self, tags: &mut Vec<ElementData>, tag_name: &str)
        ensures
            elements_view(final(tags)@) == elements_view(old(tags)@) + elements_by_tag(
                self@,
                tag_name@,
            ),
        decreases self,
    {
        let ghost before = elements_view(tags@);
        if same_text(self.tag_name.as_str(), tag_name) {
            tags.push(self.clone());
            assert(elements_view(tags@) =~= before + seq![self@]);
        } else {
            let mut i: usize = 0;
            assert(self@.children.take(0) =~= Seq::<NodeView>::empty());
            assert(elements_view(tags@) =~= before + Seq::<ElementView>::empty());
            while i < self.children.len()
                invariant
                    i <= self.children@.len(),
                    elements_view(tags@) == before + elements_among(
                        self@.children.take(i as int),
                        tag_name@,
                    ),
                decreases self.children@.len() - i,
            {
                let ghost seen = self@.children.take(i as int);
                let ghost next = self@.children.take(i + 1);
                assert(next.drop_last() =~= seen);
                assert(next.last() == self.children@[i as int]@);
                match &self.children[i] {
                    Node::Element(child) => {
                        proof {
                            lemma_element_node_view(*child);
                        }
                        child._get_elements_by_tag_name(tags, tag_name);
                        assert(elements_view(tags@) =~= before + elements_among(next, tag_name@));
                    },
                    _ => {
                        assert(elements_view(tags@) =~= before + elements_among(next, tag_name@));
                    },
                }
                i += 1;
            }
            assert(self@.children.take(self.children@.len() as int) =~= self@.children);
        }
    }

    /// Returns copies of the elements named `tag_name` in the tree under this
    /// element, itself included, in document order. The search does not go
    /// on among the children of an element that it has found.
    pub fn get_elements_by_tag_name(&self, tag_name: &str) -> (elements: Vec<ElementData>)
        ensures
            elements_view(elements@) == elements_by_tag(self@, tag_name@),
    {
        let mut elements: Vec<ElementData> = Vec::new();
        self._get_elements_by_tag_name(&mut elements, tag_name);
        assert(elements_view(Seq::<ElementData>::empty()) + elements_by_tag(self@, tag_name@)
            =~= elements_by_tag(self@, tag_name@));
        elements
    }
}

} // verus!
