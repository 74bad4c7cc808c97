//! The style sheet: rules, selectors, declarations and values.

use crate::strmap::{entry_views, StrMap};
use vstd::prelude::*;

verus! {

/// A style sheet: its rules in source order.
#[derive(Debug)]
pub struct Stylesheet {
    pub rules: Vec<Rule>,
}

/// A rule: its selectors, the most specific first, and its declarations.
#[derive(Debug)]
pub struct Rule {
    pub selectors: Vec<Selector>,
    pub declarations: Declarations,
}

/// A selector: a tag name, an id, and class names in the order in which they
/// were written. Each of them may be missing, and a class may come twice.
#[derive(Debug, PartialEq)]
pub struct Selector {
    pub tag_name: Option<String>,
    pub id: Option<String>,
    pub class: Vec<String>,
}

/// The key by which selectors are ordered: whether there is an id, the
/// number of classes, whether there is a tag name.
pub type Specificity = (usize, usize, usize);

/// The value of a declaration.
///
/// A length holds its magnitude as it was written, a decimal numeral: digits
/// with at most one decimal point. A colour is opaque: its `a` is 255.
#[derive(Debug, PartialEq)]
pub enum Value {
    Keyword(String),
    Length(String, Unit),
    Color(Color),
}

/// The units of a length.
#[derive(Debug, Clone, Copy, PartialEq, Eq, Structural)]
pub enum Unit {
    Px,
    Pt,
    Percent,
    Wh,
    Vh,
    Em,
    Rem,
}

/// A colour: red, green, blue and alpha.
#[derive(Debug, Clone, Copy, PartialEq, Eq, Structural)]
pub struct Color {
    pub r: u8,
    pub g: u8,
    pub b: u8,
    pub a: u8,
}

/// The declarations of a rule: each property once, with its value.
pub type Declarations = StrMap<Value>;

/// What a selector is to the contracts.
pub struct SelectorView {
    pub tag_name: Option<Seq<char>>,
    pub id: Option<Seq<char>>,
    pub class: Seq<Seq<char>>,
}

/// What a value is to the contracts.
pub enum ValueView {
    Keyword(Seq<char>),
    Length(Seq<char>, Unit),
    Color(Color),
}

/// What a rule is to the contracts.
pub struct RuleView {
    pub selectors: Seq<SelectorView>,
    pub declarations: Seq<(Seq<char>, ValueView)>,
}

/// The characters of an optional string.
pub open spec fn name_view(name: Option<String>) -> Option<Seq<char>> {
    match name {
        Some(text) => Some(text@),
        None => None,
    }
}

/// The characters of each string of a sequence.
pub open spec fn names_view(names: Seq<String>) -> Seq<Seq<char>> {
    Seq::new(names.len(), |i: int| names[i]@)
}

/// The views of a sequence of selectors.
pub open spec fn selectors_view(selectors: Seq<Selector>) -> Seq<SelectorView> {
    Seq::new(selectors.len(), |i: int| selectors[i]@)
}

/// The views of a sequence of rules.
pub open spec fn rules_view(rules: Seq<Rule>) -> Seq<RuleView> {
    Seq::new(rules.len(), |i: int| rules[i]@)
}

impl View for Selector {
    type V = SelectorView;

    open spec fn view(&self) -> SelectorView {
        SelectorView {
            tag_name: name_view(self.tag_name),
            id: name_view(self.id),
            class: names_view(self.class@),
        }
    }
}

impl View for Value {
    type V = ValueView;

    open spec fn view(&self) -> ValueView {
        match self {
            Value::Keyword(word) => ValueView::Keyword(word@),
            Value::Length(magnitude, unit) => ValueView::Length(magnitude@, *unit),
            Value::Color(color) => ValueView::Color(*color),
        }
    }
}

impl View for Rule {
    type V = RuleView;

    open spec fn view(&self) -> RuleView {
        RuleView {
            selectors: selectors_view(self.selectors@),
            declarations: entry_views(self.declarations@),
        }
    }
}

impl View for Stylesheet {
    type V = Seq<RuleView>;

    open spec fn view(&self) -> Seq<RuleView> {
        rules_view(self.rules@)
    }
}

impl SelectorView {
    /// The specificity of the selector: 1 for an id, the number of classes,
    /// 1 for a tag name.
    pub open spec fn specificity(self) -> (nat, nat, nat) {
        (
            if self.id is Some {
                1nat
            } else {
                0nat
            },
            self.class.len(),
            if self.tag_name is Some {
                1nat
            } else {
                0nat
            },
        )
    }
}

/// `a` is a higher specificity than `b`: the first number in which they
/// differ is greater in `a`.
pub open spec fn outranks(a: (nat, nat, nat), b: (nat, nat, nat)) -> bool {
    a.0 > b.0 || (a.0 == b.0 && (a.1 > b.1 || (a.1 == b.1 && a.2 > b.2)))
}

impl Selector {
    /// Returns the specificity of the selector.
    pub fn specificity(&self) -> (r: Specificity)
        ensures
            (r.0 as nat, r.1 as nat, r.2 as nat) == self@.specificity(),
    {
        let a: usize = if self.id.is_some() {
            1
        } else {
            0
        };
        let b: usize = self.class.len();
        let c: usize = if self.tag_name.is_some() {
            1
        } else {
            0
        };
        (a, b, c)
    }
}

} // verus!
