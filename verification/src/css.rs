//! Stylesheet data: rules, selectors, declarations and values.
//!
//! Supported selectors are simple selectors: an optional tag name, an
//! optional id and any number of class names, in any combination. With all
//! three absent a selector matches every element.

use vstd::prelude::*;

verus! {

/// Layout units in one pixel.
pub const UNITS_PER_PX: i64 = 1000;

/// A stylesheet: its rules, in the order in which they were given.
#[derive(Debug)]
pub struct Stylesheet {
    pub rules: Vec<Rule>,
}

/// A rule: selectors, any one of which makes the rule apply, and the
/// declarations that it then makes.
#[derive(Debug)]
pub struct Rule {
    pub selectors: Vec<Selector>,
    pub declarations: Vec<Declaration>,
}

/// A selector.
#[derive(Debug)]
pub enum Selector {
    Simple(SimpleSelector),
}

/// A simple selector: what it names of an element. What it leaves out
/// matches anything.
#[derive(Debug)]
pub struct SimpleSelector {
    pub tag_name: Option<String>,
    pub id: Option<String>,
    pub class: Vec<String>,
}

/// A declaration: a property name and the value that it gets.
#[derive(Debug)]
pub struct Declaration {
    pub name: String,
    pub value: Value,
}

/// The value of a property.
#[derive(Debug, PartialEq, Eq)]
pub enum Value {
    Keyword(String),
    /// Red, green, blue, alpha.
    Color(u8, u8, u8, u8),
    /// A magnitude in layout units.
    Length(i64, Unit),
}

/// The unit of a length.
#[derive(Debug, Clone, Copy, PartialEq, Eq)]
pub enum Unit {
    /// Pixels.
    Px,
}

/// What a value is, with its keyword read as a sequence of characters.
pub enum ValueView {
    Keyword(Seq<char>),
    Color(u8, u8, u8, u8),
    Length(i64),
}

/// A simple selector with its names read as sequences of characters.
pub struct SelectorView {
    pub tag_name: Option<Seq<char>>,
    pub id: Option<Seq<char>>,
    pub class: Seq<Seq<char>>,
}

/// A declaration with its name read as a sequence of characters.
pub struct DeclarationView {
    pub name: Seq<char>,
    pub value: ValueView,
}

/// A rule as a value: its selectors and its declarations, in order.
pub struct RuleView {
    pub selectors: Seq<SelectorView>,
    pub declarations: Seq<DeclarationView>,
}

/// Counts of ids, classes and tag names in a selector, compared in that order.
pub type Specificity = (usize, usize, usize);

impl View for Value {
    type V = ValueView;

    open spec fn view(&self) -> ValueView {
        match *self {
            Value::Keyword(s) => ValueView::Keyword(s@),
            Value::Color(r, g, b, a) => ValueView::Color(r, g, b, a),
            Value::Length(n, Unit::Px) => ValueView::Length(n),
        }
    }
}

/// The character sequence of a name that may be absent.
pub open spec fn name_view(name: Option<String>) -> Option<Seq<char>> {
    match name {
        Some(s) => Some(s@),
        None => None,
    }
}

impl View for SimpleSelector {
    type V = SelectorView;

    open spec fn view(&self) -> SelectorView {
        SelectorView {
            tag_name: name_view(self.tag_name),
            id: name_view(self.id),
            class: Seq::new(self.class@.len(), |i: int| self.class@[i]@),
        }
    }
}

impl View for Selector {
    type V = SelectorView;

    open spec fn view(&self) -> SelectorView {
        match *self {
            Selector::Simple(simple) => simple@,
        }
    }
}

impl View for Declaration {
    type V = DeclarationView;

    open spec fn view(&self) -> DeclarationView {
        DeclarationView { name: self.name@, value: self.value@ }
    }
}

impl View for Rule {
    type V = RuleView;

    open spec fn view(&self) -> RuleView {
        RuleView {
            selectors: Seq::new(self.selectors@.len(), |i: int| self.selectors@[i]@),
            declarations: Seq::new(self.declarations@.len(), |i: int| self.declarations@[i]@),
        }
    }
}

impl View for Stylesheet {
    type V = Seq<RuleView>;

    open spec fn view(&self) -> Seq<RuleView> {
        Seq::new(self.rules@.len(), |i: int| self.rules@[i]@)
    }
}

impl SelectorView {
    /// The specificity of a selector with these names.
    pub open spec fn specificity(self) -> Specificity {
        (
            if self.id is Some { 1usize } else { 0usize },
            self.class.len() as usize,
            if self.tag_name is Some { 1usize } else { 0usize },
        )
    }

    /// The selector that names nothing.
    pub open spec fn universal() -> SelectorView {
        SelectorView { tag_name: None, id: None, class: Seq::empty() }
    }
}

impl ValueView {
    /// The magnitude of a length, and zero for anything else.
    pub open spec fn px(self) -> int {
        match self {
            ValueView::Length(n) => n as int,
            _ => 0,
        }
    }

    /// Whether the value is the keyword spelled by `word`.
    pub open spec fn is_keyword(self, word: Seq<char>) -> bool {
        self == ValueView::Keyword(word)
    }
}

impl Clone for Value {
    fn clone(&self) -> (res: Value)
        ensures
            res@ == self@,
    {
        match self {
            Value::Keyword(s) => Value::Keyword(s.clone()),
            Value::Color(r, g, b, a) => Value::Color(*r, *g, *b, *a),
            Value::Length(n, Unit::Px) => Value::Length(*n, Unit::Px),
        }
    }
}

impl Value {
    /// The size of a length in layout units, or zero for a value that is no length.
    pub fn to_px(&self) -> (px: i64)
        ensures
            px == self@.px(),
    {
        match self {
            Value::Length(n, Unit::Px) => *n,
            _ => 0,
        }
    }

    /// Whether the value is the keyword spelled by `word`.
    pub fn is_keyword(&self, word: &str) -> (res: bool)
        ensures
            res == self@.is_keyword(word@),
    {
        match self {
            Value::Keyword(s) => {
                let w = String::from_str(word);
                *s == w
            },
            _ => false,
        }
    }
}

impl Selector {
    /// The specificity of the selector: one for an id, the number of
    /// classes, and one for a tag name.
    pub open spec fn spec_specificity(&self) -> Specificity {
        match *self {
            Selector::Simple(simple) => (
                if simple.id is Some { 1usize } else { 0usize },
                simple.class.len(),
                if simple.tag_name is Some { 1usize } else { 0usize },
            ),
        }
    }

    /// The triple by which competing selectors are ranked: whether the
    /// selector names an id, how many classes it names, and whether it names
    /// a tag.
    #[verifier::when_used_as_spec(spec_specificity)]
    pub fn specificity(&self) -> (res: Specificity)
        ensures
            res == self.spec_specificity(),
    {
        match self {
            Selector::Simple(simple) => {
                let a: usize = if simple.id.is_some() { 1 } else { 0 };
                let b: usize = simple.class.len();
                let c: usize = if simple.tag_name.is_some() { 1 } else { 0 };
                (a, b, c)
            },
        }
    }
}

/// Whether `a` ranks strictly below `b`: the triples compare entry by entry,
/// the first entry weighing most.
pub open spec fn ranks_below(a: Specificity, b: Specificity) -> bool {
    a.0 < b.0 || (a.0 == b.0 && (a.1 < b.1 || (a.1 == b.1 && a.2 < b.2)))
}

/// Whether `a` ranks strictly below `b`.
pub fn is_ranked_below(a: Specificity, b: Specificity) -> (res: bool)
    ensures
        res == ranks_below(a, b),
{
    a.0 < b.0 || (a.0 == b.0 && (a.1 < b.1 || (a.1 == b.1 && a.2 < b.2)))
}

/// A selector that names an id outranks every selector that names none, and
/// among selectors without an id one that names a class outranks every one
/// that names none.
pub proof fn lemma_id_outranks_class_outranks_tag(with_id: Selector, with_class: Selector, plain: Selector)
    requires
        with_id matches Selector::Simple(s) && s.id is Some,
        with_class matches Selector::Simple(s) && s.id is None && s.class.len() > 0,
        plain matches Selector::Simple(s) && s.id is None && s.class.len() == 0,
    ensures
        ranks_below(with_class.spec_specificity(), with_id.spec_specificity()),
        ranks_below(plain.spec_specificity(), with_class.spec_specificity()),
        ranks_below(plain.spec_specificity(), with_id.spec_specificity()),
{
}

} // verus!
