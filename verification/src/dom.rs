//! The document tree: text and elements, each element with its attributes.

use crate::chars::{chars_of, is_space, is_whitespace};
use crate::strmap::StrMap;
use vstd::prelude::*;

verus! {

/// A node of the document tree.
#[derive(Debug)]
pub struct Node {
    /// The children, in document order.
    pub children: Vec<Node>,
    /// What the node itself is.
    pub node_type: NodeType,
}

/// What a node is: text or an element.
#[derive(Debug)]
pub enum NodeType {
    Text(String),
    Element(ElementData),
}

/// What an element has of its own: its tag name and its attributes.
#[derive(Debug)]
pub struct ElementData {
    pub tag_name: String,
    pub attributes: AttrMap,
}

/// The attributes of an element, by name.
pub type AttrMap = StrMap<String>;

/// What a node is, as a value: text, or an element with its tag name and
/// its attributes.
pub enum NodeKindView {
    Text(Seq<char>),
    Element(Seq<char>, Map<Seq<char>, Seq<char>>),
}

/// A document tree as a value.
pub struct NodeView {
    pub children: Seq<NodeView>,
    pub kind: NodeKindView,
}

impl View for NodeType {
    type V = NodeKindView;

    open spec fn view(&self) -> NodeKindView {
        match *self {
            NodeType::Text(data) => NodeKindView::Text(data@),
            NodeType::Element(elem) => NodeKindView::Element(elem.tag_name@, elem.attributes@),
        }
    }
}

impl Node {
    /// The tree at this node as a value.
    pub open spec fn model(self) -> NodeView
        decreases self,
    {
        NodeView {
            children: Seq::new(
                self.children@.len(),
                |i: int|
                    if 0 <= i < self.children@.len() {
                        self.children@[i].model()
                    } else {
                        arbitrary()
                    },
            ),
            kind: self.node_type@,
        }
    }
}

impl View for Node {
    type V = NodeView;

    open spec fn view(&self) -> NodeView {
        self.model()
    }
}

/// The trees of a list of nodes, as values.
pub open spec fn node_views(nodes: Seq<Node>) -> Seq<NodeView> {
    Seq::new(nodes.len(), |i: int| nodes[i]@)
}

/// A node as a value holds what the node is, and its children as values.
pub proof fn lemma_node_view(node: Node)
    ensures
        node@.kind == node.node_type@,
        node@.children == node_views(node.children@),
{
    assert(node@.children =~= node_views(node.children@));
}

/// A text node holding `data`.
pub fn text(data: String) -> (node: Node)
    ensures
        node.children@.len() == 0,
        node.node_type == NodeType::Text(data),
{
    Node { children: Vec::new(), node_type: NodeType::Text(data) }
}

/// An element named `name` with the attributes `attrs` and the children `children`.
pub fn elem(name: String, attrs: AttrMap, children: Vec<Node>) -> (node: Node)
    ensures
        node.children == children,
        node.node_type == NodeType::Element(ElementData { tag_name: name, attributes: attrs }),
{
    Node {
        children: children,
        node_type: NodeType::Element(ElementData { tag_name: name, attributes: attrs }),
    }
}

/// The words of `s`, in order: its longest runs of characters that are
/// not white space.
pub open spec fn words(s: Seq<char>) -> Seq<Seq<char>>
    decreases s.len(),
{
    if s.len() == 0 {
        Seq::empty()
    } else if is_space(s.last()) {
        words(s.drop_last())
    } else if s.len() >= 2 && !is_space(s[s.len() - 2]) {
        let before = words(s.drop_last());
        before.drop_last().push(before.last().push(s.last()))
    } else {
        words(s.drop_last()).push(seq![s.last()])
    }
}

/// The words of `s` that are complete before its last character, and
/// the word that its last character stands in, which is empty where that is
/// white space or `s` is empty.
pub open spec fn words_and_rest(s: Seq<char>) -> (Seq<Seq<char>>, Seq<char>) {
    if s.len() > 0 && !is_space(s.last()) {
        (words(s).drop_last(), words(s).last())
    } else {
        (words(s), Seq::empty())
    }
}

/// A text that ends in a word has at least that word, and no word is empty.
proof fn lemma_words_end(s: Seq<char>)
    ensures
        s.len() > 0 && !is_space(s.last()) ==> words(s).len() > 0 && words(s).last().len() > 0,
    decreases s.len(),
{
    if s.len() > 0 && !is_space(s.last()) {
        if s.len() >= 2 && !is_space(s[s.len() - 2]) {
            lemma_words_end(s.drop_last());
        }
    }
}

/// Whether `word` has a character and none that is white space.
pub open spec fn is_word(word: Seq<char>) -> bool {
    word.len() > 0 && forall|j: int| 0 <= j < word.len() ==> !is_space(#[trigger] word[j])
}

/// Every word of a text is one: it is not empty and holds no white space.
pub proof fn lemma_words_are_words(s: Seq<char>)
    ensures
        forall|i: int| 0 <= i < words(s).len() ==> is_word(#[trigger] words(s)[i]),
    decreases s.len(),
{
    if s.len() > 0 {
        let init = s.drop_last();
        let before = words(init);
        lemma_words_are_words(init);
        if is_space(s.last()) {
            assert(words(s) == before);
        } else if s.len() >= 2 && !is_space(s[s.len() - 2]) {
            lemma_words_end(init);
            let grown = before.last().push(s.last());
            assert(is_word(before[before.len() - 1]));
            assert forall|j: int| 0 <= j < grown.len() implies !is_space(#[trigger] grown[j]) by {
                if j < before.last().len() {
                    assert(grown[j] == before.last()[j]);
                }
            }
            assert forall|i: int| 0 <= i < words(s).len() implies is_word(
                #[trigger] words(s)[i],
            ) by {
                if i < before.len() - 1 {
                    assert(words(s)[i] == before[i]);
                }
            }
        } else {
            assert forall|i: int| 0 <= i < words(s).len() implies is_word(
                #[trigger] words(s)[i],
            ) by {
                if i < before.len() {
                    assert(words(s)[i] == before[i]);
                } else {
                    assert(words(s)[i] =~= seq![s.last()]);
                }
            }
        }
    }
}

/// How the words of a text change with one more character.
proof fn lemma_words_step(s: Seq<char>, c: char)
    ensures
        ({
            let (done, rest) = words_and_rest(s);
            words_and_rest(s.push(c)) == if is_space(c) {
                if rest.len() > 0 {
                    (done.push(rest), Seq::<char>::empty())
                } else {
                    (done, Seq::<char>::empty())
                }
            } else {
                (done, rest.push(c))
            }
        }),
        words_and_rest(s).1.len() > 0 <==> s.len() > 0 && !is_space(s.last()),
{
    let t = s.push(c);
    assert(t.drop_last() =~= s);
    assert(t.last() == c);
    lemma_words_end(s);
    let (done, rest) = words_and_rest(s);
    if is_space(c) {
        if s.len() > 0 && !is_space(s.last()) {
            assert(words(s) =~= done.push(rest));
        }
    } else {
        if s.len() > 0 && !is_space(s.last()) {
            assert(t.len() >= 2 && t[t.len() - 2] == s.last());
            let now = words(s).drop_last().push(words(s).last().push(c));
            assert(words(t) == now);
            assert(now.drop_last() =~= done);
        } else {
            if s.len() > 0 {
                assert(t[t.len() - 2] == s.last());
            }
            assert(words(t) == words(s).push(seq![c]));
            assert(words(s).push(seq![c]).drop_last() =~= words(s));
            assert(seq![c] =~= Seq::<char>::empty().push(c));
        }
    }
}

/// The character sequences of a list of strings.
pub open spec fn views_of(v: Seq<String>) -> Seq<Seq<char>> {
    Seq::new(v.len(), |i: int| v[i]@)
}

/// A list with one more entry holds that entry and what it held before.
proof fn lemma_push_contains(s: Seq<Seq<char>>, x: Seq<char>)
    ensures
        forall|w: Seq<char>| s.push(x).contains(w) <==> (s.contains(w) || w == x),
{
    let now = s.push(x);
    assert forall|w: Seq<char>| now.contains(w) <==> (s.contains(w) || w == x) by {
        if now.contains(w) {
            let i = choose|i: int| 0 <= i < now.len() && now[i] == w;
            if i < s.len() {
                assert(s[i] == w);
            }
        }
        if s.contains(w) {
            let i = choose|i: int| 0 <= i < s.len() && s[i] == w;
            assert(now[i] == w);
        }
        if w == x {
            assert(now[s.len() as int] == w);
        }
    }
}

/// Tests whether `name` is among `names`.
pub fn contains_name(names: &Vec<String>, name: &String) -> (res: bool)
    ensures
        res == views_of(names@).contains(name@),
{
    let n: usize = names.len();
    let mut i: usize = 0;
    while i < n
        invariant
            n == names@.len(),
            i <= n,
            forall|j: int| 0 <= j < i ==> views_of(names@)[j] != name@,
        decreases n - i,
    {
        if names[i] == *name {
            assert(views_of(names@)[i as int] == name@);
            return true;
        }
        i = i + 1;
    }
    false
}

/// Adds `name` to `names` unless it is among them already, so that names
/// that were all different stay so.
pub fn add_name(names: &mut Vec<String>, name: String)
    ensures
        views_of(old(names)@).no_duplicates() ==> views_of(final(names)@).no_duplicates(),
        forall|w: Seq<char>|
            views_of(final(names)@).contains(w) <==> (views_of(old(names)@).contains(w) || w
                == name@),
        views_of(old(names)@).contains(name@) ==> final(names)@ == old(names)@,
        !views_of(old(names)@).contains(name@) ==> final(names)@ == old(names)@.push(name),
{
    if !contains_name(names, &name) {
        let ghost before = views_of(names@);
        let ghost word = name@;
        names.push(name);
        proof {
            assert(views_of(names@) =~= before.push(word));
            lemma_push_contains(before, word);
        }
    }
}

impl ElementData {
    /// The class names of the element: the words of its `class`
    /// attribute, and none where it has no such attribute.
    pub open spec fn class_names(&self) -> Seq<Seq<char>> {
        if self.attributes@.contains_key("class"@) {
            words(self.attributes@["class"@])
        } else {
            Seq::empty()
        }
    }

    /// The value of the attribute `key`, if the element has it.
    pub fn get_attribute(&self, key: &str) -> (res: Option<&String>)
        ensures
            match res {
                Some(v) => self.attributes@.contains_key(key@) && self.attributes@[key@] == v@,
                None => !self.attributes@.contains_key(key@),
            },
    {
        self.attributes.get(key)
    }

    /// The value of the `id` attribute, if the element has one.
    pub fn id(&self) -> (res: Option<&String>)
        ensures
            match res {
                Some(v) => self.attributes@.contains_key("id"@) && self.attributes@["id"@] == v@,
                None => !self.attributes@.contains_key("id"@),
            },
    {
        self.get_attribute("id")
    }

    /// The class names of the element: each word of the `class` attribute
    /// once, in the order in which the words first stand there.
    pub fn classes(&self) -> (res: Vec<String>)
        ensures
            views_of(res@).no_duplicates(),
            forall|w: Seq<char>| views_of(res@).contains(w) <==> self.class_names().contains(w),
            forall|i: int| 0 <= i < res@.len() ==> is_word(#[trigger] views_of(res@)[i]),
    {
        let mut done: Vec<String> = Vec::new();
        assert(views_of(done@) =~= Seq::<Seq<char>>::empty());
        match self.get_attribute("class") {
            Some(classlist) => {
                let chars = chars_of(classlist.as_str());
                let n: usize = chars.len();
                let mut piece = String::new();
                let mut i: usize = 0;
                assert(chars@.take(0) =~= Seq::<char>::empty());
                while i < n
                    invariant
                        n == chars@.len(),
                        i <= n,
                        piece@ == words_and_rest(chars@.take(i as int)).1,
                        views_of(done@).no_duplicates(),
                        forall|w: Seq<char>|
                            views_of(done@).contains(w) <==> words_and_rest(
                                chars@.take(i as int),
                            ).0.contains(w),
                    decreases n - i,
                {
                    let c = chars[i];
                    let ghost seen = words_and_rest(chars@.take(i as int)).0;
                    proof {
                        lemma_words_step(chars@.take(i as int), c);
                        assert(chars@.take(i as int).push(c) =~= chars@.take(i as int + 1));
                    }
                    if is_whitespace(c) {
                        if !piece.as_str().is_empty() {
                            let ghost word = piece@;
                            proof {
                                lemma_push_contains(seen, word);
                            }
                            add_name(&mut done, piece);
                            piece = String::new();
                        }
                    } else {
                        piece.push(c);
                    }
                    i = i + 1;
                }
                proof {
                    assert(chars@.take(n as int) =~= chars@);
                    lemma_words_step(chars@, ' ');
                }
                if !piece.as_str().is_empty() {
                    let ghost seen = words_and_rest(chars@).0;
                    let ghost word = piece@;
                    proof {
                        lemma_push_contains(seen, word);
                        assert(words(chars@) =~= seen.push(word));
                    }
                    add_name(&mut done, piece);
                }
            },
            None => {},
        }
        proof {
            assert forall|i: int| 0 <= i < done@.len() implies is_word(
                #[trigger] views_of(done@)[i],
            ) by {
                let w = views_of(done@)[i];
                assert(views_of(done@).contains(w));
                assert(self.class_names().contains(w));
                lemma_words_are_words(self.attributes@["class"@]);
            }
        }
        done
    }
}

} // verus!
