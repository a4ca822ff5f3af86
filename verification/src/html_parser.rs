//! The grammar of documents, and the part of the parser that reads them.
//!
//! A document is a list of nodes. A node is text, which runs up to the
//! next `<`, or an element: an opening tag with attributes, the nodes
//! inside, and a closing tag of the same name.

use crate::dom::{elem, lemma_node_view, node_views, text, AttrMap, Node, NodeKindView, NodeView};
use crate::parser::{lemma_run_within, past_space, run_end, CharClass, ParseError, Parser};
use crate::strmap::StrMap;
use vstd::prelude::*;

verus! {

/// The tag or attribute name that starts at `from`, which is empty where
/// no letter or digit stands there.
pub open spec fn name_at(s: Seq<char>, from: int) -> Seq<char> {
    s.subrange(from, run_end(s, from, CharClass::Name))
}

/// The text node that starts at `pos`: the text up to the next `<`.
pub open spec fn text_at(s: Seq<char>, pos: int) -> NodeView {
    NodeView {
        children: Seq::empty(),
        kind: NodeKindView::Text(s.subrange(pos, run_end(s, pos, CharClass::Text))),
    }
}

/// Whether a closing tag starts at `pos`.
pub open spec fn closes_at(s: Seq<char>, pos: int) -> bool {
    0 <= pos && pos + 2 <= s.len() && s[pos] == '<' && s[pos + 1] == '/'
}

/// The quoted value that starts at `pos` and where it ends: the text
/// between two double quotes or two single quotes.
pub open spec fn attr_value_at(s: Seq<char>, pos: int) -> Option<(Seq<char>, int)> {
    if 0 <= pos < s.len() && (s[pos] == '"' || s[pos] == '\'') {
        let end = run_end(s, pos + 1, CharClass::Until(s[pos]));
        if end < s.len() {
            Some((s.subrange(pos + 1, end), end + 1))
        } else {
            None
        }
    } else {
        None
    }
}

/// The attribute that starts at `pos` and where it ends: a name, `=` and
/// a quoted value.
pub open spec fn attr_at(s: Seq<char>, pos: int) -> Option<((Seq<char>, Seq<char>), int)> {
    let equals = run_end(s, pos, CharClass::Name);
    if 0 <= pos && equals < s.len() && s[equals] == '=' {
        match attr_value_at(s, equals + 1) {
            Some((value, end)) => Some(((name_at(s, pos), value), end)),
            None => None,
        }
    } else {
        None
    }
}

/// An attribute ends behind its start and inside the text.
pub proof fn lemma_attr_bounds(s: Seq<char>, pos: int)
    requires
        0 <= pos <= s.len(),
    ensures
        attr_at(s, pos) matches Some((_, end)) ==> pos < end <= s.len(),
{
    lemma_run_within(s, pos, CharClass::Name);
    let equals = run_end(s, pos, CharClass::Name);
    if equals < s.len() && equals + 1 < s.len() {
        lemma_run_within(s, equals + 2, CharClass::Until(s[equals + 1]));
    }
}

/// The attributes from `pos` up to the `>` that ends the tag, added to
/// those of `acc`, and the place of the `>`. A later attribute replaces an
/// earlier one of the same name.
pub open spec fn attributes_from(s: Seq<char>, pos: int, acc: Map<Seq<char>, Seq<char>>) -> Option<
    (Map<Seq<char>, Seq<char>>, int),
>
    decreases s.len() - pos,
{
    let start = past_space(s, pos);
    if pos < 0 || start >= s.len() {
        None
    } else if s[start] == '>' {
        Some((acc, start))
    } else {
        match attr_at(s, start) {
            Some(((name, value), end)) => {
                proof {
                    lemma_attr_bounds(s, start);
                }
                attributes_from(s, end, acc.insert(name, value))
            },
            None => None,
        }
    }
}

/// The attributes of a tag end at a `>` inside the text.
pub proof fn lemma_attributes_bounds(s: Seq<char>, pos: int, acc: Map<Seq<char>, Seq<char>>)
    requires
        0 <= pos <= s.len(),
    ensures
        attributes_from(s, pos, acc) matches Some((_, end)) ==> pos <= end < s.len() && s[end]
            == '>',
    decreases s.len() - pos,
{
    lemma_run_within(s, pos, CharClass::Whitespace);
    let start = past_space(s, pos);
    if start < s.len() && s[start] != '>' {
        lemma_attr_bounds(s, start);
        match attr_at(s, start) {
            Some(((name, value), end)) => {
                lemma_attributes_bounds(s, end, acc.insert(name, value));
            },
            None => {},
        }
    }
}

/// The sibling nodes from `pos` on, added to those of `acc`, and where
/// they end: at the end of the text or before a closing tag.
pub open spec fn nodes_from(s: Seq<char>, pos: int, acc: Seq<NodeView>) -> Option<
    (Seq<NodeView>, int),
>
    decreases s.len() - pos, 2int,
{
    let start = past_space(s, pos);
    if pos < 0 || start >= s.len() || closes_at(s, start) {
        Some((acc, start))
    } else {
        match node_at(s, start) {
            Some((node, end)) => if start < end <= s.len() {
                nodes_from(s, end, acc.push(node))
            } else {
                None
            },
            None => None,
        }
    }
}

/// The node that starts at `pos` and where it ends: an element where a
/// `<` stands there, and text otherwise.
pub open spec fn node_at(s: Seq<char>, pos: int) -> Option<(NodeView, int)>
    decreases s.len() - pos, 1int,
{
    if pos < 0 || pos >= s.len() {
        None
    } else if s[pos] == '<' {
        element_at(s, pos)
    } else {
        Some((text_at(s, pos), run_end(s, pos, CharClass::Text)))
    }
}

/// The element that starts at `pos` and where it ends: an opening tag
/// with its attributes, the nodes inside, and a closing tag of the same
/// name.
pub open spec fn element_at(s: Seq<char>, pos: int) -> Option<(NodeView, int)>
    decreases s.len() - pos, 0int,
{
    if pos < 0 || pos >= s.len() || s[pos] != '<' {
        None
    } else {
        let tag = name_at(s, pos + 1);
        proof {
            lemma_run_within(s, pos + 1, CharClass::Name);
        }
        match attributes_from(s, run_end(s, pos + 1, CharClass::Name), Map::empty()) {
            Some((attributes, gt)) => {
                proof {
                    lemma_attributes_bounds(
                        s,
                        run_end(s, pos + 1, CharClass::Name),
                        Map::empty(),
                    );
                }
                match nodes_from(s, gt + 1, Seq::empty()) {
                    Some((children, close)) => {
                        let name_end = run_end(s, close + 2, CharClass::Name);
                        if closes_at(s, close) && name_at(s, close + 2) == tag && name_end
                            < s.len() && s[name_end] == '>' {
                            Some(
                                (
                                    NodeView {
                                        children,
                                        kind: NodeKindView::Element(tag, attributes),
                                    },
                                    name_end + 1,
                                ),
                            )
                        } else {
                            None
                        }
                    },
                    None => None,
                }
            },
            None => None,
        }
    }
}

/// The document that the text `s` spells, if it spells one: its one node
/// where the text holds just one, and an element `html` around its nodes
/// otherwise.
pub open spec fn document_of(s: Seq<char>) -> Option<NodeView> {
    match nodes_from(s, 0, Seq::empty()) {
        Some((nodes, _)) => if nodes.len() == 1 {
            Some(nodes[0])
        } else {
            Some(
                NodeView {
                    children: nodes,
                    kind: NodeKindView::Element("html"@, Map::empty()),
                },
            )
        },
        None => None,
    }
}

/// Sibling nodes end behind their start and inside the text.
pub proof fn lemma_nodes_bounds(s: Seq<char>, pos: int, acc: Seq<NodeView>)
    requires
        0 <= pos <= s.len(),
    ensures
        nodes_from(s, pos, acc) matches Some((_, end)) ==> pos <= end <= s.len(),
    decreases s.len() - pos,
{
    lemma_run_within(s, pos, CharClass::Whitespace);
    let start = past_space(s, pos);
    if start < s.len() && !closes_at(s, start) {
        match node_at(s, start) {
            Some((node, end)) => {
                if start < end <= s.len() {
                    lemma_nodes_bounds(s, end, acc.push(node));
                }
            },
            None => {},
        }
    }
}

impl Parser {
    /// Reads a tag or attribute name, which is empty where none stands here.
    pub fn parse_tag_name(&mut self) -> (res: String)
        requires
            old(self).wf(),
        ensures
            final(self).wf(),
            final(self).input == old(self).input,
            final(self).pos == run_end(old(self).input@, old(self).pos as int, CharClass::Name),
            res@ == name_at(old(self).input@, old(self).pos as int),
    {
        self.consume_while(CharClass::Name)
    }

    /// Reads a text node.
    pub fn parse_text(&mut self) -> (res: Node)
        requires
            old(self).wf(),
        ensures
            final(self).wf(),
            final(self).input == old(self).input,
            final(self).pos == run_end(old(self).input@, old(self).pos as int, CharClass::Text),
            res@ == text_at(old(self).input@, old(self).pos as int),
    {
        let node = text(self.consume_while(CharClass::Text));
        proof {
            lemma_node_view(node);
            assert(node_views(node.children@) =~= Seq::<NodeView>::empty());
        }
        node
    }

    /// Reads a quoted value.
    pub fn parse_attr_value(&mut self) -> (res: Result<String, ParseError>)
        requires
            old(self).wf(),
        ensures
            final(self).wf(),
            final(self).input == old(self).input,
            match res {
                Ok(value) => attr_value_at(old(self).input@, old(self).pos as int) == Some(
                    (value@, final(self).pos as int),
                ),
                Err(_) => attr_value_at(old(self).input@, old(self).pos as int) is None,
            },
    {
        let open_quote = self.consume_char()?;
        if !(open_quote == '"' || open_quote == '\'') {
            return Err(ParseError);
        }
        proof {
            lemma_run_within(self.input@, self.pos as int, CharClass::Until(open_quote));
        }
        let value = self.consume_while(CharClass::Until(open_quote));
        self.expect(open_quote)?;
        Ok(value)
    }

    /// Reads an attribute: `name="value"`.
    pub fn parse_attr(&mut self) -> (res: Result<(String, String), ParseError>)
        requires
            old(self).wf(),
        ensures
            final(self).wf(),
            final(self).input == old(self).input,
            match res {
                Ok(pair) => attr_at(old(self).input@, old(self).pos as int) == Some(
                    ((pair.0@, pair.1@), final(self).pos as int),
                ),
                Err(_) => attr_at(old(self).input@, old(self).pos as int) is None,
            },
    {
        proof {
            lemma_run_within(self.input@, self.pos as int, CharClass::Name);
        }
        let name = self.parse_tag_name();
        self.expect('=')?;
        let value = self.parse_attr_value()?;
        Ok((name, value))
    }

    /// Reads the attributes of a tag, up to the `>` that ends it.
    pub fn parse_attributes(&mut self) -> (res: Result<AttrMap, ParseError>)
        requires
            old(self).wf(),
        ensures
            final(self).wf(),
            final(self).input == old(self).input,
            match res {
                Ok(attributes) => attributes_from(
                    old(self).input@,
                    old(self).pos as int,
                    Map::empty(),
                ) == Some((attributes@, final(self).pos as int)),
                Err(_) => attributes_from(old(self).input@, old(self).pos as int, Map::empty())
                    is None,
            },
    {
        let mut attributes: AttrMap = StrMap::new();
        loop
            invariant
                self.wf(),
                self.input == old(self).input,
                attributes_from(old(self).input@, old(self).pos as int, Map::empty())
                    == attributes_from(self.input@, self.pos as int, attributes@),
            decreases self.input@.len() - self.pos,
        {
            proof {
                lemma_run_within(self.input@, self.pos as int, CharClass::Whitespace);
            }
            self.consume_whitespace();
            let c = self.next_char()?;
            if c == '>' {
                return Ok(attributes);
            }
            proof {
                lemma_attr_bounds(self.input@, self.pos as int);
            }
            let (name, value) = self.parse_attr()?;
            attributes.insert(name, value);
        }
    }

    /// Reads sibling nodes, up to the end of the text or a closing tag.
    pub fn parse_nodes(&mut self) -> (res: Result<Vec<Node>, ParseError>)
        requires
            old(self).wf(),
        ensures
            final(self).wf(),
            final(self).input == old(self).input,
            match res {
                Ok(nodes) => nodes_from(old(self).input@, old(self).pos as int, Seq::empty())
                    == Some((node_views(nodes@), final(self).pos as int)),
                Err(_) => nodes_from(old(self).input@, old(self).pos as int, Seq::empty())
                    is None,
            },
        decreases old(self).input@.len() - old(self).pos, 2int,
    {
        let mut nodes: Vec<Node> = Vec::new();
        assert(node_views(nodes@) =~= Seq::<NodeView>::empty());
        loop
            invariant
                self.wf(),
                self.input == old(self).input,
                old(self).pos <= self.pos,
                nodes_from(old(self).input@, old(self).pos as int, Seq::empty()) == nodes_from(
                    self.input@,
                    self.pos as int,
                    node_views(nodes@),
                ),
            decreases self.input@.len() - self.pos,
        {
            let ghost before = node_views(nodes@);
            proof {
                lemma_run_within(self.input@, self.pos as int, CharClass::Whitespace);
                reveal_strlit("</");
            }
            self.consume_whitespace();
            if self.eof() || self.starts_with("</") {
                proof {
                    if self.pos < self.input@.len() {
                        let word = "</"@;
                        assert(word.len() == 2 && word[0] == '<' && word[1] == '/');
                        assert(self.input@.subrange(self.pos as int, self.pos + 2)[0]
                            == self.input@[self.pos as int]);
                        assert(self.input@.subrange(self.pos as int, self.pos + 2)[1]
                            == self.input@[self.pos + 1]);
                    }
                }
                return Ok(nodes);
            }
            proof {
                let word = "</"@;
                assert(word.len() == 2 && word[0] == '<' && word[1] == '/');
                if closes_at(self.input@, self.pos as int) {
                    assert(self.input@.subrange(self.pos as int, self.pos + 2) =~= word);
                }
            }
            let node = self.parse_node()?;
            let ghost added = node@;
            nodes.push(node);
            assert(node_views(nodes@) =~= before.push(added));
        }
    }

    /// Reads one node: an element or text.
    pub fn parse_node(&mut self) -> (res: Result<Node, ParseError>)
        requires
            old(self).wf(),
        ensures
            final(self).wf(),
            final(self).input == old(self).input,
            match res {
                Ok(node) => node_at(old(self).input@, old(self).pos as int) == Some(
                    (node@, final(self).pos as int),
                ) && old(self).pos < final(self).pos,
                Err(_) => node_at(old(self).input@, old(self).pos as int) is None,
            },
        decreases old(self).input@.len() - old(self).pos, 1int,
    {
        let c = self.next_char()?;
        if c == '<' {
            self.parse_element()
        } else {
            Ok(self.parse_text())
        }
    }

    /// Reads an element: its opening tag, the nodes inside and its closing tag.
    pub fn parse_element(&mut self) -> (res: Result<Node, ParseError>)
        requires
            old(self).wf(),
        ensures
            final(self).wf(),
            final(self).input == old(self).input,
            match res {
                Ok(node) => element_at(old(self).input@, old(self).pos as int) == Some(
                    (node@, final(self).pos as int),
                ) && old(self).pos < final(self).pos,
                Err(_) => element_at(old(self).input@, old(self).pos as int) is None,
            },
        decreases old(self).input@.len() - old(self).pos, 0int,
    {
        let ghost s = self.input@;
        let ghost start = self.pos as int;
        // The opening tag.
        self.expect('<')?;
        proof {
            lemma_run_within(s, start + 1, CharClass::Name);
        }
        let tag_name = self.parse_tag_name();
        proof {
            lemma_attributes_bounds(s, self.pos as int, Map::empty());
        }
        let attrs = self.parse_attributes()?;
        self.expect('>')?;

        // The contents.
        proof {
            lemma_nodes_bounds(s, self.pos as int, Seq::empty());
        }
        let children = self.parse_nodes()?;

        // The closing tag.
        self.expect('<')?;
        self.expect('/')?;
        proof {
            lemma_run_within(s, self.pos as int, CharClass::Name);
        }
        let closing = self.parse_tag_name();
        if closing != tag_name {
            return Err(ParseError);
        }
        self.expect('>')?;

        let node = elem(tag_name, attrs, children);
        proof {
            lemma_node_view(node);
        }
        Ok(node)
    }
}

} // verus!
