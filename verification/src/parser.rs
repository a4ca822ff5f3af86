//! A parser for a small subset of HTML and of CSS.
//!
//! The grammar is given by the spec functions of this file, each of which
//! reads a construct at a position of the text and says what it is and
//! where it ends. The parser's functions compute the same.

use crate::chars::{chars_of, is_space, is_whitespace, string_of};
use crate::css::Stylesheet;
use crate::css_parser::{rule_views, stylesheet_of};
use crate::dom::{elem, lemma_node_view, Node};
use crate::html_parser::document_of;
use crate::strmap::StrMap;
use vstd::prelude::*;

verus! {

/// The text cannot be read: it does not follow the grammar.
#[derive(Debug, Clone, Copy, PartialEq, Eq, Structural)]
pub struct ParseError;

/// A set of characters by which a run of text is delimited.
#[derive(Debug, Clone, Copy)]
pub enum CharClass {
    /// White space.
    Whitespace,
    /// Letters and digits, of which tag and attribute names are made.
    Name,
    /// Everything but `<`.
    Text,
    /// Everything but the given character.
    Until(char),
    /// Letters, digits, `-` and `_`, of which identifiers are made.
    Identifier,
    /// Digits and `.`.
    Number,
    /// Digits.
    Digit,
}

/// Whether `c` is a decimal digit.
pub open spec fn is_digit(c: char) -> bool {
    '0' <= c <= '9'
}

/// Whether `c` is a letter of the basic alphabet or a decimal digit.
pub open spec fn is_alphanumeric(c: char) -> bool {
    'a' <= c <= 'z' || 'A' <= c <= 'Z' || is_digit(c)
}

/// Whether `c` may stand in an identifier.
pub open spec fn is_identifier_char(c: char) -> bool {
    is_alphanumeric(c) || c == '-' || c == '_'
}

/// Tests whether a character may stand in an identifier.
pub fn valid_identifier_char(c: char) -> (res: bool)
    ensures
        res == is_identifier_char(c),
{
    ('a' <= c && c <= 'z') || ('A' <= c && c <= 'Z') || ('0' <= c && c <= '9') || c == '-' || c
        == '_'
}

impl CharClass {
    /// Whether `c` belongs to the class.
    pub open spec fn holds(self, c: char) -> bool {
        match self {
            CharClass::Whitespace => is_space(c),
            CharClass::Name => is_alphanumeric(c),
            CharClass::Text => c != '<',
            CharClass::Until(end) => c != end,
            CharClass::Identifier => is_identifier_char(c),
            CharClass::Number => is_digit(c) || c == '.',
            CharClass::Digit => is_digit(c),
        }
    }

    /// Tests whether `c` belongs to the class.
    pub fn test(&self, c: char) -> (res: bool)
        ensures
            res == self.holds(c),
    {
        match self {
            CharClass::Whitespace => is_whitespace(c),
            CharClass::Name => ('a' <= c && c <= 'z') || ('A' <= c && c <= 'Z') || ('0' <= c && c
                <= '9'),
            CharClass::Text => c != '<',
            CharClass::Until(end) => c != *end,
            CharClass::Identifier => valid_identifier_char(c),
            CharClass::Number => ('0' <= c && c <= '9') || c == '.',
            CharClass::Digit => '0' <= c && c <= '9',
        }
    }
}

/// The number of characters of `s` from `from` on that belong to `class`
/// without a break.
pub open spec fn run(s: Seq<char>, from: int, class: CharClass) -> nat
    decreases s.len() - from,
{
    if 0 <= from < s.len() && class.holds(s[from]) {
        1 + run(s, from + 1, class)
    } else {
        0
    }
}

/// Where the run of `class` that starts at `from` ends.
pub open spec fn run_end(s: Seq<char>, from: int, class: CharClass) -> int {
    from + run(s, from, class)
}

/// Where the white space that starts at `from` ends.
pub open spec fn past_space(s: Seq<char>, from: int) -> int {
    run_end(s, from, CharClass::Whitespace)
}

/// Whether the text `s` goes on with `word` at `from`.
pub open spec fn goes_on_with(s: Seq<char>, from: int, word: Seq<char>) -> bool {
    0 <= from && from + word.len() <= s.len() && s.subrange(from, from + word.len()) == word
}

/// A run ends inside the text.
pub proof fn lemma_run_within(s: Seq<char>, from: int, class: CharClass)
    requires
        0 <= from <= s.len(),
    ensures
        from + run(s, from, class) <= s.len(),
        from + run(s, from, class) < s.len() ==> !class.holds(s[from + run(s, from, class)]),
    decreases s.len() - from,
{
    if from < s.len() && class.holds(s[from]) {
        lemma_run_within(s, from + 1, class);
    }
}

/// A run that has come from `from` to `to` goes on from `to`.
pub proof fn lemma_run_on(s: Seq<char>, from: int, to: int, class: CharClass)
    requires
        0 <= from <= to <= s.len(),
        forall|k: int| from <= k < to ==> class.holds(#[trigger] s[k]),
    ensures
        run(s, from, class) == to - from + run(s, to, class),
    decreases to - from,
{
    if from < to {
        lemma_run_on(s, from + 1, to, class);
    }
}

/// A reader of a text: the text and the position reached in it.
#[derive(Debug)]
pub struct Parser {
    /// The number of characters read.
    pub pos: usize,
    /// The characters of the text.
    pub input: Vec<char>,
}

impl Parser {
    /// Whether the position is inside the text or at its end.
    pub open spec fn wf(&self) -> bool {
        self.pos <= self.input@.len()
    }

    /// A reader at the start of `source`.
    pub fn new(source: &str) -> (res: Parser)
        ensures
            res.wf(),
            res.pos == 0,
            res.input@ == source@,
    {
        Parser { pos: 0, input: chars_of(source) }
    }

    /// The next character, which is not consumed. There is none at the end
    /// of the text.
    pub fn next_char(&self) -> (res: Result<char, ParseError>)
        requires
            self.wf(),
        ensures
            match res {
                Ok(c) => self.pos < self.input@.len() && c == self.input@[self.pos as int],
                Err(_) => self.pos == self.input@.len(),
            },
    {
        if self.pos < self.input.len() {
            Ok(self.input[self.pos])
        } else {
            Err(ParseError)
        }
    }

    /// Whether the text goes on with `s`.
    pub fn starts_with(&self, s: &str) -> (res: bool)
        requires
            self.wf(),
        ensures
            res == goes_on_with(self.input@, self.pos as int, s@),
    {
        let word = chars_of(s);
        let n: usize = word.len();
        let len: usize = self.input.len();
        if n > len - self.pos {
            return false;
        }
        let mut i: usize = 0;
        while i < n
            invariant
                self.wf(),
                len == self.input@.len(),
                n == word@.len(),
                word@ == s@,
                n <= self.input@.len() - self.pos,
                i <= n,
                forall|k: int| 0 <= k < i ==> self.input@[self.pos + k] == word@[k],
            decreases n - i,
        {
            if self.input[self.pos + i] != word[i] {
                assert(self.input@.subrange(self.pos as int, self.pos + n)[i as int]
                    == self.input@[self.pos + i]);
                return false;
            }
            i = i + 1;
        }
        assert(self.input@.subrange(self.pos as int, self.pos + n) =~= word@);
        true
    }

    /// Whether all of the text is consumed.
    pub fn eof(&self) -> (res: bool)
        ensures
            res == (self.pos >= self.input@.len()),
    {
        self.pos >= self.input.len()
    }

    /// Consumes the next character and returns it. There is none at the
    /// end of the text.
    pub fn consume_char(&mut self) -> (res: Result<char, ParseError>)
        requires
            old(self).wf(),
        ensures
            final(self).wf(),
            final(self).input == old(self).input,
            match res {
                Ok(c) => old(self).pos < old(self).input@.len() && c == old(self).input@[old(
                    self,
                ).pos as int] && final(self).pos == old(self).pos + 1,
                Err(_) => old(self).pos == old(self).input@.len() && final(self).pos == old(
                    self,
                ).pos,
            },
    {
        if self.pos < self.input.len() {
            let c = self.input[self.pos];
            self.pos = self.pos + 1;
            Ok(c)
        } else {
            Err(ParseError)
        }
    }

    /// Consumes the given character, which must come next.
    pub fn expect(&mut self, c: char) -> (res: Result<(), ParseError>)
        requires
            old(self).wf(),
        ensures
            final(self).wf(),
            final(self).input == old(self).input,
            res is Ok <==> old(self).pos < old(self).input@.len() && old(self).input@[old(
                self,
            ).pos as int] == c,
            res is Ok ==> final(self).pos == old(self).pos + 1,
    {
        match self.consume_char() {
            Ok(found) => if found == c {
                Ok(())
            } else {
                Err(ParseError)
            },
            Err(e) => Err(e),
        }
    }

    /// Consumes the characters that belong to `class`, up to the first one
    /// that does not, and returns them.
    pub fn consume_while(&mut self, class: CharClass) -> (res: String)
        requires
            old(self).wf(),
        ensures
            final(self).wf(),
            final(self).input == old(self).input,
            final(self).pos == old(self).pos + run(old(self).input@, old(self).pos as int, class),
            res@ == old(self).input@.subrange(old(self).pos as int, final(self).pos as int),
    {
        let start: usize = self.pos;
        let n: usize = self.input.len();
        while self.pos < n && class.test(self.input[self.pos])
            invariant
                n == self.input@.len(),
                self.input == old(self).input,
                start == old(self).pos,
                start <= self.pos <= n,
                forall|k: int| start <= k < self.pos ==> class.holds(#[trigger] self.input@[k]),
            decreases n - self.pos,
        {
            self.pos = self.pos + 1;
        }
        proof {
            lemma_run_on(self.input@, start as int, self.pos as int, class);
        }
        string_of(&self.input, start, self.pos)
    }

    /// Consumes white space, if there is any.
    pub fn consume_whitespace(&mut self)
        requires
            old(self).wf(),
        ensures
            final(self).wf(),
            final(self).input == old(self).input,
            final(self).pos == past_space(old(self).input@, old(self).pos as int),
    {
        let n: usize = self.input.len();
        let ghost start = self.pos;
        while self.pos < n && CharClass::Whitespace.test(self.input[self.pos])
            invariant
                n == self.input@.len(),
                self.input == old(self).input,
                start == old(self).pos,
                start <= self.pos <= n,
                forall|k: int|
                    start <= k < self.pos ==> CharClass::Whitespace.holds(#[trigger] self.input@[k]),
            decreases n - self.pos,
        {
            self.pos = self.pos + 1;
        }
        proof {
            lemma_run_on(self.input@, start as int, self.pos as int, CharClass::Whitespace);
        }
    }
}

/// Reads a document and returns its root: the one node of the text, or an
/// element `html` around its nodes where there are none or several.
pub fn parse_html(source: String) -> (res: Result<Node, ParseError>)
    ensures
        match res {
            Ok(root) => document_of(source@) == Some(root@),
            Err(_) => document_of(source@) is None,
        },
{
    let mut parser = Parser::new(source.as_str());
    let mut nodes = parser.parse_nodes()?;
    if nodes.len() == 1 {
        let ghost only = nodes@[0];
        let root = nodes.pop().unwrap();
        assert(root == only);
        Ok(root)
    } else {
        let root = elem(String::from_str("html"), StrMap::new(), nodes);
        proof {
            lemma_node_view(root);
        }
        Ok(root)
    }
}

/// Reads a whole stylesheet.
pub fn parse_css(source: String) -> (res: Result<Stylesheet, ParseError>)
    ensures
        match res {
            Ok(stylesheet) => stylesheet_of(source@) == Some(stylesheet@),
            Err(_) => stylesheet_of(source@) is None,
        },
{
    let mut parser = Parser::new(source.as_str());
    let rules = parser.parse_rules()?;
    let stylesheet = Stylesheet { rules: rules };
    assert(stylesheet@ =~= rule_views(stylesheet.rules@));
    Ok(stylesheet)
}

} // verus!
