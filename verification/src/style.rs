//! The cascade: which rules of a stylesheet apply to an element, in what
//! order, and the property map that results for each node of a document.

use crate::css::{
    is_ranked_below, ranks_below, Declaration, Rule, Selector, SimpleSelector, Specificity,
    Stylesheet, Value, ValueView,
};
use crate::dom::{contains_name, views_of, ElementData, Node, NodeType};
use crate::strmap::StrMap;
use vstd::prelude::*;

verus! {

/// The resolved properties of a node, by property name.
pub type PropertyMap = StrMap<Value>;

/// A rule that applies to an element, with the rank it applies at.
#[derive(Debug, Clone, Copy, PartialEq, Eq)]
pub struct MatchedRule {
    /// The specificity of the first selector of the rule that matches.
    pub specificity: Specificity,
    /// The position of the rule in its stylesheet.
    pub rule: usize,
}

/// How a node takes part in layout.
#[derive(Debug, Clone, Copy, PartialEq, Eq, Structural)]
pub enum Display {
    Inline,
    Block,
    DisplayNone,
}

/// Whether the element satisfies every constraint that the selector names.
pub open spec fn simple_selector_matches(elem: &ElementData, selector: &SimpleSelector) -> bool {
    &&& selector.tag_name matches Some(name) ==> elem.tag_name@ == name@
    &&& selector.id matches Some(id) ==> elem.attributes@.contains_key("id"@)
        && elem.attributes@["id"@] == id@
    &&& forall|k: int|
        0 <= k < selector.class@.len() ==> elem.class_names().contains(
            #[trigger] selector.class@[k]@,
        )
}

/// Whether the element satisfies the selector.
pub open spec fn selector_matches(elem: &ElementData, selector: &Selector) -> bool {
    match *selector {
        Selector::Simple(simple) => simple_selector_matches(elem, &simple),
    }
}

/// Tests an element against a selector.
pub fn matches(elem: &ElementData, selector: &Selector) -> (res: bool)
    ensures
        res == selector_matches(elem, selector),
{
    match selector {
        Selector::Simple(simple_selector) => matches_simple_selector(elem, simple_selector),
    }
}

/// Tests an element against a simple selector: its tag name, its id and each
/// of its classes, as far as the selector names them.
pub fn matches_simple_selector(elem: &ElementData, selector: &SimpleSelector) -> (res: bool)
    ensures
        res == simple_selector_matches(elem, selector),
{
    match &selector.tag_name {
        Some(name) => {
            if elem.tag_name != *name {
                return false;
            }
        },
        None => {},
    }
    match &selector.id {
        Some(id) => {
            match elem.id() {
                Some(own) => {
                    if *own != *id {
                        return false;
                    }
                },
                None => {
                    return false;
                },
            }
        },
        None => {},
    }
    let elem_classes = elem.classes();
    let n: usize = selector.class.len();
    let mut k: usize = 0;
    while k < n
        invariant
            n == selector.class@.len(),
            k <= n,
            forall|w: Seq<char>|
                views_of(elem_classes@).contains(w) <==> elem.class_names().contains(w),
            forall|j: int|
                0 <= j < k ==> elem.class_names().contains(#[trigger] selector.class@[j]@),
        decreases n - k,
    {
        if !contains_name(&elem_classes, &selector.class[k]) {
            return false;
        }
        k = k + 1;
    }
    true
}

/// The position of the first selector from `from` on that the element
/// satisfies, if there is one.
pub open spec fn first_match(elem: &ElementData, selectors: Seq<Selector>, from: int) -> Option<int>
    decreases selectors.len() - from,
{
    if from < 0 || from >= selectors.len() {
        None
    } else if selector_matches(elem, &selectors[from]) {
        Some(from)
    } else {
        first_match(elem, selectors, from + 1)
    }
}

/// The rank at which a rule applies to an element: the specificity of the
/// first of its selectors, in the order given, that the element satisfies.
/// A rule none of whose selectors is satisfied does not apply.
pub open spec fn rule_rank(elem: &ElementData, rule: &Rule) -> Option<Specificity> {
    match first_match(elem, rule.selectors@, 0) {
        Some(i) => Some(rule.selectors@[i].spec_specificity()),
        None => None,
    }
}

/// The rank at which `rule` applies to `elem`, or `None` where it does not apply.
pub fn match_rule(elem: &ElementData, rule: &Rule) -> (res: Option<Specificity>)
    ensures
        res == rule_rank(elem, rule),
{
    let n: usize = rule.selectors.len();
    let mut i: usize = 0;
    while i < n
        invariant
            n == rule.selectors@.len(),
            i <= n,
            first_match(elem, rule.selectors@, 0) == first_match(elem, rule.selectors@, i as int),
        decreases n - i,
    {
        if matches(elem, &rule.selectors[i]) {
            return Some(rule.selectors[i].specificity());
        }
        i = i + 1;
    }
    None
}

/// The rules among the first `upto` of `rules` that apply to `elem`, each
/// with its rank, in stylesheet order.
pub open spec fn matched_upto(elem: &ElementData, rules: Seq<Rule>, upto: int) -> Seq<MatchedRule>
    decreases upto,
{
    if upto <= 0 {
        Seq::empty()
    } else {
        let before = matched_upto(elem, rules, upto - 1);
        match rule_rank(elem, &rules[upto - 1]) {
            Some(specificity) => before.push(
                MatchedRule { specificity, rule: (upto - 1) as usize },
            ),
            None => before,
        }
    }
}

/// The rules of `stylesheet` that apply to `elem`, in stylesheet order.
pub open spec fn matched(elem: &ElementData, stylesheet: &Stylesheet) -> Seq<MatchedRule> {
    matched_upto(elem, stylesheet.rules@, stylesheet.rules@.len() as int)
}

/// Finds every rule of the stylesheet that applies to the element.
pub fn matching_rules(elem: &ElementData, stylesheet: &Stylesheet) -> (res: Vec<MatchedRule>)
    ensures
        res@ == matched(elem, stylesheet),
{
    let n: usize = stylesheet.rules.len();
    let mut found: Vec<MatchedRule> = Vec::new();
    let mut i: usize = 0;
    while i < n
        invariant
            n == stylesheet.rules@.len(),
            i <= n,
            found@ == matched_upto(elem, stylesheet.rules@, i as int),
        decreases n - i,
    {
        match match_rule(elem, &stylesheet.rules[i]) {
            Some(specificity) => {
                found.push(MatchedRule { specificity, rule: i });
            },
            None => {},
        }
        i = i + 1;
    }
    found
}

/// Where `x` goes into `sorted`: behind every entry that does not rank
/// above it, and so behind every entry of its own rank.
pub open spec fn place_for(sorted: Seq<MatchedRule>, x: MatchedRule) -> int
    decreases sorted.len(),
{
    if sorted.len() == 0 || !ranks_below(x.specificity, sorted.last().specificity) {
        sorted.len() as int
    } else {
        place_for(sorted.drop_last(), x)
    }
}

/// The matched rules in the order in which they are applied: by rank, lowest
/// first, and rules of one rank in the order in which they were given.
pub open spec fn cascade_order(rules: Seq<MatchedRule>) -> Seq<MatchedRule>
    decreases rules.len(),
{
    if rules.len() == 0 {
        Seq::empty()
    } else {
        let sorted = cascade_order(rules.drop_last());
        sorted.insert(place_for(sorted, rules.last()), rules.last())
    }
}

/// What `place_for` picks: every entry from there on ranks above `x`, and
/// the entry before it, if any, does not.
pub proof fn lemma_place_for(sorted: Seq<MatchedRule>, x: MatchedRule)
    ensures
        0 <= place_for(sorted, x) <= sorted.len(),
        forall|j: int|
            place_for(sorted, x) <= j < sorted.len() ==> ranks_below(
                x.specificity,
                (#[trigger] sorted[j]).specificity,
            ),
        place_for(sorted, x) > 0 ==> !ranks_below(
            x.specificity,
            sorted[place_for(sorted, x) - 1].specificity,
        ),
    decreases sorted.len(),
{
    if sorted.len() > 0 && ranks_below(x.specificity, sorted.last().specificity) {
        let init = sorted.drop_last();
        lemma_place_for(init, x);
        assert forall|j: int| place_for(sorted, x) <= j < sorted.len() implies ranks_below(
            x.specificity,
            (#[trigger] sorted[j]).specificity,
        ) by {
            if j < init.len() {
                assert(init[j] == sorted[j]);
            }
        }
        if place_for(sorted, x) > 0 {
            assert(init[place_for(sorted, x) - 1] == sorted[place_for(sorted, x) - 1]);
        }
    }
}

/// A position with the two properties of `place_for` is that place.
proof fn lemma_place_found(sorted: Seq<MatchedRule>, x: MatchedRule, k: int)
    requires
        0 <= k <= sorted.len(),
        forall|j: int|
            k <= j < sorted.len() ==> ranks_below(x.specificity, (#[trigger] sorted[j]).specificity),
        k > 0 ==> !ranks_below(x.specificity, sorted[k - 1].specificity),
    ensures
        place_for(sorted, x) == k,
    decreases sorted.len(),
{
    if k < sorted.len() {
        assert(ranks_below(x.specificity, sorted[sorted.len() - 1].specificity));
        lemma_place_found(sorted.drop_last(), x, k);
    }
}

/// Puts matched rules into the order of the cascade: a stable sort by rank,
/// lowest first.
pub fn cascade_sort(rules: Vec<MatchedRule>) -> (res: Vec<MatchedRule>)
    ensures
        res@ == cascade_order(rules@),
{
    let n: usize = rules.len();
    let mut sorted: Vec<MatchedRule> = Vec::new();
    let mut i: usize = 0;
    assert(rules@.take(0) =~= Seq::<MatchedRule>::empty());
    while i < n
        invariant
            n == rules@.len(),
            i <= n,
            sorted@ == cascade_order(rules@.take(i as int)),
            sorted@.len() == i,
        decreases n - i,
    {
        let x = rules[i];
        let mut k: usize = sorted.len();
        while k > 0 && is_ranked_below(x.specificity, sorted[k - 1].specificity)
            invariant
                k <= sorted@.len(),
                forall|j: int|
                    k <= j < sorted@.len() ==> ranks_below(
                        x.specificity,
                        (#[trigger] sorted@[j]).specificity,
                    ),
            decreases k,
        {
            k = k - 1;
        }
        proof {
            lemma_place_found(sorted@, x, k as int);
            assert(rules@.take(i as int + 1).drop_last() =~= rules@.take(i as int));
            assert(rules@.take(i as int + 1).last() == x);
        }
        sorted.insert(k, x);
        i = i + 1;
    }
    assert(rules@.take(n as int) =~= rules@);
    sorted
}

/// The map `onto` after the first `upto` of the declarations `decls` were
/// put into it one by one, each over what was there under its name.
pub open spec fn declared(
    decls: Seq<Declaration>,
    upto: int,
    onto: Map<Seq<char>, ValueView>,
) -> Map<Seq<char>, ValueView>
    decreases upto,
{
    if upto <= 0 {
        onto
    } else {
        declared(decls, upto - 1, onto).insert(decls[upto - 1].name@, decls[upto - 1].value@)
    }
}

/// The property map after the declarations of the first `upto` rules of
/// `order` were put into an empty map, rule by rule.
pub open spec fn applied(rules: Seq<Rule>, order: Seq<MatchedRule>, upto: int) -> Map<
    Seq<char>,
    ValueView,
>
    decreases upto,
{
    if upto <= 0 {
        Map::empty()
    } else {
        let decls = rules[order[upto - 1].rule as int].declarations@;
        declared(decls, decls.len() as int, applied(rules, order, upto - 1))
    }
}

/// The resolved properties of an element under a stylesheet: the
/// declarations of the rules that apply to it, put into an empty map in the
/// order of the cascade.
pub open spec fn cascade(elem: &ElementData, stylesheet: &Stylesheet) -> Map<Seq<char>, ValueView> {
    let order = cascade_order(matched(elem, stylesheet));
    applied(stylesheet.rules@, order, order.len() as int)
}

/// Every entry of `matched_upto` names one of the first `upto` rules, with
/// the rank at which that rule applies, and the entries stand in stylesheet
/// order.
pub proof fn lemma_matched_entries(elem: &ElementData, rules: Seq<Rule>, upto: int)
    requires
        0 <= upto <= rules.len(),
        rules.len() <= usize::MAX,
    ensures
        forall|i: int|
            0 <= i < matched_upto(elem, rules, upto).len() ==> {
                let m = #[trigger] matched_upto(elem, rules, upto)[i];
                0 <= m.rule < upto && rule_rank(elem, &rules[m.rule as int]) == Some(m.specificity)
            },
        forall|i: int, j: int|
            0 <= i < j < matched_upto(elem, rules, upto).len() ==> matched_upto(
                elem,
                rules,
                upto,
            )[i].rule < matched_upto(elem, rules, upto)[j].rule,
        forall|r: int|
            0 <= r < upto && rule_rank(elem, &rules[r]) is Some ==> matched_upto(
                elem,
                rules,
                upto,
            ).contains(
                MatchedRule { specificity: rule_rank(elem, &rules[r])->Some_0, rule: r as usize },
            ),
    decreases upto,
{
    if upto > 0 {
        lemma_matched_entries(elem, rules, upto - 1);
        let before = matched_upto(elem, rules, upto - 1);
        let now = matched_upto(elem, rules, upto);
        assert forall|r: int| 0 <= r < upto && rule_rank(elem, &rules[r]) is Some implies now.contains(
            MatchedRule { specificity: rule_rank(elem, &rules[r])->Some_0, rule: r as usize },
        ) by {
            let m = MatchedRule { specificity: rule_rank(elem, &rules[r])->Some_0, rule: r as usize };
            if r < upto - 1 {
                assert(before.contains(m));
                let i = choose|i: int| 0 <= i < before.len() && before[i] == m;
                assert(now[i] == m);
            } else {
                assert(now[now.len() - 1] == m);
            }
        }
    }
}

/// A sequence with `x` put in at `k` holds `x` and what it held before.
proof fn lemma_insert_members(s: Seq<MatchedRule>, k: int, x: MatchedRule, y: MatchedRule)
    requires
        0 <= k <= s.len(),
    ensures
        s.insert(k, x).contains(y) <==> (y == x || s.contains(y)),
{
    let now = s.insert(k, x);
    if now.contains(y) {
        let i = choose|i: int| 0 <= i < now.len() && now[i] == y;
        if i < k {
            assert(s[i] == y);
        } else if i > k {
            assert(s[i - 1] == y);
        }
    }
    if s.contains(y) {
        let i = choose|i: int| 0 <= i < s.len() && s[i] == y;
        if i < k {
            assert(now[i] == y);
        } else {
            assert(now[i + 1] == y);
        }
    }
    if y == x {
        assert(now[k] == y);
    }
}

/// A sequence holds its last entry and what the rest of it holds.
proof fn lemma_last_members(s: Seq<MatchedRule>, y: MatchedRule)
    requires
        s.len() > 0,
    ensures
        s.contains(y) <==> (y == s.last() || s.drop_last().contains(y)),
{
    let init = s.drop_last();
    if s.contains(y) {
        let i = choose|i: int| 0 <= i < s.len() && s[i] == y;
        if i < init.len() {
            assert(init[i] == y);
        }
    }
    if init.contains(y) {
        let i = choose|i: int| 0 <= i < init.len() && init[i] == y;
        assert(s[i] == y);
    }
    if y == s.last() {
        assert(s[s.len() - 1] == y);
    }
}

/// Sorting keeps the entries: the order of the cascade holds what was
/// given, and nothing else.
pub proof fn lemma_cascade_order_keeps(rules: Seq<MatchedRule>)
    ensures
        cascade_order(rules).len() == rules.len(),
        forall|x: MatchedRule| cascade_order(rules).contains(x) <==> rules.contains(x),
    decreases rules.len(),
{
    if rules.len() > 0 {
        let init = rules.drop_last();
        let x = rules.last();
        lemma_cascade_order_keeps(init);
        let sorted = cascade_order(init);
        lemma_place_for(sorted, x);
        let k = place_for(sorted, x);
        assert forall|y: MatchedRule| cascade_order(rules).contains(y) <==> rules.contains(y) by {
            lemma_insert_members(sorted, k, x, y);
            lemma_last_members(rules, y);
        }
    }
}

/// Resolves the properties of one element: finds the rules that apply, puts
/// them into the order of the cascade and takes their declarations one by
/// one, a later one replacing an earlier one of the same name.
pub fn specified_values(elem: &ElementData, stylesheet: &Stylesheet) -> (res: PropertyMap)
    ensures
        res@ == cascade(elem, stylesheet),
{
    let mut values: PropertyMap = StrMap::new();
    let found = matching_rules(elem, stylesheet);
    let rules = cascade_sort(found);
    let n: usize = rules.len();
    let total: usize = stylesheet.rules.len();
    proof {
        lemma_matched_entries(elem, stylesheet.rules@, total as int);
        lemma_cascade_order_keeps(matched(elem, stylesheet));
        assert forall|j: int| 0 <= j < n implies (#[trigger] rules@[j]).rule < total by {
            let given = matched(elem, stylesheet);
            assert(rules@ == cascade_order(given));
            assert(cascade_order(given).contains(rules@[j]));
            assert(given.contains(rules@[j]));
            let found_at = choose|i: int| 0 <= i < given.len() && given[i] == rules@[j];
            assert(given[found_at].rule < total);
        }
    }
    let mut i: usize = 0;
    while i < n
        invariant
            n == rules@.len(),
            i <= n,
            rules@ == cascade_order(matched(elem, stylesheet)),
            forall|j: int| 0 <= j < n ==> (#[trigger] rules@[j]).rule < stylesheet.rules@.len(),
            values@ == applied(stylesheet.rules@, rules@, i as int),
        decreases n - i,
    {
        assert(rules@[i as int].rule < stylesheet.rules@.len());
        let rule = &stylesheet.rules[rules[i].rule];
        let m: usize = rule.declarations.len();
        let mut d: usize = 0;
        while d < m
            invariant
                m == rule.declarations@.len(),
                d <= m,
                values@ == declared(
                    rule.declarations@,
                    d as int,
                    applied(stylesheet.rules@, rules@, i as int),
                ),
            decreases m - d,
        {
            let declaration = &rule.declarations[d];
            values.insert(declaration.name.clone(), declaration.value.clone());
            d = d + 1;
        }
        i = i + 1;
    }
    values
}

/// A node of the document together with its resolved properties, and the
/// styled nodes of its children in document order.
#[derive(Debug)]
pub struct StyledNode<'a> {
    /// The document node that this node styles.
    pub node: &'a Node,
    /// The resolved properties of the node.
    pub specified_values: PropertyMap,
    /// The styled children, in document order.
    pub children: Vec<StyledNode<'a>>,
}

/// The value under `name`, else the value under `fallback_name`, else `default`.
pub open spec fn lookup_of(
    values: Map<Seq<char>, ValueView>,
    name: Seq<char>,
    fallback_name: Seq<char>,
    default: ValueView,
) -> ValueView {
    if values.contains_key(name) {
        values[name]
    } else if values.contains_key(fallback_name) {
        values[fallback_name]
    } else {
        default
    }
}

/// What the property `display` says: block for the keyword `block`, none
/// for the keyword `none`, and inline for anything else or nothing at all.
pub open spec fn display_of(values: Map<Seq<char>, ValueView>) -> Display {
    if values.contains_key("display"@) && values["display"@].is_keyword("block"@) {
        Display::Block
    } else if values.contains_key("display"@) && values["display"@].is_keyword("none"@) {
        Display::DisplayNone
    } else {
        Display::Inline
    }
}

/// The resolved properties of a node: the cascade for an element, nothing
/// for text.
pub open spec fn node_values(node: &Node, stylesheet: &Stylesheet) -> Map<Seq<char>, ValueView> {
    match node.node_type {
        NodeType::Element(elem) => cascade(&elem, stylesheet),
        NodeType::Text(_) => Map::empty(),
    }
}

impl<'a> StyledNode<'a> {
    /// The resolved properties, by name.
    pub open spec fn values(&self) -> Map<Seq<char>, ValueView> {
        self.specified_values@
    }

    /// How the node takes part in layout.
    pub open spec fn display_spec(&self) -> Display {
        display_of(self.values())
    }

    /// Whether this tree is the styling of the document tree at `root`
    /// under `stylesheet`: node for node the same tree, each node with the
    /// properties that the stylesheet resolves to for it.
    pub open spec fn styles(&self, root: &Node, stylesheet: &Stylesheet) -> bool
        decreases self,
    {
        &&& self.node == root
        &&& self.values() == node_values(root, stylesheet)
        &&& self.children@.len() == root.children@.len()
        &&& forall|i: int|
            0 <= i < self.children@.len() ==> (#[trigger] self.children@[i]).styles(
                &root.children@[i],
                stylesheet,
            )
    }

    /// The value of the property `name`, if the node has one.
    pub fn value(&self, name: &str) -> (res: Option<Value>)
        ensures
            match res {
                Some(v) => self.values().contains_key(name@) && self.values()[name@] == v@,
                None => !self.values().contains_key(name@),
            },
    {
        match self.specified_values.get(name) {
            Some(v) => Some(v.clone()),
            None => None,
        }
    }

    /// The value of the property `name`, or of `fallback_name` where the
    /// node has no `name`, or `default` where it has neither.
    pub fn lookup(&self, name: &str, fallback_name: &str, default: &Value) -> (res: Value)
        ensures
            res@ == lookup_of(self.values(), name@, fallback_name@, default@),
    {
        match self.value(name) {
            Some(v) => v,
            None => match self.value(fallback_name) {
                Some(v) => v,
                None => default.clone(),
            },
        }
    }

    /// The value of the `display` property, which is inline unless the
    /// property is one of the keywords `block` and `none`.
    pub fn display(&self) -> (res: Display)
        ensures
            res == self.display_spec(),
    {
        match self.value("display") {
            Some(v) => {
                if v.is_keyword("block") {
                    Display::Block
                } else if v.is_keyword("none") {
                    Display::DisplayNone
                } else {
                    Display::Inline
                }
            },
            None => Display::Inline,
        }
    }
}

/// Styles a whole document: every node of the tree at `root` gets its
/// resolved properties, and the styled tree has the shape of the document.
pub fn style_tree<'a>(root: &'a Node, stylesheet: &'a Stylesheet) -> (res: StyledNode<'a>)
    ensures
        res.styles(root, stylesheet),
    decreases root,
{
    let specified_values = match &root.node_type {
        NodeType::Element(elem) => specified_values(elem, stylesheet),
        NodeType::Text(_) => StrMap::new(),
    };
    let n: usize = root.children.len();
    let mut children: Vec<StyledNode<'a>> = Vec::new();
    let mut i: usize = 0;
    while i < n
        invariant
            n == root.children@.len(),
            i <= n,
            children@.len() == i,
            forall|j: int|
                0 <= j < i ==> (#[trigger] children@[j]).styles(&root.children@[j], stylesheet),
        decreases n - i,
    {
        let child = style_tree(&root.children[i], stylesheet);
        children.push(child);
        i = i + 1;
    }
    StyledNode { node: root, specified_values, children }
}

} // verus!
