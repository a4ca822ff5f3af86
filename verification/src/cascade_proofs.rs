//! What the cascade guarantees: which declaration decides a property when
//! several rules that apply to an element set it.

use crate::css::{ranks_below, Declaration, Rule, Stylesheet, ValueView};
use crate::dom::{ElementData, Node};
use crate::style::{
    applied, cascade, cascade_order, declared, lemma_cascade_order_keeps, lemma_matched_entries,
    lemma_place_for, matched, place_for, rule_rank, MatchedRule, StyledNode,
};
use vstd::prelude::*;

verus! {

/// Whether the declarations of `a` are applied before those of `b`: `a`
/// ranks below `b`, or the two rank alike and `a` stands earlier in the
/// stylesheet.
pub open spec fn applies_before(a: MatchedRule, b: MatchedRule) -> bool {
    ranks_below(a.specificity, b.specificity) || (a.specificity == b.specificity && a.rule
        < b.rule)
}

/// The value that the first `upto` of the declarations `decls` leave under
/// `name`: that of the last of them with this name, if there is one.
pub open spec fn last_declared(decls: Seq<Declaration>, upto: int, name: Seq<char>) -> Option<
    ValueView,
>
    decreases upto,
{
    if upto <= 0 {
        None
    } else if decls[upto - 1].name@ == name {
        Some(decls[upto - 1].value@)
    } else {
        last_declared(decls, upto - 1, name)
    }
}

/// The value that a rule gives to the property `name`, if it sets it.
pub open spec fn rule_sets(rule: &Rule, name: Seq<char>) -> Option<ValueView> {
    last_declared(rule.declarations@, rule.declarations@.len() as int, name)
}

/// Matched rules that stand in stylesheet order come out of the sort with
/// each one applied before every one behind it.
pub proof fn lemma_cascade_order_sorted(rules: Seq<MatchedRule>)
    requires
        forall|i: int, j: int| 0 <= i < j < rules.len() ==> rules[i].rule < rules[j].rule,
    ensures
        forall|i: int, j: int|
            0 <= i < j < cascade_order(rules).len() ==> applies_before(
                cascade_order(rules)[i],
                cascade_order(rules)[j],
            ),
    decreases rules.len(),
{
    if rules.len() > 0 {
        let init = rules.drop_last();
        let x = rules.last();
        assert forall|i: int, j: int| 0 <= i < j < init.len() implies init[i].rule
            < init[j].rule by {
            assert(init[i] == rules[i] && init[j] == rules[j]);
        }
        lemma_cascade_order_sorted(init);
        lemma_cascade_order_keeps(init);
        let sorted = cascade_order(init);
        lemma_place_for(sorted, x);
        let k = place_for(sorted, x);
        let now = sorted.insert(k, x);
        assert forall|i: int| 0 <= i < sorted.len() implies (#[trigger] sorted[i]).rule
            < x.rule by {
            assert(sorted.contains(sorted[i]));
            assert(init.contains(sorted[i]));
            let at = choose|at: int| 0 <= at < init.len() && init[at] == sorted[i];
            assert(rules[at] == sorted[i]);
        }
        assert forall|i: int, j: int| 0 <= i < j < now.len() implies applies_before(
            now[i],
            now[j],
        ) by {
            if j < k {
                assert(now[i] == sorted[i] && now[j] == sorted[j]);
            } else if j == k {
                assert(now[i] == sorted[i]);
                assert(!ranks_below(x.specificity, sorted[k - 1].specificity));
                if i < k - 1 {
                    assert(applies_before(sorted[i], sorted[k - 1]));
                }
                assert(!ranks_below(x.specificity, sorted[i].specificity));
                assert(sorted[i].rule < x.rule);
            } else if i < k {
                assert(now[i] == sorted[i] && now[j] == sorted[j - 1]);
            } else if i == k {
                assert(now[j] == sorted[j - 1]);
            } else {
                assert(now[i] == sorted[i - 1] && now[j] == sorted[j - 1]);
            }
        }
    }
}

/// Putting declarations into a map leaves under each name the value of the
/// last declaration with that name, and what the map held where there is none.
pub proof fn lemma_declared(
    decls: Seq<Declaration>,
    upto: int,
    onto: Map<Seq<char>, ValueView>,
    name: Seq<char>,
)
    requires
        0 <= upto <= decls.len(),
    ensures
        match last_declared(decls, upto, name) {
            Some(v) => declared(decls, upto, onto).contains_key(name) && declared(
                decls,
                upto,
                onto,
            )[name] == v,
            None => declared(decls, upto, onto).contains_key(name) == onto.contains_key(name) && (
            onto.contains_key(name) ==> declared(decls, upto, onto)[name] == onto[name]),
        },
    decreases upto,
{
    if upto > 0 {
        lemma_declared(decls, upto - 1, onto, name);
    }
}

/// Where the rule at `at` in `order` sets `name` and no rule behind it among
/// the first `upto` does, the map holds that rule's value under `name`.
pub proof fn lemma_applied_last(
    rules: Seq<Rule>,
    order: Seq<MatchedRule>,
    upto: int,
    at: int,
    name: Seq<char>,
)
    requires
        0 <= at < upto <= order.len(),
        forall|i: int| 0 <= i < order.len() ==> (#[trigger] order[i]).rule < rules.len(),
        rule_sets(&rules[order[at].rule as int], name) is Some,
        forall|j: int| at < j < upto ==> rule_sets(&rules[(#[trigger] order[j]).rule as int], name) is None,
    ensures
        applied(rules, order, upto).contains_key(name),
        applied(rules, order, upto)[name] == rule_sets(&rules[order[at].rule as int], name)->Some_0,
    decreases upto,
{
    let decls = rules[order[upto - 1].rule as int].declarations@;
    let before = applied(rules, order, upto - 1);
    lemma_declared(decls, decls.len() as int, before, name);
    if at < upto - 1 {
        assert(rule_sets(&rules[order[upto - 1].rule as int], name) is None);
        lemma_applied_last(rules, order, upto - 1, at, name);
    }
}

/// The rule that decides a property. Where the rule at `winner` applies to
/// the element and sets `name`, and every other rule that applies and sets
/// `name` either ranks below it or ranks alike and stands earlier in the
/// stylesheet, the element's resolved value of `name` is the one that
/// `winner` gives it.
pub proof fn lemma_cascade_winner(
    elem: &ElementData,
    stylesheet: &Stylesheet,
    name: Seq<char>,
    winner: int,
)
    requires
        0 <= winner < stylesheet.rules@.len(),
        rule_rank(elem, &stylesheet.rules@[winner]) is Some,
        rule_sets(&stylesheet.rules@[winner], name) is Some,
        forall|r: int|
            0 <= r < stylesheet.rules@.len() && r != winner && (#[trigger] rule_rank(
                elem,
                &stylesheet.rules@[r],
            )) is Some && rule_sets(&stylesheet.rules@[r], name) is Some ==> applies_before(
                MatchedRule {
                    specificity: rule_rank(elem, &stylesheet.rules@[r])->Some_0,
                    rule: r as usize,
                },
                MatchedRule {
                    specificity: rule_rank(elem, &stylesheet.rules@[winner])->Some_0,
                    rule: winner as usize,
                },
            ),
    ensures
        cascade(elem, stylesheet).contains_key(name),
        cascade(elem, stylesheet)[name] == rule_sets(&stylesheet.rules@[winner], name)->Some_0,
{
    let rules = stylesheet.rules@;
    let total = rules.len() as int;
    assert(rules.len() <= usize::MAX) by {
        assert(stylesheet.rules.len() == rules.len());
    }
    let given = matched(elem, stylesheet);
    let order = cascade_order(given);
    let won = MatchedRule {
        specificity: rule_rank(elem, &rules[winner])->Some_0,
        rule: winner as usize,
    };
    lemma_matched_entries(elem, rules, total);
    lemma_cascade_order_keeps(given);
    lemma_cascade_order_sorted(given);
    assert(given.contains(won));
    assert(order.contains(won));
    let at = choose|at: int| 0 <= at < order.len() && order[at] == won;
    assert forall|i: int| 0 <= i < order.len() implies {
        &&& (#[trigger] order[i]).rule < rules.len()
        &&& rule_rank(elem, &rules[order[i].rule as int]) == Some(order[i].specificity)
    } by {
        assert(order.contains(order[i]));
        assert(given.contains(order[i]));
        let g = choose|g: int| 0 <= g < given.len() && given[g] == order[i];
        assert(given[g].rule < total);
    }
    assert forall|j: int| at < j < order.len() implies rule_sets(
        &rules[(#[trigger] order[j]).rule as int],
        name,
    ) is None by {
        let r = order[j].rule as int;
        assert(applies_before(order[at], order[j]));
        if rule_sets(&rules[r], name) is Some {
            assert(r != winner);
            assert(rule_rank(elem, &rules[r]) is Some);
            assert(applies_before(order[j], won));
        }
    }
    lemma_applied_last(rules, order, order.len() as int, at, name);
}

/// Between two rules of one rank the later one decides. Where two rules
/// apply to an element at the same rank and both set `name`, and no other
/// rule that applies sets it, the resolved value is the one given by the
/// rule that stands later in the stylesheet.
pub proof fn lemma_later_rule_wins(
    elem: &ElementData,
    stylesheet: &Stylesheet,
    name: Seq<char>,
    earlier: int,
    later: int,
)
    requires
        0 <= earlier < later < stylesheet.rules@.len(),
        rule_rank(elem, &stylesheet.rules@[earlier]) is Some,
        rule_rank(elem, &stylesheet.rules@[earlier]) == rule_rank(elem, &stylesheet.rules@[later]),
        rule_sets(&stylesheet.rules@[earlier], name) is Some,
        rule_sets(&stylesheet.rules@[later], name) is Some,
        forall|r: int|
            0 <= r < stylesheet.rules@.len() && r != earlier && r != later && (#[trigger] rule_rank(
                elem,
                &stylesheet.rules@[r],
            )) is Some ==> rule_sets(&stylesheet.rules@[r], name) is None,
    ensures
        cascade(elem, stylesheet).contains_key(name),
        cascade(elem, stylesheet)[name] == rule_sets(&stylesheet.rules@[later], name)->Some_0,
{
    assert(stylesheet.rules.len() == stylesheet.rules@.len());
    lemma_cascade_winner(elem, stylesheet, name, later);
}

/// Between two rules of different rank the higher one decides, wherever the
/// two stand. Where two rules apply to an element and both set `name`, one
/// ranking below the other, and no other rule that applies sets it, the
/// resolved value is the one given by the rule of higher rank.
pub proof fn lemma_higher_rank_wins(
    elem: &ElementData,
    stylesheet: &Stylesheet,
    name: Seq<char>,
    lower: int,
    higher: int,
)
    requires
        0 <= lower < stylesheet.rules@.len(),
        0 <= higher < stylesheet.rules@.len(),
        rule_rank(elem, &stylesheet.rules@[lower]) is Some,
        rule_rank(elem, &stylesheet.rules@[higher]) is Some,
        ranks_below(
            rule_rank(elem, &stylesheet.rules@[lower])->Some_0,
            rule_rank(elem, &stylesheet.rules@[higher])->Some_0,
        ),
        rule_sets(&stylesheet.rules@[lower], name) is Some,
        rule_sets(&stylesheet.rules@[higher], name) is Some,
        forall|r: int|
            0 <= r < stylesheet.rules@.len() && r != lower && r != higher && (#[trigger] rule_rank(
                elem,
                &stylesheet.rules@[r],
            )) is Some ==> rule_sets(&stylesheet.rules@[r], name) is None,
    ensures
        cascade(elem, stylesheet).contains_key(name),
        cascade(elem, stylesheet)[name] == rule_sets(&stylesheet.rules@[higher], name)->Some_0,
{
    assert(stylesheet.rules.len() == stylesheet.rules@.len());
    lemma_cascade_winner(elem, stylesheet, name, higher);
}

/// With none of the first `upto` rules of `order` setting `name`, the map
/// holds nothing under it.
pub proof fn lemma_applied_unset(
    rules: Seq<Rule>,
    order: Seq<MatchedRule>,
    upto: int,
    name: Seq<char>,
)
    requires
        0 <= upto <= order.len(),
        forall|i: int| 0 <= i < order.len() ==> (#[trigger] order[i]).rule < rules.len(),
        forall|j: int| 0 <= j < upto ==> rule_sets(&rules[(#[trigger] order[j]).rule as int], name) is None,
    ensures
        !applied(rules, order, upto).contains_key(name),
    decreases upto,
{
    if upto > 0 {
        let decls = rules[order[upto - 1].rule as int].declarations@;
        lemma_applied_unset(rules, order, upto - 1, name);
        assert(rule_sets(&rules[order[upto - 1].rule as int], name) is None);
        lemma_declared(decls, decls.len() as int, applied(rules, order, upto - 1), name);
    }
}

/// A property that no applying rule sets is absent. Where none of the
/// rules that apply to the element sets `name`, the element has no
/// resolved value for it; an element to which no rule applies has no
/// resolved values at all.
pub proof fn lemma_cascade_unset(elem: &ElementData, stylesheet: &Stylesheet, name: Seq<char>)
    requires
        forall|r: int|
            0 <= r < stylesheet.rules@.len() && (#[trigger] rule_rank(
                elem,
                &stylesheet.rules@[r],
            )) is Some ==> rule_sets(&stylesheet.rules@[r], name) is None,
    ensures
        !cascade(elem, stylesheet).contains_key(name),
{
    let rules = stylesheet.rules@;
    assert(rules.len() <= usize::MAX) by {
        assert(stylesheet.rules.len() == rules.len());
    }
    let given = matched(elem, stylesheet);
    let order = cascade_order(given);
    lemma_matched_entries(elem, rules, rules.len() as int);
    lemma_cascade_order_keeps(given);
    assert forall|i: int| 0 <= i < order.len() implies {
        &&& (#[trigger] order[i]).rule < rules.len()
        &&& rule_sets(&rules[order[i].rule as int], name) is None
    } by {
        assert(order.contains(order[i]));
        assert(given.contains(order[i]));
        let g = choose|g: int| 0 <= g < given.len() && given[g] == order[i];
        assert(given[g].rule < rules.len());
        assert(rule_rank(elem, &rules[given[g].rule as int]) is Some);
    }
    lemma_applied_unset(rules, order, order.len() as int, name);
}

/// The number of nodes below a document node among its first `upto`
/// children: those children and everything below them.
pub open spec fn nodes_below(node: &Node, upto: int) -> int
    decreases node, upto,
{
    if upto <= 0 || upto > node.children@.len() {
        0
    } else {
        let child = &node.children@[upto - 1];
        nodes_below(node, upto - 1) + 1 + nodes_below(child, child.children@.len() as int)
    }
}

/// The number of nodes below a styled node among its first `upto` children.
pub open spec fn styled_below(node: &StyledNode, upto: int) -> int
    decreases node, upto,
{
    if upto <= 0 || upto > node.children@.len() {
        0
    } else {
        let child = &node.children@[upto - 1];
        styled_below(node, upto - 1) + 1 + styled_below(child, child.children@.len() as int)
    }
}

/// The styled tree has a node for each node of the document, and no other:
/// below the styling of a node there are as many nodes as below the node.
pub proof fn lemma_styled_node_count(
    styled: &StyledNode,
    root: &Node,
    stylesheet: &Stylesheet,
    upto: int,
)
    requires
        styled.styles(root, stylesheet),
        0 <= upto <= root.children@.len(),
    ensures
        styled_below(styled, upto) == nodes_below(root, upto),
    decreases styled, upto,
{
    if upto > 0 {
        lemma_styled_node_count(styled, root, stylesheet, upto - 1);
        let child = &styled.children@[upto - 1];
        let under = &root.children@[upto - 1];
        assert(child.styles(under, stylesheet));
        lemma_styled_node_count(child, under, stylesheet, under.children@.len() as int);
    }
}

} // verus!
