//! The grammar of stylesheets, and the part of the parser that reads them.
//!
//! A stylesheet is a list of rules. A rule is a list of selectors between
//! commas and, in braces, a list of declarations, each a name, a colon, a
//! value and a semicolon. White space may stand between these.

use crate::css::{
    is_ranked_below, ranks_below, Declaration, DeclarationView, Rule, RuleView, Selector,
    SelectorView, SimpleSelector, Specificity, Unit, Value, ValueView,
};
use crate::parser::{
    is_digit, is_identifier_char, lemma_run_on, lemma_run_within, past_space, run_end,
    valid_identifier_char, CharClass, ParseError, Parser,
};
use vstd::prelude::*;

verus! {

/// The identifier that starts at `from`, which is empty where no character
/// of an identifier stands there.
pub open spec fn identifier_at(s: Seq<char>, from: int) -> Seq<char> {
    s.subrange(from, run_end(s, from, CharClass::Identifier))
}

/// The simple selector that starts at `pos`, read onto what `sel` names
/// already, and where it ends. A `#` with an identifier names the id, a
/// `.` with an identifier one more class, an identifier alone the tag, and
/// a `*` nothing; a later id or tag replaces an earlier one.
pub open spec fn simple_selector_from(s: Seq<char>, pos: int, sel: SelectorView) -> (
    SelectorView,
    int,
)
    decreases s.len() - pos,
{
    if pos < 0 || pos >= s.len() {
        (sel, pos)
    } else if s[pos] == '#' {
        proof {
            lemma_run_within(s, pos + 1, CharClass::Identifier);
        }
        simple_selector_from(
            s,
            run_end(s, pos + 1, CharClass::Identifier),
            SelectorView { id: Some(identifier_at(s, pos + 1)), ..sel },
        )
    } else if s[pos] == '.' {
        proof {
            lemma_run_within(s, pos + 1, CharClass::Identifier);
        }
        simple_selector_from(
            s,
            run_end(s, pos + 1, CharClass::Identifier),
            SelectorView { class: sel.class.push(identifier_at(s, pos + 1)), ..sel },
        )
    } else if s[pos] == '*' {
        simple_selector_from(s, pos + 1, sel)
    } else if is_identifier_char(s[pos]) {
        proof {
            lemma_run_within(s, pos + 1, CharClass::Identifier);
        }
        simple_selector_from(
            s,
            run_end(s, pos + 1, CharClass::Identifier),
            SelectorView { tag_name: Some(identifier_at(s, pos)), ..sel },
        )
    } else {
        (sel, pos)
    }
}

/// A simple selector ends behind its start and inside the text.
pub proof fn lemma_simple_selector_bounds(s: Seq<char>, pos: int, sel: SelectorView)
    requires
        0 <= pos <= s.len(),
    ensures
        pos <= simple_selector_from(s, pos, sel).1 <= s.len(),
    decreases s.len() - pos,
{
    if pos < s.len() {
        lemma_run_within(s, pos + 1, CharClass::Identifier);
        if s[pos] == '#' {
            lemma_simple_selector_bounds(
                s,
                run_end(s, pos + 1, CharClass::Identifier),
                SelectorView { id: Some(identifier_at(s, pos + 1)), ..sel },
            );
        } else if s[pos] == '.' {
            lemma_simple_selector_bounds(
                s,
                run_end(s, pos + 1, CharClass::Identifier),
                SelectorView { class: sel.class.push(identifier_at(s, pos + 1)), ..sel },
            );
        } else if s[pos] == '*' {
            lemma_simple_selector_bounds(s, pos + 1, sel);
        } else if is_identifier_char(s[pos]) {
            lemma_simple_selector_bounds(
                s,
                run_end(s, pos + 1, CharClass::Identifier),
                SelectorView { tag_name: Some(identifier_at(s, pos)), ..sel },
            );
        }
    }
}

/// How many of the first entries of `sorted` outrank `x`.
pub open spec fn selector_place(sorted: Seq<SelectorView>, x: SelectorView) -> int
    decreases sorted.len(),
{
    if sorted.len() > 0 && ranks_below(x.specificity(), sorted.first().specificity()) {
        1 + selector_place(sorted.drop_first(), x)
    } else {
        0
    }
}

/// The selectors by specificity, highest first, and selectors of one
/// specificity in the order in which they were given.
pub open spec fn selector_order(selectors: Seq<SelectorView>) -> Seq<SelectorView>
    decreases selectors.len(),
{
    if selectors.len() == 0 {
        Seq::empty()
    } else {
        let rest = selector_order(selectors.drop_first());
        rest.insert(selector_place(rest, selectors.first()), selectors.first())
    }
}

/// The selectors of `selectors` that have the specificity `rank`, in
/// their order.
pub open spec fn of_rank(selectors: Seq<SelectorView>, rank: Specificity) -> Seq<SelectorView>
    decreases selectors.len(),
{
    if selectors.len() == 0 {
        Seq::empty()
    } else if selectors.first().specificity() == rank {
        seq![selectors.first()] + of_rank(selectors.drop_first(), rank)
    } else {
        of_rank(selectors.drop_first(), rank)
    }
}

/// What `selector_place` picks: every entry before it outranks `x`, and
/// the entry at it, if any, does not.
pub proof fn lemma_selector_place(sorted: Seq<SelectorView>, x: SelectorView)
    ensures
        0 <= selector_place(sorted, x) <= sorted.len(),
        forall|j: int|
            0 <= j < selector_place(sorted, x) ==> ranks_below(
                x.specificity(),
                (#[trigger] sorted[j]).specificity(),
            ),
        selector_place(sorted, x) < sorted.len() ==> !ranks_below(
            x.specificity(),
            sorted[selector_place(sorted, x)].specificity(),
        ),
    decreases sorted.len(),
{
    if sorted.len() > 0 && ranks_below(x.specificity(), sorted.first().specificity()) {
        let rest = sorted.drop_first();
        lemma_selector_place(rest, x);
        assert forall|j: int| 0 <= j < selector_place(sorted, x) implies ranks_below(
            x.specificity(),
            (#[trigger] sorted[j]).specificity(),
        ) by {
            if j > 0 {
                assert(rest[j - 1] == sorted[j]);
            }
        }
        if selector_place(sorted, x) < sorted.len() {
            assert(rest[selector_place(rest, x)] == sorted[selector_place(sorted, x)]);
        }
    }
}

/// A list with `x` put in at `k` holds `x` and what it held before.
proof fn lemma_selector_insert_members(s: Seq<SelectorView>, k: int, x: SelectorView, y: SelectorView)
    requires
        0 <= k <= s.len(),
    ensures
        s.insert(k, x).contains(y) <==> (y == x || s.contains(y)),
{
    let now = s.insert(k, x);
    if now.contains(y) {
        let i = choose|i: int| 0 <= i < now.len() && now[i] == y;
        if i < k {
            assert(s[i] == y);
        } else if i > k {
            assert(s[i - 1] == y);
        }
    }
    if s.contains(y) {
        let i = choose|i: int| 0 <= i < s.len() && s[i] == y;
        if i < k {
            assert(now[i] == y);
        } else {
            assert(now[i + 1] == y);
        }
    }
    if y == x {
        assert(now[k] == y);
    }
}

/// A list holds its first entry and what the rest of it holds.
proof fn lemma_selector_first_members(s: Seq<SelectorView>, y: SelectorView)
    requires
        s.len() > 0,
    ensures
        s.contains(y) <==> (y == s.first() || s.drop_first().contains(y)),
{
    let rest = s.drop_first();
    if s.contains(y) {
        let i = choose|i: int| 0 <= i < s.len() && s[i] == y;
        if i > 0 {
            assert(rest[i - 1] == y);
        }
    }
    if rest.contains(y) {
        let i = choose|i: int| 0 <= i < rest.len() && rest[i] == y;
        assert(s[i + 1] == y);
    }
    if y == s.first() {
        assert(s[0] == y);
    }
}

/// Putting in a selector of another specificity leaves those of `rank` as
/// they are.
proof fn lemma_of_rank_insert_other(s: Seq<SelectorView>, k: int, x: SelectorView, rank: Specificity)
    requires
        0 <= k <= s.len(),
        x.specificity() != rank,
    ensures
        of_rank(s.insert(k, x), rank) == of_rank(s, rank),
    decreases k,
{
    let now = s.insert(k, x);
    if k == 0 {
        assert(now.drop_first() =~= s);
    } else {
        assert(now.first() == s.first());
        assert(now.drop_first() =~= s.drop_first().insert(k - 1, x));
        lemma_of_rank_insert_other(s.drop_first(), k - 1, x, rank);
    }
}

/// Putting in a selector of `rank` before all the others of that
/// specificity makes it the first of them.
proof fn lemma_of_rank_insert_first(s: Seq<SelectorView>, k: int, x: SelectorView, rank: Specificity)
    requires
        0 <= k <= s.len(),
        x.specificity() == rank,
        forall|j: int| 0 <= j < k ==> (#[trigger] s[j]).specificity() != rank,
    ensures
        of_rank(s.insert(k, x), rank) == seq![x] + of_rank(s, rank),
    decreases k,
{
    let now = s.insert(k, x);
    if k == 0 {
        assert(now.drop_first() =~= s);
    } else {
        let rest = s.drop_first();
        assert(now.first() == s[0]);
        assert(now.drop_first() =~= rest.insert(k - 1, x));
        assert forall|j: int| 0 <= j < k - 1 implies (#[trigger] rest[j]).specificity() != rank by {
            assert(rest[j] == s[j + 1]);
        }
        lemma_of_rank_insert_first(rest, k - 1, x, rank);
    }
}

/// What the order of selectors is. The selectors come out with the
/// highest specificity first: none stands before one that outranks it.
/// They are the selectors that were given, and the selectors of one
/// specificity stand in the order in which they were given.
pub proof fn lemma_selector_order(selectors: Seq<SelectorView>)
    ensures
        selector_order(selectors).len() == selectors.len(),
        forall|x: SelectorView| selector_order(selectors).contains(x) <==> selectors.contains(x),
        forall|i: int, j: int|
            0 <= i < j < selector_order(selectors).len() ==> !ranks_below(
                selector_order(selectors)[i].specificity(),
                selector_order(selectors)[j].specificity(),
            ),
        forall|rank: Specificity| #[trigger]
            of_rank(selector_order(selectors), rank) == of_rank(selectors, rank),
    decreases selectors.len(),
{
    if selectors.len() > 0 {
        let x = selectors.first();
        let rest = selectors.drop_first();
        lemma_selector_order(rest);
        let sorted = selector_order(rest);
        lemma_selector_place(sorted, x);
        let k = selector_place(sorted, x);
        let now = sorted.insert(k, x);
        assert forall|y: SelectorView| now.contains(y) <==> selectors.contains(y) by {
            lemma_selector_insert_members(sorted, k, x, y);
            lemma_selector_first_members(selectors, y);
        }
        assert forall|i: int, j: int| 0 <= i < j < now.len() implies !ranks_below(
            now[i].specificity(),
            now[j].specificity(),
        ) by {
            if j < k {
                assert(now[i] == sorted[i] && now[j] == sorted[j]);
            } else if j == k {
                assert(now[i] == sorted[i]);
                assert(ranks_below(x.specificity(), sorted[i].specificity()));
            } else if i < k {
                assert(now[i] == sorted[i] && now[j] == sorted[j - 1]);
            } else if i == k {
                assert(now[j] == sorted[j - 1]);
                assert(!ranks_below(x.specificity(), sorted[k].specificity()));
                if j - 1 > k {
                    assert(!ranks_below(sorted[k].specificity(), sorted[j - 1].specificity()));
                }
            } else {
                assert(now[i] == sorted[i - 1] && now[j] == sorted[j - 1]);
            }
        }
        assert forall|rank: Specificity| #[trigger]
            of_rank(now, rank) == of_rank(selectors, rank) by {
            assert(of_rank(sorted, rank) == of_rank(rest, rank));
            if x.specificity() == rank {
                assert forall|j: int| 0 <= j < k implies (#[trigger] sorted[j]).specificity()
                    != rank by {
                    assert(ranks_below(x.specificity(), sorted[j].specificity()));
                }
                lemma_of_rank_insert_first(sorted, k, x, rank);
            } else {
                lemma_of_rank_insert_other(sorted, k, x, rank);
            }
        }
    }
}

/// The list of selectors that starts at `pos`, added to those of `acc`,
/// and the place of the `{` that ends it. The selectors stand between
/// commas and come out by specificity, highest first.
pub open spec fn selectors_from(s: Seq<char>, pos: int, acc: Seq<SelectorView>) -> Option<
    (Seq<SelectorView>, int),
>
    decreases s.len() - pos,
{
    let (sel, end) = simple_selector_from(s, pos, SelectorView::universal());
    let mark = past_space(s, end);
    if pos < 0 || pos > s.len() {
        None
    } else if 0 <= mark < s.len() && s[mark] == ',' {
        proof {
            lemma_simple_selector_bounds(s, pos, SelectorView::universal());
            lemma_run_within(s, mark + 1, CharClass::Whitespace);
        }
        selectors_from(s, past_space(s, mark + 1), acc.push(sel))
    } else if 0 <= mark < s.len() && s[mark] == '{' {
        Some((selector_order(acc.push(sel)), mark))
    } else {
        None
    }
}

/// The number that the digits of `s` from `from` up to `to` spell.
pub open spec fn digits_value(s: Seq<char>, from: int, to: int) -> int
    decreases to - from,
{
    if to <= from {
        0
    } else {
        digits_value(s, from, to - 1) * 10 + (s[to - 1] as int - '0' as int)
    }
}

/// The digit at `at` where that is before `end`, and zero otherwise.
pub open spec fn fraction_digit(s: Seq<char>, at: int, end: int) -> int {
    if 0 <= at < end {
        s[at] as int - '0' as int
    } else {
        0
    }
}

/// The number that starts at `pos`, in layout units, and where it ends.
/// A number is made of digits and may go on with a point and more digits,
/// of which the first three count; there is none where no digit stands at
/// `pos` or where a second point follows.
pub open spec fn number_at(s: Seq<char>, pos: int) -> Option<(int, int)> {
    let whole = run_end(s, pos, CharClass::Digit);
    if pos < 0 || whole == pos {
        None
    } else if whole < s.len() && s[whole] == '.' {
        let end = run_end(s, whole + 1, CharClass::Digit);
        if end < s.len() && s[end] == '.' {
            None
        } else {
            Some(
                (
                    digits_value(s, pos, whole) * 1000 + fraction_digit(s, whole + 1, end) * 100
                        + fraction_digit(s, whole + 2, end) * 10 + fraction_digit(
                        s,
                        whole + 3,
                        end,
                    ),
                    end,
                ),
            )
        }
    } else {
        Some((digits_value(s, pos, whole) * 1000, whole))
    }
}

/// Whether `word` spells the unit of pixels, in capitals or not.
pub open spec fn is_px(word: Seq<char>) -> bool {
    word.len() == 2 && (word[0] == 'p' || word[0] == 'P') && (word[1] == 'x' || word[1] == 'X')
}

/// The length that starts at `pos` and where it ends: a number that fits
/// the range of a length, and the unit behind it.
pub open spec fn length_at(s: Seq<char>, pos: int) -> Option<(ValueView, int)> {
    match number_at(s, pos) {
        Some((units, end)) => if units <= i64::MAX && is_px(identifier_at(s, end)) {
            Some((ValueView::Length(units as i64), run_end(s, end, CharClass::Identifier)))
        } else {
            None
        },
        None => None,
    }
}

/// The number that a hexadecimal digit stands for.
pub open spec fn hex_value(c: char) -> Option<int> {
    if is_digit(c) {
        Some(c as int - '0' as int)
    } else if 'a' <= c <= 'f' {
        Some(c as int - 'a' as int + 10)
    } else if 'A' <= c <= 'F' {
        Some(c as int - 'A' as int + 10)
    } else {
        None
    }
}

/// The number that the two hexadecimal digits at `pos` spell.
pub open spec fn hex_pair_at(s: Seq<char>, pos: int) -> Option<int> {
    if 0 <= pos && pos + 2 <= s.len() && hex_value(s[pos]) is Some && hex_value(s[pos + 1]) is Some {
        Some(hex_value(s[pos])->Some_0 * 16 + hex_value(s[pos + 1])->Some_0)
    } else {
        None
    }
}

/// The colour that starts at `pos` and where it ends: a `#` and three
/// pairs of hexadecimal digits for red, green and blue. It is opaque.
pub open spec fn color_at(s: Seq<char>, pos: int) -> Option<(ValueView, int)> {
    if 0 <= pos < s.len() && s[pos] == '#' {
        match (hex_pair_at(s, pos + 1), hex_pair_at(s, pos + 3), hex_pair_at(s, pos + 5)) {
            (Some(r), Some(g), Some(b)) => Some(
                (ValueView::Color(r as u8, g as u8, b as u8, 255), pos + 7),
            ),
            _ => None,
        }
    } else {
        None
    }
}

/// The value that starts at `pos` and where it ends: a length where a
/// digit stands there, a colour where a `#` does, and a keyword otherwise.
pub open spec fn value_at(s: Seq<char>, pos: int) -> Option<(ValueView, int)> {
    if pos < 0 || pos >= s.len() {
        None
    } else if is_digit(s[pos]) {
        length_at(s, pos)
    } else if s[pos] == '#' {
        color_at(s, pos)
    } else {
        Some((ValueView::Keyword(identifier_at(s, pos)), run_end(s, pos, CharClass::Identifier)))
    }
}

/// The declaration that starts at `pos` and where it ends: a name, a
/// colon, a value and a semicolon.
pub open spec fn declaration_at(s: Seq<char>, pos: int) -> Option<(DeclarationView, int)> {
    let colon = past_space(s, run_end(s, pos, CharClass::Identifier));
    if 0 <= colon < s.len() && s[colon] == ':' {
        match value_at(s, past_space(s, colon + 1)) {
            Some((value, end)) => {
                let semicolon = past_space(s, end);
                if 0 <= semicolon < s.len() && s[semicolon] == ';' {
                    Some((DeclarationView { name: identifier_at(s, pos), value }, semicolon + 1))
                } else {
                    None
                }
            },
            None => None,
        }
    } else {
        None
    }
}

/// A value ends behind its start and inside the text.
pub proof fn lemma_value_bounds(s: Seq<char>, pos: int)
    requires
        0 <= pos <= s.len(),
    ensures
        value_at(s, pos) matches Some((_, end)) ==> pos <= end <= s.len(),
{
    lemma_run_within(s, pos, CharClass::Identifier);
    lemma_run_within(s, pos, CharClass::Digit);
    let whole = run_end(s, pos, CharClass::Digit);
    lemma_run_within(s, whole, CharClass::Identifier);
    if whole < s.len() {
        lemma_run_within(s, whole + 1, CharClass::Digit);
        lemma_run_within(s, run_end(s, whole + 1, CharClass::Digit), CharClass::Identifier);
    }
}

/// A declaration ends behind its start and inside the text.
pub proof fn lemma_declaration_bounds(s: Seq<char>, pos: int)
    requires
        0 <= pos <= s.len(),
    ensures
        declaration_at(s, pos) matches Some((_, end)) ==> pos < end <= s.len(),
{
    lemma_run_within(s, pos, CharClass::Identifier);
    let name_end = run_end(s, pos, CharClass::Identifier);
    lemma_run_within(s, name_end, CharClass::Whitespace);
    let colon = past_space(s, name_end);
    if colon < s.len() {
        lemma_run_within(s, colon + 1, CharClass::Whitespace);
        let start = past_space(s, colon + 1);
        lemma_value_bounds(s, start);
        match value_at(s, start) {
            Some((_, end)) => {
                lemma_run_within(s, end, CharClass::Whitespace);
            },
            None => {},
        }
    }
}

/// The declarations from `pos` up to the closing brace, added to those of
/// `acc`, and the place behind the brace.
pub open spec fn declarations_from(s: Seq<char>, pos: int, acc: Seq<DeclarationView>) -> Option<
    (Seq<DeclarationView>, int),
>
    decreases s.len() - pos,
{
    let start = past_space(s, pos);
    if pos < 0 || start >= s.len() {
        None
    } else if s[start] == '}' {
        Some((acc, start + 1))
    } else {
        match declaration_at(s, start) {
            Some((declaration, end)) => {
                proof {
                    lemma_declaration_bounds(s, start);
                }
                declarations_from(s, end, acc.push(declaration))
            },
            None => None,
        }
    }
}

/// The block of declarations that starts at `pos` with an opening brace,
/// and where it ends.
pub open spec fn declarations_at(s: Seq<char>, pos: int) -> Option<(Seq<DeclarationView>, int)> {
    if 0 <= pos < s.len() && s[pos] == '{' {
        declarations_from(s, pos + 1, Seq::empty())
    } else {
        None
    }
}

/// The rule that starts at `pos` and where it ends.
pub open spec fn rule_at(s: Seq<char>, pos: int) -> Option<(RuleView, int)> {
    match selectors_from(s, pos, Seq::empty()) {
        Some((selectors, brace)) => match declarations_at(s, brace) {
            Some((declarations, end)) => Some((RuleView { selectors, declarations }, end)),
            None => None,
        },
        None => None,
    }
}

/// A list of selectors ends at an opening brace inside the text.
pub proof fn lemma_selectors_bounds(s: Seq<char>, pos: int, acc: Seq<SelectorView>)
    requires
        0 <= pos <= s.len(),
    ensures
        selectors_from(s, pos, acc) matches Some((_, brace)) ==> pos <= brace < s.len()
            && s[brace] == '{',
    decreases s.len() - pos,
{
    lemma_simple_selector_bounds(s, pos, SelectorView::universal());
    let (sel, end) = simple_selector_from(s, pos, SelectorView::universal());
    lemma_run_within(s, end, CharClass::Whitespace);
    let mark = past_space(s, end);
    if mark < s.len() && s[mark] == ',' {
        lemma_run_within(s, mark + 1, CharClass::Whitespace);
        lemma_selectors_bounds(s, past_space(s, mark + 1), acc.push(sel));
    }
}

/// A block of declarations ends behind its start and inside the text.
pub proof fn lemma_declarations_bounds(s: Seq<char>, pos: int, acc: Seq<DeclarationView>)
    requires
        0 <= pos <= s.len(),
    ensures
        declarations_from(s, pos, acc) matches Some((_, end)) ==> pos < end <= s.len(),
    decreases s.len() - pos,
{
    lemma_run_within(s, pos, CharClass::Whitespace);
    let start = past_space(s, pos);
    if start < s.len() && s[start] != '}' {
        lemma_declaration_bounds(s, start);
        match declaration_at(s, start) {
            Some((declaration, end)) => {
                lemma_declarations_bounds(s, end, acc.push(declaration));
            },
            None => {},
        }
    }
}

/// A rule ends behind its start and inside the text.
pub proof fn lemma_rule_bounds(s: Seq<char>, pos: int)
    requires
        0 <= pos <= s.len(),
    ensures
        rule_at(s, pos) matches Some((_, end)) ==> pos < end <= s.len(),
{
    lemma_selectors_bounds(s, pos, Seq::empty());
    match selectors_from(s, pos, Seq::empty()) {
        Some((_, brace)) => {
            lemma_declarations_bounds(s, brace + 1, Seq::empty());
        },
        None => {},
    }
}

/// The rules from `pos` to the end of the text, added to those of `acc`.
pub open spec fn rules_from(s: Seq<char>, pos: int, acc: Seq<RuleView>) -> Option<Seq<RuleView>>
    decreases s.len() - pos,
{
    let start = past_space(s, pos);
    if pos < 0 || start >= s.len() {
        Some(acc)
    } else {
        match rule_at(s, start) {
            Some((rule, end)) => {
                proof {
                    lemma_rule_bounds(s, start);
                }
                rules_from(s, end, acc.push(rule))
            },
            None => None,
        }
    }
}

/// The stylesheet that the text `s` spells, if it spells one.
pub open spec fn stylesheet_of(s: Seq<char>) -> Option<Seq<RuleView>> {
    rules_from(s, 0, Seq::empty())
}

/// The selectors of a list, as values.
pub open spec fn selector_views(selectors: Seq<Selector>) -> Seq<SelectorView> {
    Seq::new(selectors.len(), |i: int| selectors[i]@)
}

/// The declarations of a list, as values.
pub open spec fn declaration_views(declarations: Seq<Declaration>) -> Seq<DeclarationView> {
    Seq::new(declarations.len(), |i: int| declarations[i]@)
}

/// The rules of a list, as values.
pub open spec fn rule_views(rules: Seq<Rule>) -> Seq<RuleView> {
    Seq::new(rules.len(), |i: int| rules[i]@)
}

/// A position with the two properties of `selector_place` is that place.
proof fn lemma_selector_place_found(sorted: Seq<SelectorView>, x: SelectorView, k: int)
    requires
        0 <= k <= sorted.len(),
        forall|j: int|
            0 <= j < k ==> ranks_below(x.specificity(), (#[trigger] sorted[j]).specificity()),
        k < sorted.len() ==> !ranks_below(x.specificity(), sorted[k].specificity()),
    ensures
        selector_place(sorted, x) == k,
    decreases k,
{
    if k > 0 {
        let rest = sorted.drop_first();
        assert(ranks_below(x.specificity(), sorted[0].specificity()));
        assert forall|j: int| 0 <= j < k - 1 implies ranks_below(
            x.specificity(),
            (#[trigger] rest[j]).specificity(),
        ) by {
            assert(rest[j] == sorted[j + 1]);
        }
        lemma_selector_place_found(rest, x, k - 1);
    }
}

/// Sorts selectors by specificity, highest first, keeping selectors of one
/// specificity in their order.
pub fn sort_selectors(selectors: Vec<Selector>) -> (res: Vec<Selector>)
    ensures
        selector_views(res@) == selector_order(selector_views(selectors@)),
{
    let ghost given = selector_views(selectors@);
    let mut rest = selectors;
    let mut sorted: Vec<Selector> = Vec::new();
    assert(given.subrange(given.len() as int, given.len() as int) =~= Seq::<SelectorView>::empty());
    assert(selector_views(sorted@) =~= Seq::<SelectorView>::empty());
    while rest.len() > 0
        invariant
            rest@.len() <= given.len(),
            selector_views(rest@) == given.take(rest@.len() as int),
            selector_views(sorted@) == selector_order(
                given.subrange(rest@.len() as int, given.len() as int),
            ),
        decreases rest@.len(),
    {
        let ghost before = selector_views(rest@);
        let ghost n = rest@.len() as int;
        let x = rest.pop().unwrap();
        let rank = x.specificity();
        let mut k: usize = 0;
        while k < sorted.len() && is_ranked_below(rank, sorted[k].specificity())
            invariant
                k <= sorted@.len(),
                rank == x@.specificity(),
                forall|j: int|
                    0 <= j < k ==> ranks_below(
                        x@.specificity(),
                        (#[trigger] selector_views(sorted@)[j]).specificity(),
                    ),
            decreases sorted@.len() - k,
        {
            k = k + 1;
        }
        proof {
            let tail = given.subrange(n - 1, given.len() as int);
            assert(before[n - 1] == x@);
            assert(given[n - 1] == x@);
            assert(tail.first() == x@);
            assert(tail.drop_first() =~= given.subrange(n, given.len() as int));
            lemma_selector_place_found(selector_views(sorted@), x@, k as int);
            assert(selector_views(rest@) =~= given.take(n - 1));
        }
        let ghost sorted_before = selector_views(sorted@);
        sorted.insert(k, x);
        assert(selector_views(sorted@) =~= sorted_before.insert(k as int, x@));
    }
    assert(given.subrange(0, given.len() as int) =~= given);
    sorted
}

/// The number that a hexadecimal digit stands for.
fn hex_digit(c: char) -> (res: Option<u8>)
    ensures
        match res {
            Some(v) => hex_value(c) == Some(v as int) && v < 16,
            None => hex_value(c) is None,
        },
{
    if '0' <= c && c <= '9' {
        Some((c as u32 - '0' as u32) as u8)
    } else if 'a' <= c && c <= 'f' {
        Some((c as u32 - 'a' as u32 + 10) as u8)
    } else if 'A' <= c && c <= 'F' {
        Some((c as u32 - 'A' as u32 + 10) as u8)
    } else {
        None
    }
}

/// Every character of a run belongs to the class of the run.
proof fn lemma_run_members(s: Seq<char>, from: int, class: CharClass)
    requires
        0 <= from <= s.len(),
    ensures
        forall|k: int| from <= k < run_end(s, from, class) ==> class.holds(#[trigger] s[k]),
    decreases s.len() - from,
{
    if from < s.len() && class.holds(s[from]) {
        lemma_run_members(s, from + 1, class);
    }
}

/// The number that a run of digits spells grows with the run.
proof fn lemma_digits_value_grows(s: Seq<char>, from: int, mid: int, to: int)
    requires
        0 <= from <= mid <= to <= s.len(),
        forall|k: int| from <= k < to ==> is_digit(#[trigger] s[k]),
    ensures
        0 <= digits_value(s, from, mid) <= digits_value(s, from, to),
    decreases to - from,
{
    if from < to {
        if mid < to {
            lemma_digits_value_grows(s, from, mid, to - 1);
        } else {
            lemma_digits_value_grows(s, from, mid - 1, to - 1);
        }
    }
}

impl Parser {
    /// Reads an identifier, which is empty where none stands here.
    pub fn parse_identifier(&mut self) -> (res: String)
        requires
            old(self).wf(),
        ensures
            final(self).wf(),
            final(self).input == old(self).input,
            final(self).pos == run_end(old(self).input@, old(self).pos as int, CharClass::Identifier),
            res@ == identifier_at(old(self).input@, old(self).pos as int),
    {
        self.consume_while(CharClass::Identifier)
    }

    /// Reads one simple selector, such as `type#id.class1.class2`.
    pub fn parse_simple_selector(&mut self) -> (res: SimpleSelector)
        requires
            old(self).wf(),
        ensures
            final(self).wf(),
            final(self).input == old(self).input,
            (res@, final(self).pos as int) == simple_selector_from(
                old(self).input@,
                old(self).pos as int,
                SelectorView::universal(),
            ),
    {
        let mut selector = SimpleSelector { tag_name: None, id: None, class: Vec::new() };
        assert(selector@ =~= SelectorView::universal()) by {
            assert(selector@.class =~= Seq::<Seq<char>>::empty());
        }
        loop
            invariant
                self.wf(),
                self.input == old(self).input,
                simple_selector_from(
                    old(self).input@,
                    old(self).pos as int,
                    SelectorView::universal(),
                ) == simple_selector_from(self.input@, self.pos as int, selector@),
            ensures
                self.wf(),
                self.input == old(self).input,
                simple_selector_from(
                    old(self).input@,
                    old(self).pos as int,
                    SelectorView::universal(),
                ) == (selector@, self.pos as int),
            decreases self.input@.len() - self.pos,
        {
            let c = match self.next_char() {
                Ok(c) => c,
                Err(_) => {
                    break ;
                },
            };
            let ghost before = selector@;
            let ghost at = self.pos as int;
            if c == '#' {
                let _ = self.consume_char();
                selector.id = Some(self.parse_identifier());
                assert(selector@ =~= SelectorView { id: Some(identifier_at(self.input@, at + 1)), ..before });
            } else if c == '.' {
                let _ = self.consume_char();
                let name = self.parse_identifier();
                selector.class.push(name);
                assert(selector@ =~= SelectorView {
                    class: before.class.push(identifier_at(self.input@, at + 1)),
                    ..before
                }) by {
                    assert(selector@.class =~= before.class.push(identifier_at(self.input@, at + 1)));
                }
            } else if c == '*' {
                // The universal selector names nothing.
                let _ = self.consume_char();
            } else if valid_identifier_char(c) {
                selector.tag_name = Some(self.parse_identifier());
                assert(selector@ =~= SelectorView { tag_name: Some(identifier_at(self.input@, at)), ..before });
            } else {
                break ;
            }
        }
        selector
    }

    /// Reads a list of selectors between commas, up to the opening brace,
    /// and returns them by specificity, highest first.
    pub fn parse_selectors(&mut self) -> (res: Result<Vec<Selector>, ParseError>)
        requires
            old(self).wf(),
        ensures
            final(self).wf(),
            final(self).input == old(self).input,
            match res {
                Ok(selectors) => selectors_from(
                    old(self).input@,
                    old(self).pos as int,
                    Seq::empty(),
                ) == Some((selector_views(selectors@), final(self).pos as int)),
                Err(_) => selectors_from(old(self).input@, old(self).pos as int, Seq::empty())
                    is None,
            },
    {
        let mut selectors: Vec<Selector> = Vec::new();
        assert(selector_views(selectors@) =~= Seq::<SelectorView>::empty());
        loop
            invariant
                self.wf(),
                self.input == old(self).input,
                selectors_from(old(self).input@, old(self).pos as int, Seq::empty())
                    == selectors_from(self.input@, self.pos as int, selector_views(selectors@)),
            decreases self.input@.len() - self.pos,
        {
            let ghost before = selector_views(selectors@);
            let ghost start = self.pos as int;
            let simple = self.parse_simple_selector();
            let ghost sel = simple@;
            selectors.push(Selector::Simple(simple));
            assert(selector_views(selectors@) =~= before.push(sel));
            proof {
                lemma_simple_selector_bounds(self.input@, start, SelectorView::universal());
                lemma_run_within(self.input@, self.pos as int, CharClass::Whitespace);
            }
            self.consume_whitespace();
            match self.next_char() {
                Ok(c) => {
                    if c == ',' {
                        proof {
                            lemma_run_within(self.input@, self.pos + 1, CharClass::Whitespace);
                        }
                        let _ = self.consume_char();
                        self.consume_whitespace();
                    } else if c == '{' {
                        return Ok(sort_selectors(selectors));
                    } else {
                        return Err(ParseError);
                    }
                },
                Err(e) => {
                    return Err(e);
                },
            }
        }
    }

    /// Reads a number as a length in layout units: digits, and behind them
    /// at most one point with digits behind it, of which three count.
    pub fn parse_number(&mut self) -> (res: Result<i64, ParseError>)
        requires
            old(self).wf(),
        ensures
            final(self).wf(),
            final(self).input == old(self).input,
            match res {
                Ok(units) => number_at(old(self).input@, old(self).pos as int) == Some(
                    (units as int, final(self).pos as int),
                ),
                Err(_) => match number_at(old(self).input@, old(self).pos as int) {
                    Some((units, _)) => units > i64::MAX,
                    None => true,
                },
            },
    {
        let n: usize = self.input.len();
        let start: usize = self.pos;
        let ghost s = self.input@;
        let ghost whole_end = run_end(s, start as int, CharClass::Digit);
        proof {
            lemma_run_within(s, start as int, CharClass::Digit);
        }
        let mut whole: i128 = 0;
        let mut fits = true;
        while self.pos < n && CharClass::Digit.test(self.input[self.pos])
            invariant
                n == s.len(),
                self.input@ == s,
                self.input == old(self).input,
                start == old(self).pos,
                start <= self.pos <= n,
                whole_end == run_end(s, start as int, CharClass::Digit),
                forall|k: int| start <= k < self.pos ==> is_digit(#[trigger] s[k]),
                fits ==> whole == digits_value(s, start as int, self.pos as int),
                fits ==> 0 <= whole <= i64::MAX,
                !fits ==> exists|m: int|
                    start <= m <= self.pos && digits_value(s, start as int, m) > i64::MAX,
            decreases n - self.pos,
        {
            let digit: i128 = (self.input[self.pos] as u32 - '0' as u32) as i128;
            if fits {
                let next: i128 = whole * 10 + digit;
                if next > i64::MAX as i128 {
                    fits = false;
                    assert(digits_value(s, start as int, self.pos + 1) > i64::MAX);
                } else {
                    whole = next;
                }
            }
            self.pos = self.pos + 1;
        }
        proof {
            lemma_run_on(s, start as int, self.pos as int, CharClass::Digit);
            assert(self.pos == whole_end);
        }
        if self.pos == start {
            return Err(ParseError);
        }
        if !fits {
            proof {
                let m = choose|m: int|
                    start <= m <= self.pos && digits_value(s, start as int, m) > i64::MAX;
                lemma_digits_value_grows(s, start as int, m, whole_end);
                if whole_end < s.len() {
                    lemma_run_within(s, whole_end + 1, CharClass::Digit);
                    lemma_run_members(s, whole_end + 1, CharClass::Digit);
                    let end = run_end(s, whole_end + 1, CharClass::Digit);
                    assert(fraction_digit(s, whole_end + 1, end) >= 0);
                    assert(fraction_digit(s, whole_end + 2, end) >= 0);
                    assert(fraction_digit(s, whole_end + 3, end) >= 0);
                }
            }
            // The number is out of range whatever follows.
            if self.pos < n && self.input[self.pos] == '.' {
                let _ = self.consume_char();
                let _ = self.consume_while(CharClass::Digit);
            }
            return Err(ParseError);
        }
        let mut units: i128 = whole * 1000;
        if self.pos < n && self.input[self.pos] == '.' {
            let _ = self.consume_char();
            let first: usize = self.pos;
            proof {
                lemma_run_within(s, first as int, CharClass::Digit);
            }
            let _ = self.consume_while(CharClass::Digit);
            let end: usize = self.pos;
            if end < n && self.input[end] == '.' {
                return Err(ParseError);
            }
            proof {
                lemma_run_members(s, first as int, CharClass::Digit);
            }
            if end - first > 0 {
                assert(is_digit(s[first as int]));
                units = units + ((self.input[first] as u32 - '0' as u32) as i128) * 100;
            }
            if end - first > 1 {
                assert(is_digit(s[first + 1]));
                units = units + ((self.input[first + 1] as u32 - '0' as u32) as i128) * 10;
            }
            if end - first > 2 {
                assert(is_digit(s[first + 2]));
                units = units + ((self.input[first + 2] as u32 - '0' as u32) as i128);
            }
        }
        if units > i64::MAX as i128 {
            Err(ParseError)
        } else {
            Ok(units as i64)
        }
    }

    /// Reads the unit of a length, which must be `px`, in capitals or not.
    pub fn parse_unit(&mut self) -> (res: Result<Unit, ParseError>)
        requires
            old(self).wf(),
        ensures
            final(self).wf(),
            final(self).input == old(self).input,
            final(self).pos == run_end(old(self).input@, old(self).pos as int, CharClass::Identifier),
            res is Ok <==> is_px(identifier_at(old(self).input@, old(self).pos as int)),
    {
        let start: usize = self.pos;
        let _ = self.parse_identifier();
        let end: usize = self.pos;
        if end - start == 2 {
            let p = self.input[start];
            let x = self.input[start + 1];
            if (p == 'p' || p == 'P') && (x == 'x' || x == 'X') {
                return Ok(Unit::Px);
            }
        }
        Err(ParseError)
    }

    /// Reads a length: a number and its unit.
    pub fn parse_length(&mut self) -> (res: Result<Value, ParseError>)
        requires
            old(self).wf(),
        ensures
            final(self).wf(),
            final(self).input == old(self).input,
            match res {
                Ok(value) => length_at(old(self).input@, old(self).pos as int) == Some(
                    (value@, final(self).pos as int),
                ),
                Err(_) => length_at(old(self).input@, old(self).pos as int) is None,
            },
    {
        let units = self.parse_number()?;
        let unit = self.parse_unit()?;
        Ok(Value::Length(units, unit))
    }

    /// Reads two hexadecimal digits as one number.
    pub fn parse_hex_pair(&mut self) -> (res: Result<u8, ParseError>)
        requires
            old(self).wf(),
        ensures
            final(self).wf(),
            final(self).input == old(self).input,
            match res {
                Ok(v) => hex_pair_at(old(self).input@, old(self).pos as int) == Some(v as int)
                    && final(self).pos == old(self).pos + 2,
                Err(_) => hex_pair_at(old(self).input@, old(self).pos as int) is None,
            },
    {
        if self.input.len() - self.pos < 2 {
            return Err(ParseError);
        }
        let high = hex_digit(self.input[self.pos]);
        let low = hex_digit(self.input[self.pos + 1]);
        match (high, low) {
            (Some(h), Some(l)) => {
                self.pos = self.pos + 2;
                Ok(h * 16 + l)
            },
            _ => Err(ParseError),
        }
    }

    /// Reads a colour: a `#` and three pairs of hexadecimal digits.
    pub fn parse_color(&mut self) -> (res: Result<Value, ParseError>)
        requires
            old(self).wf(),
        ensures
            final(self).wf(),
            final(self).input == old(self).input,
            match res {
                Ok(value) => color_at(old(self).input@, old(self).pos as int) == Some(
                    (value@, final(self).pos as int),
                ),
                Err(_) => color_at(old(self).input@, old(self).pos as int) is None,
            },
    {
        self.expect('#')?;
        let r = self.parse_hex_pair()?;
        let g = self.parse_hex_pair()?;
        let b = self.parse_hex_pair()?;
        Ok(Value::Color(r, g, b, 255))
    }

    /// Reads a value: a length, a colour or a keyword.
    pub fn parse_value(&mut self) -> (res: Result<Value, ParseError>)
        requires
            old(self).wf(),
        ensures
            final(self).wf(),
            final(self).input == old(self).input,
            match res {
                Ok(value) => value_at(old(self).input@, old(self).pos as int) == Some(
                    (value@, final(self).pos as int),
                ),
                Err(_) => value_at(old(self).input@, old(self).pos as int) is None,
            },
    {
        let c = self.next_char()?;
        if '0' <= c && c <= '9' {
            self.parse_length()
        } else if c == '#' {
            self.parse_color()
        } else {
            Ok(Value::Keyword(self.parse_identifier()))
        }
    }

    /// Reads a declaration: `name: value;`.
    pub fn parse_declaration(&mut self) -> (res: Result<Declaration, ParseError>)
        requires
            old(self).wf(),
        ensures
            final(self).wf(),
            final(self).input == old(self).input,
            match res {
                Ok(declaration) => declaration_at(old(self).input@, old(self).pos as int) == Some(
                    (declaration@, final(self).pos as int),
                ),
                Err(_) => declaration_at(old(self).input@, old(self).pos as int) is None,
            },
    {
        proof {
            lemma_run_within(self.input@, self.pos as int, CharClass::Identifier);
        }
        let property_name = self.parse_identifier();
        proof {
            lemma_run_within(self.input@, self.pos as int, CharClass::Whitespace);
        }
        self.consume_whitespace();
        self.expect(':')?;
        self.consume_whitespace();
        let value = self.parse_value()?;
        self.consume_whitespace();
        self.expect(';')?;
        Ok(Declaration { name: property_name, value: value })
    }

    /// Reads a list of declarations in braces.
    pub fn parse_declarations(&mut self) -> (res: Result<Vec<Declaration>, ParseError>)
        requires
            old(self).wf(),
        ensures
            final(self).wf(),
            final(self).input == old(self).input,
            match res {
                Ok(declarations) => declarations_at(old(self).input@, old(self).pos as int)
                    == Some((declaration_views(declarations@), final(self).pos as int)),
                Err(_) => declarations_at(old(self).input@, old(self).pos as int) is None,
            },
    {
        let mut declarations: Vec<Declaration> = Vec::new();
        assert(declaration_views(declarations@) =~= Seq::<DeclarationView>::empty());
        self.expect('{')?;
        loop
            invariant
                self.wf(),
                self.input == old(self).input,
                declarations_at(old(self).input@, old(self).pos as int) == declarations_from(
                    self.input@,
                    self.pos as int,
                    declaration_views(declarations@),
                ),
            decreases self.input@.len() - self.pos,
        {
            let ghost before = declaration_views(declarations@);
            proof {
                lemma_run_within(self.input@, self.pos as int, CharClass::Whitespace);
            }
            self.consume_whitespace();
            let c = self.next_char()?;
            if c == '}' {
                let _ = self.consume_char();
                return Ok(declarations);
            }
            proof {
                lemma_declaration_bounds(self.input@, self.pos as int);
            }
            let declaration = self.parse_declaration()?;
            let ghost added = declaration@;
            declarations.push(declaration);
            assert(declaration_views(declarations@) =~= before.push(added));
        }
    }

    /// Reads a rule: `selectors { declarations }`.
    pub fn parse_rule(&mut self) -> (res: Result<Rule, ParseError>)
        requires
            old(self).wf(),
        ensures
            final(self).wf(),
            final(self).input == old(self).input,
            match res {
                Ok(rule) => rule_at(old(self).input@, old(self).pos as int) == Some(
                    (rule@, final(self).pos as int),
                ),
                Err(_) => rule_at(old(self).input@, old(self).pos as int) is None,
            },
    {
        let selectors = self.parse_selectors()?;
        let declarations = self.parse_declarations()?;
        let rule = Rule { selectors: selectors, declarations: declarations };
        assert(rule@.selectors =~= selector_views(rule.selectors@));
        assert(rule@.declarations =~= declaration_views(rule.declarations@));
        Ok(rule)
    }

    /// Reads rules, with white space between them if any, up to the end of
    /// the text.
    pub fn parse_rules(&mut self) -> (res: Result<Vec<Rule>, ParseError>)
        requires
            old(self).wf(),
        ensures
            final(self).wf(),
            final(self).input == old(self).input,
            match res {
                Ok(rules) => rules_from(old(self).input@, old(self).pos as int, Seq::empty())
                    == Some(rule_views(rules@)),
                Err(_) => rules_from(old(self).input@, old(self).pos as int, Seq::empty())
                    is None,
            },
    {
        let mut rules: Vec<Rule> = Vec::new();
        assert(rule_views(rules@) =~= Seq::<RuleView>::empty());
        loop
            invariant
                self.wf(),
                self.input == old(self).input,
                rules_from(old(self).input@, old(self).pos as int, Seq::empty()) == rules_from(
                    self.input@,
                    self.pos as int,
                    rule_views(rules@),
                ),
            decreases self.input@.len() - self.pos,
        {
            let ghost before = rule_views(rules@);
            proof {
                lemma_run_within(self.input@, self.pos as int, CharClass::Whitespace);
            }
            self.consume_whitespace();
            if self.eof() {
                return Ok(rules);
            }
            proof {
                lemma_rule_bounds(self.input@, self.pos as int);
            }
            let rule = self.parse_rule()?;
            let ghost added = rule@;
            rules.push(rule);
            assert(rule_views(rules@) =~= before.push(added));
        }
    }
}

} // verus!
