//! The grammar of the notation, as functions from the input and a position to
//! the tree matched there.
//!
//! Choices are ordered and repetitions are greedy: a rule takes the first
//! alternative that matches and as many repetitions as it can get, and never
//! gives back what it has taken.

use crate::chars::{lemma_run_end, run_end, CharClass};
use crate::shape::lemma_entry_at;
use crate::tree::{Mismatch, Rule, Tree};
use vstd::prelude::*;

verus! {


/// The failure of `rule` at `pos`.
pub open spec fn mismatch(rule: Rule, pos: int) -> Mismatch {
    Mismatch { position: pos, expected: rule }
}

/// The node of a rule that has matched the span from `start` to `end` and has
/// no rules inside.
pub open spec fn leaf(rule: Rule, s: Seq<char>, start: int, end: int) -> Tree {
    Tree { rule, start, end, text: s.subrange(start, end), inner: Seq::empty() }
}

/// Where the separators that start at `pos` end.
pub open spec fn separators_end(s: Seq<char>, pos: int) -> int {
    run_end(s, pos, CharClass::Separator)
}

/// A rule that is one or more characters of one class.
pub open spec fn run_at(rule: Rule, class: CharClass, s: Seq<char>, pos: int) -> Result<
    Tree,
    Mismatch,
> {
    let end = run_end(s, pos, class);
    if end > pos {
        Ok(leaf(rule, s, pos, end))
    } else {
        Err(mismatch(rule, pos))
    }
}

/// An index: one or more digits.
pub open spec fn index_at(s: Seq<char>, pos: int) -> Result<Tree, Mismatch> {
    run_at(Rule::index, CharClass::Digit, s, pos)
}

/// A name: one or more letters, spaces and hyphens.
pub open spec fn name_at(s: Seq<char>, pos: int) -> Result<Tree, Mismatch> {
    run_at(Rule::name, CharClass::Name, s, pos)
}

/// A quantity: one or more digits.
pub open spec fn quantity_at(s: Seq<char>, pos: int) -> Result<Tree, Mismatch> {
    run_at(Rule::quantity, CharClass::Digit, s, pos)
}

/// Whether the characters of `word` stand in `s` from `pos` on.
pub open spec fn starts_with(s: Seq<char>, pos: int, word: Seq<char>) -> bool {
    0 <= pos && pos + word.len() <= s.len() && s.subrange(pos, pos + word.len()) == word
}

/// Whether `word` is one of the six units.
pub open spec fn is_unit(word: Seq<char>) -> bool {
    word == seq!['k', 'g'] || word == seq!['g'] || word == seq!['l', 't', 'r'] || word == seq![
        'm',
        'l',
    ] || word == seq!['p', 'c', 's'] || word == seq!['o', 'z']
}

/// The length of the unit that stands at `pos`, 0 where none does. The units are
/// tried in the order `kg`, `g`, `ltr`, `ml`, `pcs`, `oz`.
pub open spec fn unit_len(s: Seq<char>, pos: int) -> int {
    if starts_with(s, pos, seq!['k', 'g']) {
        2
    } else if starts_with(s, pos, seq!['g']) {
        1
    } else if starts_with(s, pos, seq!['l', 't', 'r']) {
        3
    } else if starts_with(s, pos, seq!['m', 'l']) {
        2
    } else if starts_with(s, pos, seq!['p', 'c', 's']) {
        3
    } else if starts_with(s, pos, seq!['o', 'z']) {
        2
    } else {
        0
    }
}

/// A unit: one of the six units, as `unit_len` finds it.
pub open spec fn unit_at(s: Seq<char>, pos: int) -> Result<Tree, Mismatch> {
    if unit_len(s, pos) > 0 {
        Ok(leaf(Rule::unit, s, pos, pos + unit_len(s, pos)))
    } else {
        Err(mismatch(Rule::unit, pos))
    }
}

/// A rule that is one or more characters of one class between two delimiters.
/// It fails at the first character that does not fit: at `pos` where `open`
/// is missing, behind it where no character of the class follows, and behind
/// the run where `close` is missing.
pub open spec fn enclosed_at(
    rule: Rule,
    open: char,
    class: CharClass,
    close: char,
    s: Seq<char>,
    pos: int,
) -> Result<Tree, Mismatch> {
    let end = run_end(s, pos + 1, class);
    if !(0 <= pos < s.len() && s[pos] == open) {
        Err(mismatch(rule, pos))
    } else if end == pos + 1 {
        Err(mismatch(rule, pos + 1))
    } else if !(end < s.len() && s[end] == close) {
        Err(mismatch(rule, end))
    } else {
        Ok(leaf(rule, s, pos, end + 1))
    }
}

/// A brand: one or more letters and spaces in parentheses.
pub open spec fn brand_at(s: Seq<char>, pos: int) -> Result<Tree, Mismatch> {
    enclosed_at(Rule::brand, '(', CharClass::Brand, ')', s, pos)
}

/// A description: one or more letters, digits and spaces in braces.
pub open spec fn description_at(s: Seq<char>, pos: int) -> Result<Tree, Mismatch> {
    enclosed_at(Rule::description, '{', CharClass::Description, '}', s, pos)
}

/// A category: one or more letters and digits in brackets.
pub open spec fn category_at(s: Seq<char>, pos: int) -> Result<Tree, Mismatch> {
    enclosed_at(Rule::category, '[', CharClass::Category, ']', s, pos)
}

/// `fields` with the node of an optional rule behind them, where it matched.
pub open spec fn with_optional(fields: Seq<Tree>, attempt: Result<Tree, Mismatch>) -> Seq<
    Tree,
> {
    match attempt {
        Ok(node) => fields.push(node),
        Err(_) => fields,
    }
}

/// The item that starts at `pos` and whose index, name, quantity and unit are
/// `required`: a brand may follow them, and then a description, each after
/// optional separators. The item ends where its last field ends.
pub open spec fn item_of_fields(s: Seq<char>, pos: int, required: Seq<Tree>) -> Tree {
    let with_brand = with_optional(
        required,
        brand_at(s, separators_end(s, required.last().end)),
    );
    let fields = with_optional(
        with_brand,
        description_at(s, separators_end(s, with_brand.last().end)),
    );
    Tree {
        rule: Rule::item,
        start: pos,
        end: fields.last().end,
        text: s.subrange(pos, fields.last().end),
        inner: fields,
    }
}

/// An item: an index, a dot, a name, a quantity and a unit, then optionally a
/// brand and a description, with optional separators between any two of them.
/// It fails where the first of them fails; a missing dot is a failure of the
/// item itself.
pub open spec fn item_at(s: Seq<char>, pos: int) -> Result<Tree, Mismatch> {
    match index_at(s, pos) {
        Err(e) => Err(e),
        Ok(index) => {
            let dot = separators_end(s, index.end);
            if !(dot < s.len() && s[dot] == '.') {
                Err(mismatch(Rule::item, dot))
            } else {
                match name_at(s, separators_end(s, dot + 1)) {
                    Err(e) => Err(e),
                    Ok(name) => match quantity_at(s, separators_end(s, name.end)) {
                        Err(e) => Err(e),
                        Ok(quantity) => match unit_at(s, separators_end(s, quantity.end)) {
                            Err(e) => Err(e),
                            Ok(unit) => Ok(
                                item_of_fields(s, pos, seq![index, name, quantity, unit]),
                            ),
                        },
                    },
                }
            }
        },
    }
}

/// A category or an item, the category tried first. Where neither matches, the
/// failure is that of the one that got beyond `pos`; where neither did, the
/// list itself cannot be continued at `pos`.
pub open spec fn entry_at(s: Seq<char>, pos: int) -> Result<Tree, Mismatch> {
    match category_at(s, pos) {
        Ok(category) => Ok(category),
        Err(in_category) => match item_at(s, pos) {
            Ok(item) => Ok(item),
            Err(in_item) => if in_category.position > pos {
                Err(in_category)
            } else if in_item.position > pos {
                Err(in_item)
            } else {
                Err(mismatch(Rule::shopping_list, pos))
            },
        },
    }
}

/// The entries from `pos` up to the end of the input, each after optional
/// separators; separators may also follow the last one. It fails where an entry
/// fails before the end of the input is reached.
pub open spec fn entries_from(s: Seq<char>, pos: int) -> Result<Seq<Tree>, Mismatch>
    decreases s.len() - pos,
    via entries_from_ends
{
    let at = separators_end(s, pos);
    if at >= s.len() {
        Ok(Seq::empty())
    } else {
        match entry_at(s, at) {
            Err(e) => Err(e),
            Ok(entry) => match entries_from(s, entry.end) {
                Err(e) => Err(e),
                Ok(rest) => Ok(seq![entry] + rest),
            },
        }
    }
}

/// No entry is empty, so the entries that are left get fewer.
#[via_fn]
proof fn entries_from_ends(s: Seq<char>, pos: int) {
    let at = separators_end(s, pos);
    if 0 <= at < s.len() {
        lemma_run_end(s, pos, CharClass::Separator);
        lemma_entry_at(s, at);
    }
}

/// The whole input as a shopping list.
pub open spec fn shopping_list_at(s: Seq<char>) -> Result<Tree, Mismatch> {
    match entries_from(s, 0) {
        Err(e) => Err(e),
        Ok(entries) => Ok(
            Tree {
                rule: Rule::shopping_list,
                start: 0,
                end: s.len() as int,
                text: s,
                inner: entries,
            },
        ),
    }
}

/// What `rule` matches at `pos`. The shopping list matches at the start of the
/// input only, and then all of it.
pub open spec fn rule_at(rule: Rule, s: Seq<char>, pos: int) -> Result<Tree, Mismatch> {
    match rule {
        Rule::index => index_at(s, pos),
        Rule::name => name_at(s, pos),
        Rule::quantity => quantity_at(s, pos),
        Rule::unit => unit_at(s, pos),
        Rule::brand => brand_at(s, pos),
        Rule::description => description_at(s, pos),
        Rule::category => category_at(s, pos),
        Rule::item => item_at(s, pos),
        Rule::shopping_list => if pos == 0 {
            shopping_list_at(s)
        } else {
            Err(mismatch(Rule::shopping_list, pos))
        },
    }
}

/// What the recogniser makes of `s` under `rule`: the one node of the rule,
/// matched at the start of the input, or the failure.
pub open spec fn recognize(rule: Rule, s: Seq<char>) -> Result<Seq<Tree>, Mismatch> {
    match rule_at(rule, s, 0) {
        Ok(node) => Ok(seq![node]),
        Err(e) => Err(e),
    }
}

} // verus!
