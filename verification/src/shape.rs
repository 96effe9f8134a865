//! What the trees that the grammar matches look like: where their nodes stand
//! in the input and what they hold.

use crate::chars::{all_in, lemma_run_end, CharClass};
use crate::grammar::{
    brand_at, enclosed_at, entries_from, entry_at, index_at, is_unit, item_at, item_of_fields,
    name_at, quantity_at, run_at, separators_end, starts_with, unit_at, with_optional,
};
use crate::tree::{all_fields, Mismatch, Rule, Tree};
use vstd::prelude::*;

verus! {

/// A word stands at `pos` when each of its characters does.
pub proof fn lemma_starts_with(s: Seq<char>, pos: int, word: Seq<char>)
    requires
        0 <= pos,
    ensures
        starts_with(s, pos, word) <==> pos + word.len() <= s.len() && forall|i: int|
            0 <= i < word.len() ==> s[pos + i] == #[trigger] word[i],
{
    if pos + word.len() <= s.len() {
        let part = s.subrange(pos, pos + word.len());
        if forall|i: int| 0 <= i < word.len() ==> s[pos + i] == #[trigger] word[i] {
            assert(part =~= word);
        }
        if part == word {
            assert forall|i: int| 0 <= i < word.len() implies s[pos + i] == #[trigger] word[i] by {
                assert(part[i] == s[pos + i]);
            }
        }
    }
}

/// Whether `node` covers a piece of `s` that is not empty, and holds its
/// characters.
pub open spec fn spans(node: Tree, s: Seq<char>) -> bool {
    0 <= node.start < node.end <= s.len() && node.text == s.subrange(node.start, node.end)
}

/// Whether the nodes stand one behind the other, none reaching into the next.
pub open spec fn in_order(nodes: Seq<Tree>) -> bool {
    forall|i: int, j: int|
        0 <= i < j < nodes.len() ==> (#[trigger] nodes[i]).end <= (#[trigger] nodes[j]).start
}

/// Whether `node` is a token of `rule` that starts at `pos`: a node without
/// nodes inside that covers a piece of `s`.
pub open spec fn is_token(node: Tree, rule: Rule, s: Seq<char>, pos: int) -> bool {
    node.rule == rule && node.start == pos && spans(node, s) && node.inner.len() == 0
}

/// A run that matched is a token made of characters of the class, and the
/// character behind it is none of them.
pub proof fn lemma_run_at(rule: Rule, class: CharClass, s: Seq<char>, pos: int)
    requires
        0 <= pos <= s.len(),
    ensures
        run_at(rule, class, s, pos) matches Ok(node) ==> is_token(node, rule, s, pos) && all_in(
            node.text,
            class,
        ) && (node.end < s.len() ==> !class.contains(s[node.end])),
        run_at(rule, class, s, pos) is Err <==> !(pos < s.len() && class.contains(s[pos])),
{
    lemma_run_end(s, pos, class);
}

/// A unit that matched is a token that reads as one of the six units.
pub proof fn lemma_unit_at(s: Seq<char>, pos: int)
    requires
        0 <= pos <= s.len(),
    ensures
        unit_at(s, pos) matches Ok(node) ==> is_token(node, Rule::unit, s, pos) && is_unit(
            node.text,
        ),
{
}

/// An enclosed run that matched is a token: the opening delimiter, one or more
/// characters of the class, the closing delimiter.
pub proof fn lemma_enclosed_at(
    rule: Rule,
    open: char,
    class: CharClass,
    close: char,
    s: Seq<char>,
    pos: int,
)
    requires
        0 <= pos <= s.len(),
    ensures
        enclosed_at(rule, open, class, close, s, pos) matches Ok(node) ==> is_token(
            node,
            rule,
            s,
            pos,
        ) && node.end >= pos + 3 && s[pos] == open && s[node.end - 1] == close && all_in(
            s.subrange(pos + 1, node.end - 1),
            class,
        ),
        enclosed_at(rule, open, class, close, s, pos) matches Err(e) ==> pos <= e.position
            <= s.len() && e.expected == rule && (e.position > pos <==> pos < s.len() && s[pos]
            == open),
{
    if pos < s.len() {
        lemma_run_end(s, pos + 1, class);
    }
}

/// Whether `node` is an item of `s` that starts at `pos`: its fields are an
/// index, a name, a quantity and a unit, then perhaps a brand, then perhaps a
/// description; they stand in this order inside the item, the index at its
/// start and the last of them at its end.
#[verifier::opaque]
pub open spec fn is_item(node: Tree, s: Seq<char>, pos: int) -> bool {
    &&& node.rule == Rule::item
    &&& node.start == pos
    &&& spans(node, s)
    &&& 4 <= node.inner.len() <= 6
    &&& node.inner[0].rule == Rule::index
    &&& node.inner[1].rule == Rule::name
    &&& node.inner[2].rule == Rule::quantity
    &&& node.inner[3].rule == Rule::unit
    &&& node.inner.len() == 5 ==> node.inner[4].rule == Rule::brand || node.inner[4].rule
        == Rule::description
    &&& node.inner.len() == 6 ==> node.inner[4].rule == Rule::brand && node.inner[5].rule
        == Rule::description
    &&& forall|i: int|
        0 <= i < node.inner.len() ==> spans(#[trigger] node.inner[i], s)
            && node.inner[i].inner.len() == 0
    &&& in_order(node.inner)
    &&& node.inner[0].start == pos
    &&& node.inner.last().end == node.end
    &&& all_fields(node.inner)
}

/// An item that matched is an item in the sense of `is_item`, and an item that
/// did not match failed between `pos` and the end of the input, beyond `pos`
/// where a digit stands at `pos`.
pub proof fn lemma_item_at(s: Seq<char>, pos: int)
    requires
        0 <= pos <= s.len(),
    ensures
        item_at(s, pos) matches Ok(node) ==> is_item(node, s, pos) && node.rule == Rule::item
            && node.start == pos && spans(node, s) && all_fields(node.inner),
        item_at(s, pos) matches Err(e) ==> pos <= e.position <= s.len() && (e.position > pos
            <==> pos < s.len() && CharClass::Digit.contains(s[pos])),
{
    reveal(is_item);
    lemma_run_at(Rule::index, CharClass::Digit, s, pos);
    if let Ok(index) = index_at(s, pos) {
        lemma_run_end(s, index.end, CharClass::Separator);
        let dot = separators_end(s, index.end);
        if dot < s.len() && s[dot] == '.' {
            lemma_run_end(s, dot + 1, CharClass::Separator);
            let name_start = separators_end(s, dot + 1);
            lemma_run_at(Rule::name, CharClass::Name, s, name_start);
            if let Ok(name) = name_at(s, name_start) {
                lemma_run_end(s, name.end, CharClass::Separator);
                let quantity_start = separators_end(s, name.end);
                lemma_run_at(Rule::quantity, CharClass::Digit, s, quantity_start);
                if let Ok(quantity) = quantity_at(s, quantity_start) {
                    lemma_run_end(s, quantity.end, CharClass::Separator);
                    let unit_start = separators_end(s, quantity.end);
                    lemma_unit_at(s, unit_start);
                    if let Ok(unit) = unit_at(s, unit_start) {
                        let required = seq![index, name, quantity, unit];
                        lemma_run_end(s, unit.end, CharClass::Separator);
                        let brand_start = separators_end(s, unit.end);
                        lemma_enclosed_at(Rule::brand, '(', CharClass::Brand, ')', s, brand_start);
                        let with_brand = with_optional(required, brand_at(s, brand_start));
                        lemma_run_end(s, with_brand.last().end, CharClass::Separator);
                        let description_start = separators_end(s, with_brand.last().end);
                        lemma_enclosed_at(
                            Rule::description,
                            '{',
                            CharClass::Description,
                            '}',
                            s,
                            description_start,
                        );
                        let node = item_of_fields(s, pos, required);
                        assert(is_item(node, s, pos));
                    }
                }
            }
        }
    }
}

/// Whether `node` is a category or an item of `s` that starts at `pos`.
pub open spec fn is_entry(node: Tree, s: Seq<char>, pos: int) -> bool {
    &&& node.start == pos
    &&& spans(node, s)
    &&& is_token(node, Rule::category, s, pos) || is_item(node, s, pos)
}

/// An entry that matched is a category or an item.
pub proof fn lemma_entry_at(s: Seq<char>, pos: int)
    requires
        0 <= pos <= s.len(),
    ensures
        entry_at(s, pos) matches Ok(node) ==> is_entry(node, s, pos),
        entry_at(s, pos) matches Err(e) ==> pos <= e.position <= s.len(),
{
    lemma_enclosed_at(Rule::category, '[', CharClass::Category, ']', s, pos);
    lemma_item_at(s, pos);
}

/// Where the gap in front of the entry `i` starts: at `pos` for the first
/// entry, at the end of the entry before it for the others.
pub open spec fn gap_start(entries: Seq<Tree>, pos: int, i: int) -> int {
    if i <= 0 {
        pos
    } else {
        entries[i - 1].end
    }
}

/// Whether the entry `i` is the category or the item that `s` holds where the
/// entry starts, with nothing but separators in the gap in front of it.
pub open spec fn entry_fits(entries: Seq<Tree>, s: Seq<char>, pos: int, i: int) -> bool {
    &&& entry_at(s, entries[i].start) == Ok::<Tree, Mismatch>(entries[i])
    &&& is_entry(entries[i], s, entries[i].start)
    &&& gap_start(entries, pos, i) <= entries[i].start
    &&& all_in(s.subrange(gap_start(entries, pos, i), entries[i].start), CharClass::Separator)
}

/// Whether `entries` are the entries of `s` from `pos` on: categories and
/// items, one behind the other, with nothing but separators before, between
/// and behind them.
pub open spec fn are_entries(entries: Seq<Tree>, s: Seq<char>, pos: int) -> bool {
    &&& forall|i: int| 0 <= i < entries.len() ==> #[trigger] entry_fits(entries, s, pos, i)
    &&& gap_start(entries, pos, entries.len() as int) <= s.len()
    &&& all_in(
        s.subrange(gap_start(entries, pos, entries.len() as int), s.len() as int),
        CharClass::Separator,
    )
}

/// The entries that matched are the entries of the input.
pub proof fn lemma_entries_from(s: Seq<char>, pos: int)
    requires
        0 <= pos <= s.len(),
    ensures
        entries_from(s, pos) matches Ok(entries) ==> are_entries(entries, s, pos),
        entries_from(s, pos) matches Err(e) ==> pos <= e.position <= s.len(),
    decreases s.len() - pos,
{
    lemma_run_end(s, pos, CharClass::Separator);
    let at = separators_end(s, pos);
    if at < s.len() {
        lemma_entry_at(s, at);
        if let Ok(entry) = entry_at(s, at) {
            lemma_entries_from(s, entry.end);
            if let Ok(rest) = entries_from(s, entry.end) {
                let entries = seq![entry] + rest;
                assert(entries[0] == entry);
                assert forall|i: int| 0 <= i < entries.len() implies #[trigger] entry_fits(
                    entries,
                    s,
                    pos,
                    i,
                ) by {
                    if i > 0 {
                        assert(entries[i] == rest[i - 1]);
                        assert(entry_fits(rest, s, entry.end, i - 1));
                        if i > 1 {
                            assert(entries[i - 1] == rest[i - 2]);
                        }
                    }
                }
                if rest.len() > 0 {
                    assert(entries[entries.len() - 1] == rest[rest.len() - 1]);
                }
            }
        }
    }
}

/// Of two entries of an input the earlier one ends before the later one starts.
pub proof fn lemma_entries_ascend(entries: Seq<Tree>, s: Seq<char>, pos: int, i: int, j: int)
    requires
        are_entries(entries, s, pos),
        0 <= i < j < entries.len(),
    ensures
        entries[i].end <= entries[j].start,
    decreases j - i,
{
    assert(entry_fits(entries, s, pos, j));
    if i + 1 < j {
        lemma_entries_ascend(entries, s, pos, i, j - 1);
        assert(entry_fits(entries, s, pos, j - 1));
    }
}

/// In the entries of an input the nodes inside every item are fields of an
/// item, and the entries stand one behind the other.
pub proof fn lemma_entries_are_sound(entries: Seq<Tree>, s: Seq<char>, pos: int)
    requires
        are_entries(entries, s, pos),
    ensures
        forall|i: int|
            0 <= i < entries.len() && (#[trigger] entries[i]).rule == Rule::item ==> all_fields(
                entries[i].inner,
            ),
        in_order(entries),
{
    assert forall|i: int|
        0 <= i < entries.len() && (#[trigger] entries[i]).rule == Rule::item implies all_fields(
        entries[i].inner,
    ) by {
        assert(entry_fits(entries, s, pos, i));
        reveal(is_item);
    }
    assert forall|i: int, j: int| 0 <= i < j < entries.len() implies (#[trigger] entries[i]).end
        <= (#[trigger] entries[j]).start by {
        lemma_entries_ascend(entries, s, pos, i, j);
    }
}

} // verus!
