//! The recogniser: the executable form of the grammar.

use crate::chars::{chars_of, scan_run, text_of, CharClass};
use crate::grammar::{
    enclosed_at, entries_from, entry_at, item_at, leaf, recognize, run_at, separators_end,
    starts_with, unit_at, unit_len, with_optional,
};
use crate::shape::lemma_starts_with;
use crate::tree::{
    lemma_trees_push, lemma_view_inner, outcome, trees, Mismatch, Node, Rule, SyntaxError, Tree,
};
use vstd::prelude::*;

verus! {

/// What a recogniser of several nodes returns, with the nodes taken as trees.
pub open spec fn outcomes(r: Result<Vec<Node>, SyntaxError>) -> Result<Seq<Tree>, Mismatch> {
    match r {
        Ok(nodes) => Ok(trees(nodes@)),
        Err(e) => Err(e@),
    }
}

/// `front` put before the nodes of `rest`, where there are any.
pub open spec fn prepend(front: Seq<Tree>, rest: Result<Seq<Tree>, Mismatch>) -> Result<
    Seq<Tree>,
    Mismatch,
> {
    match rest {
        Ok(nodes) => Ok(front + nodes),
        Err(e) => Err(e),
    }
}

/// The node of a rule without rules inside that has matched from `start` to `end`.
fn leaf_node(chars: &Vec<char>, rule: Rule, start: usize, end: usize) -> (node: Node)
    requires
        start <= end <= chars.len(),
    ensures
        node@ == leaf(rule, chars@, start as int, end as int),
{
    let node = Node { rule, start, end, text: text_of(chars, start, end), inner: Vec::new() };
    proof {
        lemma_view_inner(node);
        assert(trees(node.inner@) =~= Seq::<Tree>::empty());
    }
    node
}

/// Matches one or more characters of `class` at `pos`.
fn match_run(chars: &Vec<char>, pos: usize, rule: Rule, class: CharClass) -> (r: Result<
    Node,
    SyntaxError,
>)
    requires
        pos <= chars.len(),
    ensures
        outcome(r) == run_at(rule, class, chars@, pos as int),
        r matches Ok(node) ==> node.start == pos && pos < node.end <= chars.len(),
{
    let end = scan_run(chars, pos, class);
    if end > pos {
        Ok(leaf_node(chars, rule, pos, end))
    } else {
        Err(SyntaxError { position: pos, expected: rule })
    }
}

/// Whether the character `c` stands at `at`.
fn holds_char(chars: &Vec<char>, at: usize, c: char) -> (b: bool)
    ensures
        b == (at < chars.len() && chars@[at as int] == c),
{
    at < chars.len() && chars[at] == c
}

/// Whether the two characters `a`, `b` stand at `pos`.
fn holds_two(chars: &Vec<char>, pos: usize, a: char, b: char) -> (found: bool)
    requires
        pos <= chars.len(),
    ensures
        found == starts_with(chars@, pos as int, seq![a, b]),
{
    proof {
        lemma_starts_with(chars@, pos as int, seq![a, b]);
    }
    let found = holds_char(chars, pos, a) && holds_char(chars, pos + 1, b);
    proof {
        let word = seq![a, b];
        assert(word[0] == a && word[1] == b);
    }
    found
}

/// Whether the three characters `a`, `b`, `c` stand at `pos`.
fn holds_three(chars: &Vec<char>, pos: usize, a: char, b: char, c: char) -> (found: bool)
    requires
        pos <= chars.len(),
    ensures
        found == starts_with(chars@, pos as int, seq![a, b, c]),
{
    proof {
        lemma_starts_with(chars@, pos as int, seq![a, b, c]);
    }
    let found = holds_char(chars, pos, a) && holds_char(chars, pos + 1, b) && holds_char(
        chars,
        pos + 2,
        c,
    );
    proof {
        let word = seq![a, b, c];
        assert(word[0] == a && word[1] == b && word[2] == c);
    }
    found
}

/// Matches a unit at `pos`.
fn match_unit(chars: &Vec<char>, pos: usize) -> (r: Result<Node, SyntaxError>)
    requires
        pos <= chars.len(),
    ensures
        outcome(r) == unit_at(chars@, pos as int),
        r matches Ok(node) ==> node.start == pos && pos < node.end <= chars.len(),
{
    proof {
        lemma_starts_with(chars@, pos as int, seq!['g']);
        assert(seq!['g'][0] == 'g');
    }
    let len: usize = if holds_two(chars, pos, 'k', 'g') {
        2
    } else if holds_char(chars, pos, 'g') {
        1
    } else if holds_three(chars, pos, 'l', 't', 'r') {
        3
    } else if holds_two(chars, pos, 'm', 'l') {
        2
    } else if holds_three(chars, pos, 'p', 'c', 's') {
        3
    } else if holds_two(chars, pos, 'o', 'z') {
        2
    } else {
        0
    };
    assert(len == unit_len(chars@, pos as int));
    if len > 0 {
        Ok(leaf_node(chars, Rule::unit, pos, pos + len))
    } else {
        Err(SyntaxError { position: pos, expected: Rule::unit })
    }
}

/// Matches one or more characters of `class` between `open` and `close` at `pos`.
fn match_enclosed(
    chars: &Vec<char>,
    pos: usize,
    rule: Rule,
    open: char,
    class: CharClass,
    close: char,
) -> (r: Result<Node, SyntaxError>)
    requires
        pos <= chars.len(),
    ensures
        outcome(r) == enclosed_at(rule, open, class, close, chars@, pos as int),
        r matches Ok(node) ==> node.start == pos && pos < node.end <= chars.len(),
{
    if !holds_char(chars, pos, open) {
        return Err(SyntaxError { position: pos, expected: rule });
    }
    let end = scan_run(chars, pos + 1, class);
    if end == pos + 1 {
        return Err(SyntaxError { position: pos + 1, expected: rule });
    }
    if !holds_char(chars, end, close) {
        return Err(SyntaxError { position: end, expected: rule });
    }
    Ok(leaf_node(chars, rule, pos, end + 1))
}

/// Matches an optional rule behind the fields of an item and the separators
/// that follow them, and adds its node to the fields where it matched.
fn match_optional(
    chars: &Vec<char>,
    fields: &mut Vec<Node>,
    end: usize,
    rule: Rule,
    open: char,
    class: CharClass,
    close: char,
) -> (next: usize)
    requires
        end <= chars.len(),
    ensures
        trees(final(fields)@) == with_optional(
            trees(old(fields)@),
            enclosed_at(rule, open, class, close, chars@, separators_end(chars@, end as int)),
        ),
        enclosed_at(rule, open, class, close, chars@, separators_end(chars@, end as int))
            matches Ok(node) ==> next == node.end,
        enclosed_at(rule, open, class, close, chars@, separators_end(chars@, end as int)) is Err
            ==> next == end,
        end <= next <= chars.len(),
{
    let at = scan_run(chars, end, CharClass::Separator);
    match match_enclosed(chars, at, rule, open, class, close) {
        Ok(node) => {
            let next = node.end;
            proof {
                lemma_trees_push(fields@, node);
            }
            fields.push(node);
            next
        },
        Err(_) => end,
    }
}

/// Matches an item at `pos`.
fn match_item(chars: &Vec<char>, pos: usize) -> (r: Result<Node, SyntaxError>)
    requires
        pos <= chars.len(),
    ensures
        outcome(r) == item_at(chars@, pos as int),
        r matches Ok(node) ==> node.start == pos && pos < node.end <= chars.len(),
{
    let index = match match_run(chars, pos, Rule::index, CharClass::Digit) {
        Ok(node) => node,
        Err(e) => {
            return Err(e);
        },
    };
    let dot = scan_run(chars, index.end, CharClass::Separator);
    if !holds_char(chars, dot, '.') {
        return Err(SyntaxError { position: dot, expected: Rule::item });
    }
    let name_start = scan_run(chars, dot + 1, CharClass::Separator);
    let name = match match_run(chars, name_start, Rule::name, CharClass::Name) {
        Ok(node) => node,
        Err(e) => {
            return Err(e);
        },
    };
    let quantity_start = scan_run(chars, name.end, CharClass::Separator);
    let quantity = match match_run(chars, quantity_start, Rule::quantity, CharClass::Digit) {
        Ok(node) => node,
        Err(e) => {
            return Err(e);
        },
    };
    let unit_start = scan_run(chars, quantity.end, CharClass::Separator);
    let unit = match match_unit(chars, unit_start) {
        Ok(node) => node,
        Err(e) => {
            return Err(e);
        },
    };
    let ghost required = seq![index@, name@, quantity@, unit@];
    let unit_end = unit.end;
    let mut fields: Vec<Node> = Vec::new();
    proof {
        lemma_trees_push(fields@, index);
        lemma_trees_push(fields@.push(index), name);
        lemma_trees_push(fields@.push(index).push(name), quantity);
        lemma_trees_push(fields@.push(index).push(name).push(quantity), unit);
        assert(trees(fields@) =~= Seq::<Tree>::empty());
        assert(Seq::<Tree>::empty().push(index@).push(name@).push(quantity@).push(unit@)
            =~= required);
    }
    fields.push(index);
    fields.push(name);
    fields.push(quantity);
    fields.push(unit);
    assert(trees(fields@) == required);
    let brand_end = match_optional(
        chars,
        &mut fields,
        unit_end,
        Rule::brand,
        '(',
        CharClass::Brand,
        ')',
    );
    let ghost with_brand = trees(fields@);
    assert(with_brand.last().end == brand_end);
    let end = match_optional(
        chars,
        &mut fields,
        brand_end,
        Rule::description,
        '{',
        CharClass::Description,
        '}',
    );
    assert(trees(fields@).last().end == end);
    let text = text_of(chars, pos, end);
    let node = Node { rule: Rule::item, start: pos, end, text, inner: fields };
    proof {
        lemma_view_inner(node);
    }
    Ok(node)
}

/// Matches a category or an item at `pos`.
fn match_entry(chars: &Vec<char>, pos: usize) -> (r: Result<Node, SyntaxError>)
    requires
        pos <= chars.len(),
    ensures
        outcome(r) == entry_at(chars@, pos as int),
        r matches Ok(node) ==> node.start == pos && pos < node.end <= chars.len(),
{
    match match_enclosed(chars, pos, Rule::category, '[', CharClass::Category, ']') {
        Ok(category) => Ok(category),
        Err(in_category) => match match_item(chars, pos) {
            Ok(item) => Ok(item),
            Err(in_item) => if in_category.position > pos {
                Err(in_category)
            } else if in_item.position > pos {
                Err(in_item)
            } else {
                Err(SyntaxError { position: pos, expected: Rule::shopping_list })
            },
        },
    }
}

/// Matches the entries of the whole input.
fn match_entries(chars: &Vec<char>) -> (r: Result<Vec<Node>, SyntaxError>)
    ensures
        outcomes(r) == entries_from(chars@, 0),
{
    let mut entries: Vec<Node> = Vec::new();
    let mut pos: usize = 0;
    proof {
        assert(trees(entries@) =~= Seq::<Tree>::empty());
        lemma_prepend_nothing(entries_from(chars@, 0));
    }
    loop
        invariant
            pos <= chars.len(),
            prepend(trees(entries@), entries_from(chars@, pos as int)) == entries_from(chars@, 0),
        decreases chars.len() - pos,
    {
        let at = scan_run(chars, pos, CharClass::Separator);
        if at >= chars.len() {
            proof {
                assert(trees(entries@) + Seq::<Tree>::empty() =~= trees(entries@));
            }
            return Ok(entries);
        }
        match match_entry(chars, at) {
            Err(e) => {
                return Err(e);
            },
            Ok(entry) => {
                proof {
                    lemma_trees_push(entries@, entry);
                    let rest = entries_from(chars@, entry.end as int);
                    if let Ok(nodes) = rest {
                        assert(trees(entries@) + (seq![entry@] + nodes) =~= trees(entries@).push(
                            entry@,
                        ) + nodes);
                    }
                }
                pos = entry.end;
                entries.push(entry);
            },
        }
    }
}

/// Nothing put before the nodes changes nothing.
proof fn lemma_prepend_nothing(rest: Result<Seq<Tree>, Mismatch>)
    ensures
        prepend(Seq::empty(), rest) == rest,
{
    if let Ok(nodes) = rest {
        assert(Seq::<Tree>::empty() + nodes =~= nodes);
    }
}

/// The recogniser of the notation.
pub struct Grammar;

impl Grammar {
    /// Matches `rule` at the start of `input` and returns its node, with the
    /// nodes of the rules matched inside it. All rules but the shopping list
    /// may leave input behind them unread.
    pub fn parse(rule: Rule, input: &str) -> (r: Result<Vec<Node>, SyntaxError>)
        ensures
            outcomes(r) == recognize(rule, input@),
    {
        let chars = chars_of(input);
        Grammar::parse_chars(rule, &chars)
    }

    /// Matches `rule` at the start of an input given by its characters.
    pub(crate) fn parse_chars(rule: Rule, chars: &Vec<char>) -> (r: Result<Vec<Node>, SyntaxError>)
        ensures
            outcomes(r) == recognize(rule, chars@),
    {
        let matched = match rule {
            Rule::index => match_run(chars, 0, Rule::index, CharClass::Digit),
            Rule::name => match_run(chars, 0, Rule::name, CharClass::Name),
            Rule::quantity => match_run(chars, 0, Rule::quantity, CharClass::Digit),
            Rule::unit => match_unit(chars, 0),
            Rule::brand => match_enclosed(chars, 0, Rule::brand, '(', CharClass::Brand, ')'),
            Rule::description => match_enclosed(
                chars,
                0,
                Rule::description,
                '{',
                CharClass::Description,
                '}',
            ),
            Rule::category => match_enclosed(
                chars,
                0,
                Rule::category,
                '[',
                CharClass::Category,
                ']',
            ),
            Rule::item => match_item(chars, 0),
            Rule::shopping_list => match match_entries(chars) {
                Err(e) => Err(e),
                Ok(entries) => {
                    let node = Node {
                        rule: Rule::shopping_list,
                        start: 0,
                        end: chars.len(),
                        text: text_of(chars, 0, chars.len()),
                        inner: entries,
                    };
                    proof {
                        lemma_view_inner(node);
                        assert(chars@.subrange(0, chars.len() as int) =~= chars@);
                    }
                    Ok(node)
                },
            },
        };
        match matched {
            Err(e) => Err(e),
            Ok(node) => {
                let mut nodes: Vec<Node> = Vec::new();
                proof {
                    lemma_trees_push(nodes@, node);
                    assert(trees(nodes@).push(node@) =~= seq![node@]);
                }
                nodes.push(node);
                Ok(nodes)
            },
        }
    }
}

} // verus!
