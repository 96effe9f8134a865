//! Items put together from their tokens, with or without separators between
//! them: what the recogniser makes of such a text.

use crate::chars::{
    all_in, is_digit, is_letter, lemma_run_end, lemma_run_end_unique, run_end, CharClass,
};
use crate::document::{blank_item, item_from, with_field, Item};
use crate::grammar::{
    brand_at, description_at, enclosed_at, index_at, is_unit, item_at, item_of_fields, leaf,
    name_at, quantity_at, recognize, run_at, separators_end, starts_with, unit_at, with_optional,
};
use crate::number::{index_value, quantity_value, NumberError};
use crate::shape::{lemma_enclosed_at, lemma_run_at, lemma_starts_with, lemma_unit_at};
use crate::tree::{Mismatch, Rule, Tree};
use vstd::prelude::*;

verus! {

/// A text that starts with `a + b` starts with `a` and goes on with `b`, and
/// the other way round.
pub proof fn lemma_starts_with_both(s: Seq<char>, pos: int, a: Seq<char>, b: Seq<char>)
    requires
        0 <= pos,
    ensures
        starts_with(s, pos, a + b) <==> starts_with(s, pos, a) && starts_with(s, pos + a.len(), b),
{
    lemma_starts_with(s, pos, a + b);
    lemma_starts_with(s, pos, a);
    lemma_starts_with(s, pos + a.len(), b);
    if starts_with(s, pos, a + b) {
        assert forall|i: int| 0 <= i < a.len() implies s[pos + i] == #[trigger] a[i] by {
            assert((a + b)[i] == a[i]);
        }
        assert forall|i: int| 0 <= i < b.len() implies s[pos + a.len() + i] == #[trigger] b[i] by {
            assert((a + b)[a.len() + i] == b[i]);
        }
    }
    if starts_with(s, pos, a) && starts_with(s, pos + a.len(), b) {
        let both = a + b;
        assert forall|i: int| 0 <= i < both.len() implies s[pos + i] == #[trigger] both[i] by {
            if i >= a.len() {
                assert(b[i - a.len()] == both[i]);
            }
        }
    }
}

/// The first character of a word that stands at `pos` is the character at `pos`.
pub proof fn lemma_starts_with_first(s: Seq<char>, pos: int, word: Seq<char>)
    requires
        0 <= pos,
        starts_with(s, pos, word),
        word.len() > 0,
    ensures
        pos < s.len(),
        s[pos] == word[0],
{
    lemma_starts_with(s, pos, word);
}

/// A run goes through a word of its class that stands at `pos`.
pub proof fn lemma_run_through(s: Seq<char>, pos: int, word: Seq<char>, class: CharClass)
    requires
        0 <= pos,
        starts_with(s, pos, word),
        all_in(word, class),
    ensures
        run_end(s, pos, class) == run_end(s, pos + word.len(), class),
{
    lemma_starts_with(s, pos, word);
    let mid = pos + word.len();
    lemma_run_end(s, mid, class);
    let end = run_end(s, mid, class);
    assert forall|i: int| pos <= i < end implies class.contains(#[trigger] s[i]) by {
        if i < mid {
            assert(s[pos + (i - pos)] == word[i - pos]);
        } else {
            assert(s.subrange(mid, end)[i - mid] == s[i]);
        }
    }
    lemma_run_end_unique(s, pos, class, end);
}

/// A run that starts at the end of the input, or at a character that is not of
/// its class, is empty.
pub proof fn lemma_run_stops(s: Seq<char>, pos: int, class: CharClass)
    requires
        !(0 <= pos < s.len() && class.contains(s[pos])),
    ensures
        run_end(s, pos, class) == pos,
{
}

/// A word of one class that stands at `pos`, with no character of the class
/// behind it, is what a run of the class matches there.
pub proof fn lemma_run_at_word(
    rule: Rule,
    class: CharClass,
    s: Seq<char>,
    pos: int,
    word: Seq<char>,
)
    requires
        0 <= pos,
        starts_with(s, pos, word),
        word.len() > 0,
        all_in(word, class),
        !(pos + word.len() < s.len() && class.contains(s[pos + word.len()])),
    ensures
        run_at(rule, class, s, pos) == Ok::<Tree, Mismatch>(leaf(rule, s, pos, pos + word.len())),
        s.subrange(pos, pos + word.len()) == word,
{
    lemma_run_through(s, pos, word, class);
    lemma_run_stops(s, pos + word.len(), class);
}

/// Separators that stand at `pos`, with no separator behind them, are skipped.
pub proof fn lemma_skip_gap(s: Seq<char>, pos: int, gap: Seq<char>)
    requires
        0 <= pos,
        starts_with(s, pos, gap),
        all_in(gap, CharClass::Separator),
        !(pos + gap.len() < s.len() && CharClass::Separator.contains(s[pos + gap.len()])),
    ensures
        separators_end(s, pos) == pos + gap.len(),
{
    lemma_run_through(s, pos, gap, CharClass::Separator);
    lemma_run_stops(s, pos + gap.len(), CharClass::Separator);
}

/// A unit that stands at `pos` is what the rule of the units matches there.
pub proof fn lemma_unit_at_word(s: Seq<char>, pos: int, word: Seq<char>)
    requires
        0 <= pos,
        starts_with(s, pos, word),
        is_unit(word),
    ensures
        unit_at(s, pos) == Ok::<Tree, Mismatch>(leaf(Rule::unit, s, pos, pos + word.len())),
        s.subrange(pos, pos + word.len()) == word,
{
    lemma_starts_with(s, pos, word);
    lemma_starts_with(s, pos, seq!['k', 'g']);
    lemma_starts_with(s, pos, seq!['g']);
    lemma_starts_with(s, pos, seq!['l', 't', 'r']);
    lemma_starts_with(s, pos, seq!['m', 'l']);
    lemma_starts_with(s, pos, seq!['p', 'c', 's']);
    lemma_starts_with(s, pos, seq!['o', 'z']);
    let kg = seq!['k', 'g'];
    let g = seq!['g'];
    let ltr = seq!['l', 't', 'r'];
    let ml = seq!['m', 'l'];
    let pcs = seq!['p', 'c', 's'];
    let oz = seq!['o', 'z'];
    assert(kg[0] == 'k' && g[0] == 'g' && ltr[0] == 'l' && ml[0] == 'm' && pcs[0] == 'p' && oz[0]
        == 'o');
    assert(s[pos + 0] == word[0]);
}

/// Whether `word` is one or more characters of `class` between `open` and
/// `close`.
pub open spec fn is_enclosed(word: Seq<char>, open: char, class: CharClass, close: char) -> bool {
    &&& word.len() >= 3
    &&& word[0] == open
    &&& word.last() == close
    &&& all_in(word.subrange(1, word.len() - 1), class)
}

/// An enclosed word that stands at `pos` is what the rule of its delimiters
/// matches there.
pub proof fn lemma_enclosed_at_word(
    rule: Rule,
    open: char,
    class: CharClass,
    close: char,
    s: Seq<char>,
    pos: int,
    word: Seq<char>,
)
    requires
        0 <= pos,
        starts_with(s, pos, word),
        is_enclosed(word, open, class, close),
        !class.contains(close),
    ensures
        enclosed_at(rule, open, class, close, s, pos) == Ok::<Tree, Mismatch>(
            leaf(rule, s, pos, pos + word.len()),
        ),
        s.subrange(pos, pos + word.len()) == word,
{
    lemma_starts_with(s, pos, word);
    let inside = word.subrange(1, word.len() - 1);
    let end = pos + word.len() - 1;
    assert(s[pos + 0] == word[0]);
    assert(s[pos + (word.len() - 1)] == word[word.len() - 1]);
    assert forall|i: int| pos + 1 <= i < end implies class.contains(#[trigger] s[i]) by {
        assert(s[pos + (i - pos)] == word[i - pos]);
        assert(inside[i - pos - 1] == word[i - pos]);
    }
    lemma_run_end_unique(s, pos + 1, class, end);
}

/// The tokens of an item, each as it is written.
pub ghost struct Tokens {
    pub index: Seq<char>,
    pub name: Seq<char>,
    pub quantity: Seq<char>,
    pub unit: Seq<char>,
    pub brand: Option<Seq<char>>,
    pub description: Option<Seq<char>>,
}

/// The separators between the tokens of an item.
pub ghost struct Gaps {
    pub after_index: Seq<char>,
    pub after_dot: Seq<char>,
    pub after_name: Seq<char>,
    pub after_quantity: Seq<char>,
    pub before_brand: Seq<char>,
    pub before_description: Seq<char>,
}

/// Whether `text` is one or more digits.
pub open spec fn is_number_text(text: Seq<char>) -> bool {
    text.len() > 0 && all_in(text, CharClass::Digit)
}

/// Whether `text` is a name: one or more letters, spaces and hyphens, the first
/// of them no space.
pub open spec fn is_name_text(text: Seq<char>) -> bool {
    text.len() > 0 && all_in(text, CharClass::Name) && text[0] != ' '
}

/// Whether `text` is a brand with its parentheses.
pub open spec fn is_brand_text(text: Seq<char>) -> bool {
    is_enclosed(text, '(', CharClass::Brand, ')')
}

/// Whether `text` is a description with its braces.
pub open spec fn is_description_text(text: Seq<char>) -> bool {
    is_enclosed(text, '{', CharClass::Description, '}')
}

/// Whether each of the tokens is written as its rule asks.
pub open spec fn tokens_ok(t: Tokens) -> bool {
    &&& is_number_text(t.index)
    &&& is_name_text(t.name)
    &&& is_number_text(t.quantity)
    &&& is_unit(t.unit)
    &&& t.brand matches Some(brand) ==> is_brand_text(brand)
    &&& t.description matches Some(description) ==> is_description_text(description)
}

/// Whether each of the gaps holds separators only.
pub open spec fn gaps_ok(g: Gaps) -> bool {
    &&& all_in(g.after_index, CharClass::Separator)
    &&& all_in(g.after_dot, CharClass::Separator)
    &&& all_in(g.after_name, CharClass::Separator)
    &&& all_in(g.after_quantity, CharClass::Separator)
    &&& all_in(g.before_brand, CharClass::Separator)
    &&& all_in(g.before_description, CharClass::Separator)
}

/// The gaps that hold nothing.
pub open spec fn no_gaps() -> Gaps {
    Gaps {
        after_index: Seq::empty(),
        after_dot: Seq::empty(),
        after_name: Seq::empty(),
        after_quantity: Seq::empty(),
        before_brand: Seq::empty(),
        before_description: Seq::empty(),
    }
}

/// An optional token with the gap in front of it; nothing where there is no
/// token.
pub open spec fn optional_part(gap: Seq<char>, token: Option<Seq<char>>) -> Seq<char> {
    match token {
        Some(text) => gap + text,
        None => Seq::empty(),
    }
}

/// The item from its index up to its unit, with the gaps between them.
pub open spec fn spaced_head(t: Tokens, g: Gaps) -> Seq<char> {
    t.index + (g.after_index + (seq!['.'] + (g.after_dot + (t.name + (g.after_name + (t.quantity
        + (g.after_quantity + t.unit)))))))
}

/// What follows the unit: the brand and the description, where the item has
/// them, each with its gap in front.
pub open spec fn spaced_tail(t: Tokens, g: Gaps) -> Seq<char> {
    optional_part(g.before_brand, t.brand) + optional_part(g.before_description, t.description)
}

/// The item written out: its tokens in their order with the gaps between them.
pub open spec fn spaced(t: Tokens, g: Gaps) -> Seq<char> {
    spaced_head(t, g) + spaced_tail(t, g)
}

/// The spaces at the start of the gap behind a name. They belong to the
/// characters of a name, so the name takes them in.
pub open spec fn absorbed(gap: Seq<char>) -> Seq<char> {
    gap.take(run_end(gap, 0, CharClass::Name))
}

/// Where the tokens of an item that is written out from `pos` on start and end.
pub ghost struct Places {
    pub index_end: int,
    pub dot: int,
    pub name_start: int,
    pub name_end: int,
    pub quantity_start: int,
    pub quantity_end: int,
    pub unit_start: int,
    pub unit_end: int,
}

/// The places of the tokens `t`, written out from `pos` on with the gaps `g`.
pub open spec fn places(pos: int, t: Tokens, g: Gaps) -> Places {
    let index_end = pos + t.index.len();
    let dot = index_end + g.after_index.len();
    let name_start = dot + 1 + g.after_dot.len();
    let name_end = name_start + t.name.len() + absorbed(g.after_name).len();
    let quantity_start = name_start + t.name.len() + g.after_name.len();
    let quantity_end = quantity_start + t.quantity.len();
    let unit_start = quantity_end + g.after_quantity.len();
    let unit_end = unit_start + t.unit.len();
    Places {
        index_end,
        dot,
        name_start,
        name_end,
        quantity_start,
        quantity_end,
        unit_start,
        unit_end,
    }
}

/// The four fields that every item has, for an item written out from `pos` on.
pub open spec fn required_fields(s: Seq<char>, pos: int, t: Tokens, g: Gaps) -> Seq<Tree> {
    let at = places(pos, t, g);
    seq![
        leaf(Rule::index, s, pos, at.index_end),
        leaf(Rule::name, s, at.name_start, at.name_end),
        leaf(Rule::quantity, s, at.quantity_start, at.quantity_end),
        leaf(Rule::unit, s, at.unit_start, at.unit_end),
    ]
}

/// A name is not a separator at its start, a number is a digit, and a unit is
/// a letter.
proof fn lemma_first_characters(t: Tokens)
    requires
        tokens_ok(t),
    ensures
        is_digit(t.index[0]),
        CharClass::Name.contains(t.name[0]) && !CharClass::Separator.contains(t.name[0]),
        is_digit(t.quantity[0]),
        is_letter(t.unit[0]),
        t.unit.len() > 0,
{
    assert(CharClass::Digit.contains(t.index[0]));
    assert(CharClass::Digit.contains(t.quantity[0]));
    assert(CharClass::Name.contains(t.name[0]));
    let kg = seq!['k', 'g'];
    let g = seq!['g'];
    let ltr = seq!['l', 't', 'r'];
    let ml = seq!['m', 'l'];
    let pcs = seq!['p', 'c', 's'];
    let oz = seq!['o', 'z'];
    assert(kg[0] == 'k' && g[0] == 'g' && ltr[0] == 'l' && ml[0] == 'm' && pcs[0] == 'p' && oz[0]
        == 'o');
}

/// The first character of a gap and what follows it: a separator, or the first
/// character of what follows.
proof fn lemma_first_after_gap(gap: Seq<char>, next: Seq<char>)
    requires
        all_in(gap, CharClass::Separator),
        next.len() > 0,
    ensures
        (gap + next).len() > 0,
        CharClass::Separator.contains((gap + next)[0]) || (gap + next)[0] == next[0],
{
    if gap.len() > 0 {
        assert((gap + next)[0] == gap[0]);
    } else {
        assert((gap + next)[0] == next[0]);
    }
}

/// The recogniser on the index and the dot of an item that is written out.
proof fn lemma_head_index(s: Seq<char>, pos: int, t: Tokens, g: Gaps, rest: Seq<char>)
    requires
        0 <= pos,
        tokens_ok(t),
        gaps_ok(g),
        starts_with(s, pos, t.index + (g.after_index + (seq!['.'] + rest))),
    ensures
        index_at(s, pos) == Ok::<Tree, Mismatch>(
            leaf(Rule::index, s, pos, places(pos, t, g).index_end),
        ),
        s.subrange(pos, places(pos, t, g).index_end) == t.index,
        separators_end(s, places(pos, t, g).index_end) == places(pos, t, g).dot,
        places(pos, t, g).dot < s.len(),
        s[places(pos, t, g).dot] == '.',
        starts_with(s, places(pos, t, g).dot + 1, rest),
{
    let dotted = seq!['.'] + rest;
    let after = g.after_index + dotted;
    let at = places(pos, t, g);
    lemma_starts_with_both(s, pos, t.index, after);
    lemma_starts_with_both(s, at.index_end, g.after_index, dotted);
    lemma_starts_with_both(s, at.dot, seq!['.'], rest);
    assert(dotted[0] == '.');
    lemma_first_after_gap(g.after_index, dotted);
    lemma_starts_with_first(s, at.index_end, after);
    lemma_starts_with_first(s, at.dot, dotted);
    lemma_run_at_word(Rule::index, CharClass::Digit, s, pos, t.index);
    lemma_skip_gap(s, at.index_end, g.after_index);
}

/// The recogniser on the name of an item that is written out, and on the gap
/// behind it.
proof fn lemma_head_name(s: Seq<char>, from: int, t: Tokens, g: Gaps, rest: Seq<char>)
    requires
        0 <= from,
        tokens_ok(t),
        gaps_ok(g),
        starts_with(s, from, g.after_dot + (t.name + (g.after_name + rest))),
        rest.len() > 0,
        is_digit(rest[0]),
    ensures
        ({
            let name_start = from + g.after_dot.len();
            let name_end = name_start + t.name.len() + absorbed(g.after_name).len();
            let quantity_start = name_start + t.name.len() + g.after_name.len();
            &&& separators_end(s, from) == name_start
            &&& name_at(s, name_start) == Ok::<Tree, Mismatch>(
                leaf(Rule::name, s, name_start, name_end),
            )
            &&& s.subrange(name_start, name_end) == t.name + absorbed(g.after_name)
            &&& separators_end(s, name_end) == quantity_start
            &&& starts_with(s, quantity_start, rest)
        }),
{
    let gap = g.after_name;
    let tail = gap + rest;
    let named = t.name + tail;
    let name_start = from + g.after_dot.len();
    let mid = name_start + t.name.len();
    let taken = absorbed(gap);
    let left = gap.skip(taken.len() as int);
    let name_end = mid + taken.len();
    let quantity_start = mid + gap.len();
    lemma_first_characters(t);
    lemma_starts_with_both(s, from, g.after_dot, named);
    lemma_starts_with_both(s, name_start, t.name, tail);
    lemma_starts_with_both(s, mid, gap, rest);
    assert(named[0] == t.name[0]);
    lemma_starts_with_first(s, name_start, named);
    lemma_skip_gap(s, from, g.after_dot);
    // The name takes in the spaces at the start of the gap.
    lemma_run_end(gap, 0, CharClass::Name);
    assert(gap =~= taken + left);
    assert(taken =~= gap.subrange(0, taken.len() as int));
    lemma_starts_with_both(s, mid, taken, left);
    lemma_starts_with_both(s, name_start, t.name, taken);
    let whole = t.name + taken;
    assert(all_in(whole, CharClass::Name)) by {
        assert forall|i: int| 0 <= i < whole.len() implies CharClass::Name.contains(
            #[trigger] whole[i],
        ) by {
            if i < t.name.len() {
                assert(whole[i] == t.name[i]);
            } else {
                assert(whole[i] == taken[i - t.name.len()]);
            }
        }
    }
    lemma_starts_with_first(s, quantity_start, rest);
    assert(!(name_end < s.len() && CharClass::Name.contains(s[name_end]))) by {
        if taken.len() < gap.len() {
            lemma_starts_with(s, mid, gap);
            assert(s[mid + taken.len()] == gap[taken.len() as int]);
        }
    }
    lemma_run_at_word(Rule::name, CharClass::Name, s, name_start, whole);
    assert(all_in(left, CharClass::Separator)) by {
        assert forall|i: int| 0 <= i < left.len() implies CharClass::Separator.contains(
            #[trigger] left[i],
        ) by {
            assert(left[i] == gap[taken.len() + i]);
        }
    }
    lemma_skip_gap(s, name_end, left);
}

/// The recogniser on the quantity and the unit of an item that is written out.
proof fn lemma_head_quantity(s: Seq<char>, from: int, t: Tokens, g: Gaps)
    requires
        0 <= from,
        tokens_ok(t),
        gaps_ok(g),
        starts_with(s, from, t.quantity + (g.after_quantity + t.unit)),
    ensures
        ({
            let quantity_end = from + t.quantity.len();
            let unit_start = quantity_end + g.after_quantity.len();
            let unit_end = unit_start + t.unit.len();
            &&& quantity_at(s, from) == Ok::<Tree, Mismatch>(
                leaf(Rule::quantity, s, from, quantity_end),
            )
            &&& s.subrange(from, quantity_end) == t.quantity
            &&& separators_end(s, quantity_end) == unit_start
            &&& unit_at(s, unit_start) == Ok::<Tree, Mismatch>(
                leaf(Rule::unit, s, unit_start, unit_end),
            )
            &&& s.subrange(unit_start, unit_end) == t.unit
            &&& unit_end <= s.len()
        }),
{
    let after = g.after_quantity + t.unit;
    let quantity_end = from + t.quantity.len();
    let unit_start = quantity_end + g.after_quantity.len();
    lemma_first_characters(t);
    lemma_starts_with_both(s, from, t.quantity, after);
    lemma_starts_with_both(s, quantity_end, g.after_quantity, t.unit);
    lemma_first_after_gap(g.after_quantity, t.unit);
    lemma_starts_with_first(s, quantity_end, after);
    lemma_starts_with_first(s, unit_start, t.unit);
    lemma_run_at_word(Rule::quantity, CharClass::Digit, s, from, t.quantity);
    lemma_skip_gap(s, quantity_end, g.after_quantity);
    lemma_unit_at_word(s, unit_start, t.unit);
}

/// Whether what stands in the input from `end` on cannot be taken for an
/// annotation that the item does not have: behind the separators that follow
/// `end` stands no brace where the item has no description, and no parenthesis
/// either where it has no brand.
pub open spec fn closes_item(s: Seq<char>, end: int, t: Tokens) -> bool {
    let next = separators_end(s, end);
    t.description is None ==> !(next < s.len() && (s[next] == '{' || (t.brand is None && s[next]
        == '(')))
}

/// The fields of an item that is written out from `pos` on.
pub open spec fn spaced_fields(s: Seq<char>, pos: int, t: Tokens, g: Gaps) -> Seq<Tree> {
    let unit_end = places(pos, t, g).unit_end;
    let brand_start = unit_end + g.before_brand.len();
    let with_brand = match t.brand {
        Some(brand) => required_fields(s, pos, t, g).push(
            leaf(Rule::brand, s, brand_start, brand_start + brand.len()),
        ),
        None => required_fields(s, pos, t, g),
    };
    let description_start = unit_end + optional_part(g.before_brand, t.brand).len()
        + g.before_description.len();
    match t.description {
        Some(description) => with_brand.push(
            leaf(Rule::description, s, description_start, description_start + description.len()),
        ),
        None => with_brand,
    }
}

/// The node of an item that is written out from `pos` on.
pub open spec fn spaced_item(s: Seq<char>, pos: int, t: Tokens, g: Gaps) -> Tree {
    Tree {
        rule: Rule::item,
        start: pos,
        end: pos + spaced(t, g).len(),
        text: s.subrange(pos, pos + spaced(t, g).len()),
        inner: spaced_fields(s, pos, t, g),
    }
}

/// The tokens as the recogniser reads them where the gaps are `g`: each as it
/// is written, but for the name, which takes in the spaces that follow it.
pub open spec fn as_read(t: Tokens, g: Gaps) -> Tokens {
    Tokens { name: t.name + absorbed(g.after_name), ..t }
}

/// The texts of the fields of an item with the tokens `t`, in their order.
pub open spec fn field_texts(t: Tokens) -> Seq<Seq<char>> {
    let required = seq![t.index, t.name, t.quantity, t.unit];
    let with_brand = match t.brand {
        Some(brand) => required.push(brand),
        None => required,
    };
    match t.description {
        Some(description) => with_brand.push(description),
        None => with_brand,
    }
}

/// The rules of the fields of an item with the tokens `t`.
pub open spec fn field_rules(t: Tokens) -> Seq<Rule> {
    let required = seq![Rule::index, Rule::name, Rule::quantity, Rule::unit];
    let with_brand = match t.brand {
        Some(_) => required.push(Rule::brand),
        None => required,
    };
    match t.description {
        Some(_) => with_brand.push(Rule::description),
        None => with_brand,
    }
}

/// Whether `fields` are the fields of an item with the tokens `t`: one field
/// for each token, of its rule and with its text.
pub open spec fn holds_tokens(fields: Seq<Tree>, t: Tokens) -> bool {
    &&& fields.len() == field_texts(t).len()
    &&& fields.len() == field_rules(t).len()
    &&& forall|i: int|
        0 <= i < fields.len() ==> (#[trigger] fields[i]).text == field_texts(t)[i] && fields[i].rule
            == field_rules(t)[i]
}

/// The item that the tokens `t` describe: the index and the quantity read as
/// numbers, the index first, everything else as it is written.
pub open spec fn record_of(t: Tokens) -> Result<Item, NumberError> {
    match index_value(t.index) {
        Err(e) => Err(e),
        Ok(index) => match quantity_value(t.quantity) {
            Err(e) => Err(e),
            Ok(quantity) => Ok(
                Item {
                    index,
                    name: t.name,
                    quantity,
                    unit: t.unit,
                    brand: t.brand,
                    description: t.description,
                },
            ),
        },
    }
}

/// The item that the first `k + 1` fields describe is the item that the first
/// `k` fields describe with what the next field says of it.
proof fn lemma_item_from_next(fields: Seq<Tree>, k: int)
    requires
        0 <= k < fields.len(),
    ensures
        item_from(fields.take(k + 1)) == match item_from(fields.take(k)) {
            Ok(item) => with_field(item, fields[k]),
            Err(e) => Err(e),
        },
{
    assert(fields.take(k + 1).drop_last() =~= fields.take(k));
    assert(fields.take(k + 1).last() == fields[k]);
}

/// The fields of an item with the tokens `t` describe the item of these tokens.
pub proof fn lemma_item_from_tokens(fields: Seq<Tree>, t: Tokens)
    requires
        holds_tokens(fields, t),
    ensures
        item_from(fields) == record_of(t),
{
    let texts = field_texts(t);
    let rules = field_rules(t);
    assert(fields.take(0) =~= Seq::<Tree>::empty());
    assert(item_from(fields.take(0)) == Ok::<Item, NumberError>(blank_item()));
    assert(fields[0].text == t.index && fields[0].rule == Rule::index) by {
        assert(texts[0] == t.index && rules[0] == Rule::index);
    }
    lemma_item_from_next(fields, 0);
    assert(fields[1].text == t.name && fields[1].rule == Rule::name) by {
        assert(texts[1] == t.name && rules[1] == Rule::name);
    }
    lemma_item_from_next(fields, 1);
    assert(fields[2].text == t.quantity && fields[2].rule == Rule::quantity) by {
        assert(texts[2] == t.quantity && rules[2] == Rule::quantity);
    }
    lemma_item_from_next(fields, 2);
    assert(fields[3].text == t.unit && fields[3].rule == Rule::unit) by {
        assert(texts[3] == t.unit && rules[3] == Rule::unit);
    }
    lemma_item_from_next(fields, 3);
    let required = Tokens { brand: None, description: None, ..t };
    assert(item_from(fields.take(4)) == record_of(required));
    if fields.len() > 4 {
        assert(fields[4].text == texts[4] && fields[4].rule == rules[4]);
        lemma_item_from_next(fields, 4);
    }
    if fields.len() > 5 {
        assert(fields[5].text == texts[5] && fields[5].rule == rules[5]);
        lemma_item_from_next(fields, 5);
    }
    assert(fields.take(fields.len() as int) =~= fields);
}

/// The recogniser on what follows the unit of an item that is written out.
proof fn lemma_tail(s: Seq<char>, from: int, t: Tokens, g: Gaps)
    requires
        0 <= from,
        tokens_ok(t),
        gaps_ok(g),
        starts_with(s, from, spaced_tail(t, g)),
        closes_item(s, from + spaced_tail(t, g).len(), t),
    ensures
        ({
            let brand_start = from + g.before_brand.len();
            let after_brand = from + optional_part(g.before_brand, t.brand).len();
            let description_start = after_brand + g.before_description.len();
            &&& match t.brand {
                Some(brand) => brand_at(s, separators_end(s, from)) == Ok::<Tree, Mismatch>(
                    leaf(Rule::brand, s, brand_start, brand_start + brand.len()),
                ) && s.subrange(brand_start, brand_start + brand.len()) == brand,
                None => brand_at(s, separators_end(s, from)) is Err,
            }
            &&& match t.description {
                Some(description) => description_at(s, separators_end(s, after_brand)) == Ok::<
                    Tree,
                    Mismatch,
                >(
                    leaf(
                        Rule::description,
                        s,
                        description_start,
                        description_start + description.len(),
                    ),
                ) && s.subrange(description_start, description_start + description.len())
                    == description,
                None => description_at(s, separators_end(s, after_brand)) is Err,
            }
        }),
{
    let first = optional_part(g.before_brand, t.brand);
    let second = optional_part(g.before_description, t.description);
    let after_brand = from + first.len();
    lemma_starts_with_both(s, from, first, second);
    if let Some(description) = t.description {
        lemma_starts_with_both(s, after_brand, g.before_description, description);
        let start = after_brand + g.before_description.len();
        lemma_starts_with_first(s, start, description);
        lemma_skip_gap(s, after_brand, g.before_description);
        lemma_enclosed_at_word(
            Rule::description,
            '{',
            CharClass::Description,
            '}',
            s,
            start,
            description,
        );
    }
    if let Some(brand) = t.brand {
        lemma_starts_with_both(s, from, g.before_brand, brand);
        let start = from + g.before_brand.len();
        lemma_starts_with_first(s, start, brand);
        lemma_skip_gap(s, from, g.before_brand);
        lemma_enclosed_at_word(Rule::brand, '(', CharClass::Brand, ')', s, start, brand);
    } else {
        assert(first.len() == 0);
    }
}

/// An item that is written out from `pos` on is what the recogniser finds
/// there, provided that what follows it cannot be taken for a part of it.
pub proof fn lemma_item_at_spaced(s: Seq<char>, pos: int, t: Tokens, g: Gaps)
    requires
        0 <= pos,
        tokens_ok(t),
        gaps_ok(g),
        starts_with(s, pos, spaced(t, g)),
        closes_item(s, pos + spaced(t, g).len(), t),
    ensures
        item_at(s, pos) == Ok::<Tree, Mismatch>(spaced_item(s, pos, t, g)),
        holds_tokens(spaced_item(s, pos, t, g).inner, as_read(t, g)),
{
    let at = places(pos, t, g);
    let measure = t.quantity + (g.after_quantity + t.unit);
    let named = g.after_dot + (t.name + (g.after_name + measure));
    lemma_first_characters(t);
    lemma_starts_with_both(s, pos, spaced_head(t, g), spaced_tail(t, g));
    lemma_head_index(s, pos, t, g, named);
    assert(measure[0] == t.quantity[0]);
    lemma_head_name(s, at.dot + 1, t, g, measure);
    lemma_head_quantity(s, at.quantity_start, t, g);
    assert(spaced_head(t, g).len() == at.unit_end - pos);
    lemma_tail(s, at.unit_end, t, g);
    let required = required_fields(s, pos, t, g);
    assert(required == seq![
        index_at(s, pos)->Ok_0,
        name_at(s, at.name_start)->Ok_0,
        quantity_at(s, at.quantity_start)->Ok_0,
        unit_at(s, at.unit_start)->Ok_0,
    ]);
    assert(required.last().end == at.unit_end);
    let with_brand = with_optional(required, brand_at(s, separators_end(s, at.unit_end)));
    assert(with_brand.last().end == at.unit_end + optional_part(g.before_brand, t.brand).len());
    let node = item_of_fields(s, pos, required);
    assert(node.inner == spaced_fields(s, pos, t, g));
    assert(node.end == pos + spaced(t, g).len());
    assert(node == spaced_item(s, pos, t, g));
    let texts = field_texts(as_read(t, g));
    assert forall|i: int| 0 <= i < texts.len() implies (#[trigger] node.inner[i]).text == texts[i]
        && node.inner[i].rule == field_rules(as_read(t, g))[i] by {}
}

/// The tokens that the fields of an item hold.
pub open spec fn tokens_in(fields: Seq<Tree>) -> Tokens {
    Tokens {
        index: fields[0].text,
        name: fields[1].text,
        quantity: fields[2].text,
        unit: fields[3].text,
        brand: if fields.len() > 4 && fields[4].rule == Rule::brand {
            Some(fields[4].text)
        } else {
            None
        },
        description: if fields.last().rule == Rule::description {
            Some(fields.last().text)
        } else {
            None
        },
    }
}

/// What an enclosed run has matched is an enclosed word.
pub proof fn lemma_enclosed_text(
    rule: Rule,
    open: char,
    class: CharClass,
    close: char,
    s: Seq<char>,
    pos: int,
)
    requires
        0 <= pos <= s.len(),
    ensures
        enclosed_at(rule, open, class, close, s, pos) matches Ok(node) ==> is_enclosed(
            node.text,
            open,
            class,
            close,
        ) && node.rule == rule && node.end == pos + node.text.len(),
{
    lemma_enclosed_at(rule, open, class, close, s, pos);
    if let Ok(node) = enclosed_at(rule, open, class, close, s, pos) {
        assert(node.text.subrange(1, node.text.len() - 1) =~= s.subrange(pos + 1, node.end - 1));
    }
}

/// The fields of an item that the recogniser has found hold tokens, each
/// written as its rule asks.
pub proof fn lemma_item_at_tokens(s: Seq<char>, pos: int)
    requires
        0 <= pos <= s.len(),
    ensures
        item_at(s, pos) matches Ok(node) ==> tokens_ok(tokens_in(node.inner)) && holds_tokens(
            node.inner,
            tokens_in(node.inner),
        ),
{
    lemma_run_at(Rule::index, CharClass::Digit, s, pos);
    if let Ok(index) = index_at(s, pos) {
        lemma_run_end(s, index.end, CharClass::Separator);
        let dot = separators_end(s, index.end);
        if dot < s.len() && s[dot] == '.' {
            lemma_run_end(s, dot + 1, CharClass::Separator);
            let name_start = separators_end(s, dot + 1);
            lemma_run_at(Rule::name, CharClass::Name, s, name_start);
            if let Ok(name) = name_at(s, name_start) {
                assert(name.text[0] == s[name_start]);
                lemma_run_end(s, name.end, CharClass::Separator);
                let quantity_start = separators_end(s, name.end);
                lemma_run_at(Rule::quantity, CharClass::Digit, s, quantity_start);
                if let Ok(quantity) = quantity_at(s, quantity_start) {
                    lemma_run_end(s, quantity.end, CharClass::Separator);
                    let unit_start = separators_end(s, quantity.end);
                    lemma_unit_at(s, unit_start);
                    if let Ok(unit) = unit_at(s, unit_start) {
                        let required = seq![index, name, quantity, unit];
                        lemma_run_end(s, unit.end, CharClass::Separator);
                        let brand_start = separators_end(s, unit.end);
                        lemma_enclosed_text(
                            Rule::brand,
                            '(',
                            CharClass::Brand,
                            ')',
                            s,
                            brand_start,
                        );
                        let with_brand = with_optional(required, brand_at(s, brand_start));
                        lemma_run_end(s, with_brand.last().end, CharClass::Separator);
                        let description_start = separators_end(s, with_brand.last().end);
                        lemma_enclosed_text(
                            Rule::description,
                            '{',
                            CharClass::Description,
                            '}',
                            s,
                            description_start,
                        );
                        let node = item_of_fields(s, pos, required);
                        let fields = node.inner;
                        let t = tokens_in(fields);
                        assert(tokens_ok(t));
                        assert(holds_tokens(fields, t));
                    }
                }
            }
        }
    }
}

/// An item written out is, taken alone, what the recogniser reads as an item:
/// one node, with one field for each token as it is read.
pub proof fn lemma_item_alone(t: Tokens, g: Gaps)
    requires
        tokens_ok(t),
        gaps_ok(g),
    ensures
        recognize(Rule::item, spaced(t, g)) matches Ok(nodes) && nodes.len() == 1 && holds_tokens(
            nodes[0].inner,
            as_read(t, g),
        ) && item_from(nodes[0].inner) == record_of(as_read(t, g)),
{
    let s = spaced(t, g);
    assert(starts_with(s, 0, s)) by {
        assert(s.subrange(0, s.len() as int) =~= s);
    }
    lemma_run_stops(s, s.len() as int, CharClass::Separator);
    lemma_item_at_spaced(s, 0, t, g);
    lemma_item_from_tokens(spaced_item(s, 0, t, g).inner, as_read(t, g));
}

/// Without gaps every token is read as it is written.
pub proof fn lemma_as_read_without_gaps(t: Tokens)
    ensures
        as_read(t, no_gaps()) == t,
{
    assert(absorbed(no_gaps().after_name) =~= Seq::<char>::empty());
    assert(t.name + Seq::<char>::empty() =~= t.name);
}

/// Separators between the tokens of an item change nothing but the name: with
/// any separators in the gaps the item is recognised as it is without them,
/// field for field, and only the name comes out longer, by the spaces that
/// follow it. So the two items are the same but for the spaces at the end of
/// the name.
pub proof fn lemma_separators_change_the_name_only(t: Tokens, g: Gaps)
    requires
        tokens_ok(t),
        gaps_ok(g),
    ensures
        recognize(Rule::item, spaced(t, g)) matches Ok(wide) && recognize(
            Rule::item,
            spaced(t, no_gaps()),
        ) matches Ok(tight) && ({
            &&& wide.len() == 1 && tight.len() == 1
            &&& holds_tokens(tight[0].inner, t)
            &&& holds_tokens(wide[0].inner, as_read(t, g))
            &&& item_from(tight[0].inner) == record_of(t)
            &&& item_from(wide[0].inner) == record_of(as_read(t, g))
        }),
{
    lemma_item_alone(t, g);
    lemma_item_alone(t, no_gaps());
    lemma_as_read_without_gaps(t);
}

} // verus!
