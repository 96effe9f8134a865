//! A document written out in the notation, and read again: the document that
//! comes back is the one that was written.

use crate::chars::{
    is_digit, lemma_run_end, lemma_run_end_inside, lemma_trim_nothing, lemma_trim_something,
    CharClass,
};
use crate::document::{
    categories_of, document_view, item_from, lemma_walk_fails, optional_text, walk_over, Category,
    Item, ShoppingCategory, ShoppingItem, Walk,
};
use crate::grammar::{
    category_at, entries_from, entry_at, is_unit, separators_end, shopping_list_at, starts_with,
};
use crate::layout::{
    closes_item, is_brand_text, is_description_text, is_enclosed, is_name_text,
    lemma_as_read_without_gaps, lemma_enclosed_at_word, lemma_enclosed_text, lemma_item_at_spaced,
    lemma_item_at_tokens, lemma_item_from_tokens, lemma_run_stops, lemma_skip_gap,
    lemma_starts_with_both, lemma_starts_with_first, no_gaps, optional_part, record_of, spaced,
    spaced_head, spaced_item, spaced_tail, tokens_in, tokens_ok, Tokens,
};
use crate::number::{
    decimal_text, lemma_decimal_round_trip, lemma_decimal_text_digits, push_decimal, NumberError,
};
use crate::order::{
    follows_items, lemma_document_follows_entries, lemma_places_of, numbers_fit, part_end,
    places_of,
};
use crate::parser::{parse_result, Failure};
use crate::shape::{entry_fits, lemma_entries_from, lemma_entry_at, lemma_item_at};
use crate::tree::{Mismatch, Rule, Tree};
use vstd::prelude::*;
use vstd::string::StringExecFns;

verus! {

/// Whether `item` can stand in a shopping list: its name, its unit, its brand
/// and its description are written as their rules ask.
pub open spec fn item_ok(item: Item) -> bool {
    &&& is_name_text(item.name)
    &&& is_unit(item.unit)
    &&& item.brand matches Some(brand) ==> is_brand_text(brand)
    &&& item.description matches Some(description) ==> is_description_text(description)
}

/// Whether `category` can stand in a shopping list: its name is a header with
/// its brackets, and its items can stand in a shopping list.
pub open spec fn category_ok(category: Category) -> bool {
    &&& is_enclosed(category.name, '[', CharClass::Category, ']')
    &&& forall|j: int| 0 <= j < category.items.len() ==> item_ok(#[trigger] category.items[j])
}

/// Whether every category of `document` can stand in a shopping list.
pub open spec fn document_ok(document: Seq<Category>) -> bool {
    forall|k: int| 0 <= k < document.len() ==> category_ok(#[trigger] document[k])
}

/// A line of a document that is written out: the header of a category, or an
/// item.
pub ghost enum Line {
    Header(Seq<char>),
    Entry(Item),
}

/// The lines of a category: its header, then its items.
pub open spec fn category_lines(category: Category) -> Seq<Line> {
    seq![Line::Header(category.name)] + Seq::new(
        category.items.len(),
        |j: int| Line::Entry(category.items[j]),
    )
}

/// The lines of a document: those of its categories, one category after the
/// other.
pub open spec fn lines_of(document: Seq<Category>) -> Seq<Line>
    decreases document.len(),
{
    if document.len() == 0 {
        Seq::empty()
    } else {
        lines_of(document.drop_last()) + category_lines(document.last())
    }
}

/// The tokens that an item is written out with: the index and the quantity in
/// digits, everything else as the item holds it.
pub open spec fn tokens_of(item: Item) -> Tokens {
    Tokens {
        index: decimal_text(item.index as nat),
        name: item.name,
        quantity: decimal_text(item.quantity as nat),
        unit: item.unit,
        brand: item.brand,
        description: item.description,
    }
}

/// A line written out: a header as it is, an item as its tokens without any
/// separator between them, and a line feed behind either.
pub open spec fn render_line(line: Line) -> Seq<char> {
    match line {
        Line::Header(name) => name + seq!['\n'],
        Line::Entry(item) => spaced(tokens_of(item), no_gaps()) + seq!['\n'],
    }
}

/// Lines written out one after the other.
pub open spec fn render_lines(lines: Seq<Line>) -> Seq<char>
    decreases lines.len(),
{
    if lines.len() == 0 {
        Seq::empty()
    } else {
        render_line(lines[0]) + render_lines(lines.skip(1))
    }
}

/// A document written out in the notation: each category as a line with its
/// header, followed by one line for each of its items.
pub open spec fn render(document: Seq<Category>) -> Seq<char> {
    render_lines(lines_of(document))
}

/// Whether `line` can stand in a shopping list.
pub open spec fn line_ok(line: Line) -> bool {
    match line {
        Line::Header(name) => is_enclosed(name, '[', CharClass::Category, ']'),
        Line::Entry(item) => item_ok(item),
    }
}

/// Whether every one of `lines` can stand in a shopping list.
pub open spec fn lines_ok(lines: Seq<Line>) -> bool {
    forall|i: int| 0 <= i < lines.len() ==> line_ok(#[trigger] lines[i])
}

/// The walk after one more line.
pub open spec fn step_line(walk: Walk, line: Line) -> Walk {
    match line {
        Line::Header(name) => Walk {
            closed: categories_of(walk),
            open: Some(Category { name, items: Seq::empty() }),
        },
        Line::Entry(item) => Walk {
            closed: walk.closed,
            open: match walk.open {
                Some(category) => Some(
                    Category { name: category.name, items: category.items.push(item) },
                ),
                None => None,
            },
        },
    }
}

/// The walk over `lines`, started from `walk`.
pub open spec fn walk_lines(walk: Walk, lines: Seq<Line>) -> Walk
    decreases lines.len(),
{
    if lines.len() == 0 {
        walk
    } else {
        step_line(walk_lines(walk, lines.drop_last()), lines.last())
    }
}

/// Walking over two sequences of lines, one after the other, is walking over
/// the first and going on over the second.
proof fn lemma_walk_lines_both(walk: Walk, first: Seq<Line>, second: Seq<Line>)
    ensures
        walk_lines(walk, first + second) == walk_lines(walk_lines(walk, first), second),
    decreases second.len(),
{
    if second.len() == 0 {
        assert(first + second =~= first);
    } else {
        lemma_walk_lines_both(walk, first, second.drop_last());
        assert((first + second).drop_last() =~= first + second.drop_last());
        assert((first + second).last() == second.last());
    }
}

/// The walk over the header of a category and its first `n` items closes what
/// was open and leaves open the category with these items.
proof fn lemma_walk_category(walk: Walk, category: Category, n: int)
    requires
        0 <= n <= category.items.len(),
    ensures
        walk_lines(walk, category_lines(category).take(n + 1)) == (Walk {
            closed: categories_of(walk),
            open: Some(Category { name: category.name, items: category.items.take(n) }),
        }),
    decreases n,
{
    let lines = category_lines(category);
    if n == 0 {
        let first = lines.take(1);
        assert(first.drop_last() =~= Seq::<Line>::empty());
        assert(first.last() == Line::Header(category.name));
        assert(category.items.take(0) =~= Seq::<Item>::empty());
        assert(walk_lines(walk, first.drop_last()) == walk);
        assert(walk_lines(walk, first) == step_line(walk, first.last()));
    } else {
        lemma_walk_category(walk, category, n - 1);
        let more = lines.take(n + 1);
        assert(more.drop_last() =~= lines.take(n));
        assert(more.last() == Line::Entry(category.items[n - 1]));
        assert(category.items.take(n - 1).push(category.items[n - 1]) =~= category.items.take(n));
        assert(walk_lines(walk, more) == step_line(walk_lines(walk, lines.take(n)), more.last()));
    }
}

/// The walk over the lines of a document ends with the categories of the
/// document.
proof fn lemma_walk_lines_of(document: Seq<Category>)
    ensures
        categories_of(
            walk_lines(Walk { closed: Seq::empty(), open: None }, lines_of(document)),
        ) == document,
    decreases document.len(),
{
    let start = Walk { closed: Seq::empty(), open: None };
    if document.len() == 0 {
        assert(categories_of(start) =~= document);
    } else {
        let front = document.drop_last();
        let last = document.last();
        lemma_walk_lines_of(front);
        lemma_walk_lines_both(start, lines_of(front), category_lines(last));
        lemma_walk_category(walk_lines(start, lines_of(front)), last, last.items.len() as int);
        assert(category_lines(last).take(last.items.len() as int + 1) =~= category_lines(last));
        assert(last.items.take(last.items.len() as int) =~= last.items);
        assert(front.push(last) =~= document);
    }
}

/// The lines of a document that can stand in a shopping list can stand there.
proof fn lemma_lines_ok(document: Seq<Category>)
    requires
        document_ok(document),
    ensures
        lines_ok(lines_of(document)),
    decreases document.len(),
{
    if document.len() > 0 {
        let front = document.drop_last();
        let last = document.last();
        assert(document_ok(front)) by {
            assert forall|k: int| 0 <= k < front.len() implies category_ok(#[trigger] front[k]) by {
                assert(front[k] == document[k]);
            }
        }
        lemma_lines_ok(front);
        assert(category_ok(last));
        let lines = lines_of(document);
        assert forall|i: int| 0 <= i < lines.len() implies line_ok(#[trigger] lines[i]) by {
            let before = lines_of(front).len();
            if i < before {
                assert(lines[i] == lines_of(front)[i]);
            } else if i == before {
                assert(lines[i] == Line::Header(last.name));
            } else {
                assert(lines[i] == Line::Entry(last.items[i - before - 1]));
            }
        }
    }
}

/// Lines written out one after the other are the first of them written out,
/// followed by the others written out.
proof fn lemma_render_lines_both(first: Seq<Line>, second: Seq<Line>)
    ensures
        render_lines(first + second) == render_lines(first) + render_lines(second),
    decreases first.len(),
{
    if first.len() == 0 {
        assert(first + second =~= second);
        assert(render_lines(first) + render_lines(second) =~= render_lines(second));
    } else {
        lemma_render_lines_both(first.skip(1), second);
        assert((first + second).skip(1) =~= first.skip(1) + second);
        assert((first + second)[0] == first[0]);
        assert(render_line(first[0]) + (render_lines(first.skip(1)) + render_lines(second))
            =~= (render_line(first[0]) + render_lines(first.skip(1))) + render_lines(second));
    }
}

/// One more line written out behind the others.
proof fn lemma_render_lines_push(lines: Seq<Line>, line: Line)
    ensures
        render_lines(lines.push(line)) == render_lines(lines) + render_line(line),
{
    let one = seq![line];
    lemma_render_lines_both(lines, one);
    assert(lines + one =~= lines.push(line));
    assert(one.skip(1) =~= Seq::<Line>::empty());
    assert(render_lines(one.skip(1)) =~= Seq::<char>::empty());
    assert(render_lines(one) =~= render_line(line));
}

/// The characters of an annotation; none where the item has no such
/// annotation.
pub open spec fn annotation(text: Option<Seq<char>>) -> Seq<char> {
    match text {
        Some(text) => text,
        None => Seq::empty(),
    }
}

/// An item written out without gaps is its tokens, one directly behind the
/// other.
proof fn lemma_spaced_without_gaps(t: Tokens)
    ensures
        spaced(t, no_gaps()) == t.index + seq!['.'] + t.name + t.quantity + t.unit + annotation(
            t.brand,
        ) + annotation(t.description),
{
    let nothing = Seq::<char>::empty();
    assert(optional_part(nothing, t.brand) =~= annotation(t.brand));
    assert(optional_part(nothing, t.description) =~= annotation(t.description));
    let head = spaced_head(t, no_gaps());
    assert(head =~= t.index + seq!['.'] + t.name + t.quantity + t.unit);
    let tail = spaced_tail(t, no_gaps());
    assert(tail == annotation(t.brand) + annotation(t.description));
    assert(head + tail =~= t.index + seq!['.'] + t.name + t.quantity + t.unit + annotation(
        t.brand,
    ) + annotation(t.description));
}

/// Appends an annotation to `out`, where the item has it.
fn write_annotation(out: &mut String, text: &Option<String>)
    ensures
        final(out)@ == old(out)@ + annotation(optional_text(*text)),
{
    match text {
        Some(text) => {
            out.append(text.as_str());
        },
        None => {
            assert(out@ + Seq::<char>::empty() =~= out@);
        },
    }
}

/// Appends an item, written out as a line, to `out`.
fn write_item(out: &mut String, item: &ShoppingItem)
    ensures
        final(out)@ == old(out)@ + render_line(Line::Entry(item@)),
{
    let ghost t = tokens_of(item@);
    push_decimal(out, item.index as u64);
    out.push('.');
    out.append(item.name.as_str());
    push_decimal(out, item.quantity as u64);
    out.append(item.unit.as_str());
    write_annotation(out, &item.brand);
    write_annotation(out, &item.description);
    let ghost written = t.index + seq!['.'] + t.name + t.quantity + t.unit + annotation(t.brand)
        + annotation(t.description);
    assert(out@ =~= old(out)@ + written);
    out.push('\n');
    proof {
        lemma_spaced_without_gaps(t);
        assert(out@ =~= old(out)@ + (written + seq!['\n']));
    }
}

/// Writes a document out in the notation: each category as a line with its
/// header, followed by one line for each of its items, without any separator
/// between the tokens of an item.
pub fn write_shopping_list(document: &Vec<ShoppingCategory>) -> (text: String)
    ensures
        text@ == render(document_view(document@)),
{
    let mut text = String::new();
    let ghost categories = document_view(document@);
    let mut k: usize = 0;
    proof {
        assert(categories.take(0) =~= Seq::<Category>::empty());
    }
    while k < document.len()
        invariant
            k <= document.len(),
            categories == document_view(document@),
            text@ == render(categories.take(k as int)),
        decreases document.len() - k,
    {
        let category = &document[k];
        let ghost before = lines_of(categories.take(k as int));
        let ghost lines = category_lines(category@);
        proof {
            assert(categories[k as int] == category@);
            assert(categories.take(k + 1).drop_last() =~= categories.take(k as int));
            assert(categories.take(k + 1).last() == category@);
            lemma_render_lines_both(before, lines);
            lemma_render_lines_push(Seq::empty(), Line::Header(category@.name));
            assert(lines.take(1) =~= Seq::<Line>::empty().push(Line::Header(category@.name)));
            assert(text@ + (Seq::<char>::empty() + (category@.name + seq!['\n'])) =~= text@
                + category@.name + seq!['\n']);
        }
        text.append(category.name.as_str());
        text.push('\n');
        let mut j: usize = 0;
        while j < category.items.len()
            invariant
                j <= category.items.len(),
                lines == category_lines(category@),
                text@ == render_lines(before) + render_lines(lines.take(j + 1)),
            decreases category.items.len() - j,
        {
            proof {
                assert(lines.take(j + 2) =~= lines.take(j + 1).push(
                    Line::Entry(category.items@[j as int]@),
                ));
                lemma_render_lines_push(lines.take(j + 1), Line::Entry(category.items@[j as int]@));
                let entry = render_line(Line::Entry(category.items@[j as int]@));
                assert(render_lines(before) + render_lines(lines.take(j + 1)) + entry
                    =~= render_lines(before) + (render_lines(lines.take(j + 1)) + entry));
            }
            write_item(&mut text, &category.items[j]);
            j = j + 1;
        }
        proof {
            assert(lines.take(j + 1) =~= lines);
        }
        k = k + 1;
    }
    proof {
        assert(categories.take(k as int) =~= categories);
    }
    text
}

/// Whether `node` is what `line` reads as: a category with the header as its
/// text, or an item whose fields describe the item of the line.
pub open spec fn reads_as(node: Tree, line: Line) -> bool {
    match line {
        Line::Header(name) => node.rule == Rule::category && node.text == name,
        Line::Entry(item) => node.rule == Rule::item && item_from(node.inner) == Ok::<
            Item,
            NumberError,
        >(item),
    }
}

/// An item that can stand in a shopping list is written out with tokens that
/// are written as their rules ask, and these tokens describe the item.
proof fn lemma_tokens_of(item: Item)
    requires
        item_ok(item),
    ensures
        tokens_ok(tokens_of(item)),
        record_of(tokens_of(item)) == Ok::<Item, NumberError>(item),
        is_digit(tokens_of(item).index[0]),
{
    let index = decimal_text(item.index as nat);
    let quantity = decimal_text(item.quantity as nat);
    lemma_decimal_text_digits(item.index as nat);
    lemma_decimal_text_digits(item.quantity as nat);
    lemma_decimal_round_trip(item.index as u64, usize::MAX as u64);
    lemma_decimal_round_trip(item.quantity as u64, u32::MAX as u64);
    assert(CharClass::Digit.contains(quantity[0]));
    assert(CharClass::Digit.contains(quantity[quantity.len() - 1]));
    assert(CharClass::Digit.contains(index[0]));
    lemma_trim_nothing(quantity);
}

/// Lines that are written out start with a bracket or with a digit.
proof fn lemma_render_lines_first(lines: Seq<Line>)
    requires
        lines_ok(lines),
        lines.len() > 0,
    ensures
        render_lines(lines).len() > 0,
        render_lines(lines)[0] == '[' || is_digit(render_lines(lines)[0]),
{
    let line = lines[0];
    assert(line_ok(line));
    let first = render_line(line);
    match line {
        Line::Header(name) => {
            assert(first[0] == name[0]);
        },
        Line::Entry(item) => {
            lemma_tokens_of(item);
            let t = tokens_of(item);
            assert(spaced(t, no_gaps())[0] == t.index[0]);
            assert(first[0] == t.index[0]);
        },
    }
    assert(render_lines(lines)[0] == first[0]);
}

/// The entries from a position in the separators that `pos` starts are the
/// entries from `pos`.
proof fn lemma_entries_from_gap(s: Seq<char>, pos: int, at: int)
    requires
        0 <= pos <= at <= separators_end(s, pos),
        pos <= s.len(),
    ensures
        entries_from(s, at) == entries_from(s, pos),
{
    lemma_run_end_inside(s, pos, CharClass::Separator, at);
    lemma_run_end(s, pos, CharClass::Separator);
    let start = separators_end(s, pos);
    if start < s.len() {
        lemma_entry_at(s, start);
    }
}

/// What the recogniser makes of lines that are written out, from `pos` to the
/// end of the input: one entry for each line, and each entry is what its line
/// reads as.
proof fn lemma_read_lines(s: Seq<char>, pos: int, lines: Seq<Line>)
    requires
        0 <= pos,
        lines_ok(lines),
        starts_with(s, pos, render_lines(lines)),
        pos + render_lines(lines).len() == s.len(),
    ensures
        entries_from(s, pos) matches Ok(nodes) && nodes.len() == lines.len() && forall|i: int|
            0 <= i < lines.len() ==> reads_as(#[trigger] nodes[i], lines[i]),
    decreases lines.len(),
{
    if lines.len() == 0 {
        lemma_run_stops(s, pos, CharClass::Separator);
    } else {
        let line = lines[0];
        let rest = lines.skip(1);
        let written = render_line(line);
        let next = pos + written.len();
        assert(line_ok(line));
        assert(lines_ok(rest)) by {
            assert forall|i: int| 0 <= i < rest.len() implies line_ok(#[trigger] rest[i]) by {
                assert(rest[i] == lines[i + 1]);
            }
        }
        lemma_starts_with_both(s, pos, written, render_lines(rest));
        lemma_render_lines_first(lines);
        lemma_starts_with_first(s, pos, render_lines(lines));
        lemma_run_stops(s, pos, CharClass::Separator);
        // Behind the line stands the next line, or nothing.
        if rest.len() > 0 {
            lemma_render_lines_first(rest);
            lemma_starts_with_first(s, next, render_lines(rest));
        }
        assert(next == s.len() || s[next] == '[' || is_digit(s[next]));
        let entry = lemma_read_line(s, pos, line);
        lemma_entries_from_gap(s, entry.end, next);
        lemma_read_lines(s, next, rest);
        let others = entries_from(s, next)->Ok_0;
        let nodes = seq![entry] + others;
        assert(entries_from(s, pos) == Ok::<Seq<Tree>, Mismatch>(nodes));
        assert forall|i: int| 0 <= i < lines.len() implies reads_as(
            #[trigger] nodes[i],
            lines[i],
        ) by {
            if i > 0 {
                assert(nodes[i] == others[i - 1]);
                assert(lines[i] == rest[i - 1]);
            }
        }
    }
}

/// What the recogniser makes of one line that is written out at `pos`, with
/// another line or nothing behind it: the entry that the line reads as, and
/// the separators behind the entry end where the line ends.
proof fn lemma_read_line(s: Seq<char>, pos: int, line: Line) -> (entry: Tree)
    requires
        0 <= pos,
        line_ok(line),
        starts_with(s, pos, render_line(line)),
        ({
            let next = pos + render_line(line).len();
            next == s.len() || s[next] == '[' || is_digit(s[next])
        }),
    ensures
        entry_at(s, pos) == Ok::<Tree, Mismatch>(entry),
        reads_as(entry, line),
        pos < entry.end <= separators_end(s, entry.end) == pos + render_line(line).len(),
{
    let feed = seq!['\n'];
    let next = pos + render_line(line).len();
    assert(feed[0] == '\n');
    lemma_run_stops(s, next, CharClass::Separator);
    match line {
        Line::Header(name) => {
            lemma_starts_with_both(s, pos, name, feed);
            lemma_enclosed_at_word(Rule::category, '[', CharClass::Category, ']', s, pos, name);
            let entry = category_at(s, pos)->Ok_0;
            lemma_skip_gap(s, entry.end, feed);
            entry
        },
        Line::Entry(item) => {
            lemma_tokens_of(item);
            let t = tokens_of(item);
            let text = spaced(t, no_gaps());
            lemma_starts_with_both(s, pos, text, feed);
            let end = pos + text.len();
            lemma_skip_gap(s, end, feed);
            assert(closes_item(s, end, t));
            lemma_item_at_spaced(s, pos, t, no_gaps());
            lemma_as_read_without_gaps(t);
            let entry = spaced_item(s, pos, t, no_gaps());
            lemma_item_from_tokens(entry.inner, t);
            lemma_starts_with_first(s, pos, text);
            assert(text[0] == t.index[0]);
            assert(category_at(s, pos) is Err);
            entry
        },
    }
}

/// The walk over entries that read as lines is the walk over the lines.
proof fn lemma_walk_reads(nodes: Seq<Tree>, lines: Seq<Line>, n: int)
    requires
        nodes.len() == lines.len(),
        forall|i: int| 0 <= i < lines.len() ==> reads_as(#[trigger] nodes[i], lines[i]),
        0 <= n <= lines.len(),
    ensures
        walk_over(nodes.take(n)) == Ok::<Walk, NumberError>(
            walk_lines(Walk { closed: Seq::empty(), open: None }, lines.take(n)),
        ),
    decreases n,
{
    if n == 0 {
        assert(nodes.take(0) =~= Seq::<Tree>::empty());
        assert(lines.take(0) =~= Seq::<Line>::empty());
    } else {
        lemma_walk_reads(nodes, lines, n - 1);
        assert(nodes.take(n).drop_last() =~= nodes.take(n - 1));
        assert(lines.take(n).drop_last() =~= lines.take(n - 1));
        assert(nodes.take(n).last() == nodes[n - 1]);
        assert(lines.take(n).last() == lines[n - 1]);
        assert(reads_as(nodes[n - 1], lines[n - 1]));
    }
}

/// A document that can stand in a shopping list and has a category, written
/// out and read again, is the same document.
pub proof fn lemma_written_and_read(document: Seq<Category>)
    requires
        document_ok(document),
        document.len() > 0,
    ensures
        parse_result(render(document)) == Ok::<Seq<Category>, Failure>(document),
{
    let lines = lines_of(document);
    let text = render(document);
    lemma_lines_ok(document);
    assert(lines.len() > 0) by {
        assert(category_lines(document.last()).len() > 0);
    }
    lemma_render_lines_first(lines);
    lemma_trim_something(text, 0);
    assert(starts_with(text, 0, text)) by {
        assert(text.subrange(0, text.len() as int) =~= text);
    }
    lemma_read_lines(text, 0, lines);
    let nodes = entries_from(text, 0)->Ok_0;
    lemma_walk_reads(nodes, lines, lines.len() as int);
    assert(nodes.take(lines.len() as int) =~= nodes);
    assert(lines.take(lines.len() as int) =~= lines);
    lemma_walk_lines_of(document);
}

/// Where the walk over the entries succeeds, the numbers of every item can be
/// read, also of the items that are in no category.
proof fn lemma_walk_reads_numbers(entries: Seq<Tree>)
    requires
        walk_over(entries) is Ok,
    ensures
        numbers_fit(entries),
{
    assert forall|i: int|
        0 <= i < entries.len() && (#[trigger] entries[i]).rule == Rule::item implies item_from(
        entries[i].inner,
    ) is Ok by {
        if item_from(entries[i].inner) is Err {
            let upto = entries.take(i + 1);
            assert(upto.drop_last() =~= entries.take(i));
            assert(upto.last() == entries[i]);
            assert(walk_over(upto) is Err);
            lemma_walk_fails(entries, i + 1);
        }
    }
}

/// An entry of a shopping list that is a category holds a header, and one that
/// is an item describes, where its numbers can be read, an item that can stand
/// in a shopping list.
proof fn lemma_entry_ok(s: Seq<char>, pos: int, entry: Tree)
    requires
        0 <= pos <= s.len(),
        entry_at(s, pos) == Ok::<Tree, Mismatch>(entry),
    ensures
        entry.rule == Rule::category ==> is_enclosed(entry.text, '[', CharClass::Category, ']'),
        entry.rule == Rule::item ==> (item_from(entry.inner) matches Ok(item) ==> item_ok(item)),
{
    lemma_enclosed_text(Rule::category, '[', CharClass::Category, ']', s, pos);
    lemma_item_at(s, pos);
    lemma_item_at_tokens(s, pos);
    if entry.rule == Rule::item {
        lemma_item_from_tokens(entry.inner, tokens_in(entry.inner));
    }
}

/// Every document that the parser returns can stand in a shopping list: the
/// names of its categories are headers with their brackets, and the names,
/// units, brands and descriptions of its items are written as their rules ask.
pub proof fn lemma_parsed_is_ok(input: Seq<char>)
    ensures
        parse_result(input) matches Ok(document) ==> document_ok(document),
{
    if let Ok(document) = parse_result(input) {
        let entries = shopping_list_at(input)->Ok_0.inner;
        let end = entries.len() as int;
        lemma_entries_from(input, 0);
        lemma_walk_reads_numbers(entries);
        lemma_document_follows_entries(entries);
        let headers = places_of(entries, Rule::category, 0, end);
        lemma_places_of(entries, Rule::category, 0, end);
        assert forall|k: int| 0 <= k < document.len() implies category_ok(
            #[trigger] document[k],
        ) by {
            let category = document[k];
            let header = headers[k];
            assert(entries[header].rule == Rule::category);
            assert(entry_fits(entries, input, 0, header));
            lemma_entry_ok(input, entries[header].start, entries[header]);
            let places = places_of(entries, Rule::item, header + 1, part_end(headers, k, end));
            if k + 1 < headers.len() {
                assert(headers[k + 1] < end);
            }
            lemma_places_of(entries, Rule::item, header + 1, part_end(headers, k, end));
            assert(follows_items(category.items, entries, places));
            assert forall|j: int| 0 <= j < category.items.len() implies item_ok(
                #[trigger] category.items[j],
            ) by {
                let place = places[j];
                assert(entries[place].rule == Rule::item);
                assert(entry_fits(entries, input, 0, place));
                lemma_entry_ok(input, entries[place].start, entries[place]);
            }
        }
    }
}

/// A document that the parser has returned, written out and read again, is the
/// same document, where it has a category at all. The document without
/// categories is written out as the empty text, which the parser refuses.
pub proof fn lemma_round_trip(input: Seq<char>)
    requires
        parse_result(input) matches Ok(document) && document.len() > 0,
    ensures
        parse_result(render(parse_result(input)->Ok_0)) == parse_result(input),
{
    lemma_parsed_is_ok(input);
    lemma_written_and_read(parse_result(input)->Ok_0);
}

} // verus!
