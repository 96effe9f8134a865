//! The order of the document is the order of the input: where each category
//! and each item of a document stands among the entries of the shopping list.

use crate::chars::trim;
use crate::document::{categories_of, document_of, item_from, step, walk_over, Category, Item};
use crate::grammar::shopping_list_at;
use crate::number::NumberError;
use crate::parser::parse_result;
use crate::shape::{entry_fits, in_order, lemma_entries_are_sound, lemma_entries_from, spans};
use crate::tree::{Rule, Tree};
use vstd::prelude::*;

verus! {

/// The places from `from` up to `to` at which `entries` holds a node of `rule`,
/// in ascending order.
pub open spec fn places_of(entries: Seq<Tree>, rule: Rule, from: int, to: int) -> Seq<int>
    decreases to - from,
{
    if to <= from {
        Seq::empty()
    } else if entries[to - 1].rule == rule {
        places_of(entries, rule, from, to - 1).push(to - 1)
    } else {
        places_of(entries, rule, from, to - 1)
    }
}

/// `places_of` lists each place between `from` and `to` that holds a node of
/// `rule`, once and in ascending order, and no other place.
pub proof fn lemma_places_of(entries: Seq<Tree>, rule: Rule, from: int, to: int)
    requires
        0 <= from,
        to <= entries.len(),
    ensures
        forall|k: int|
            0 <= k < places_of(entries, rule, from, to).len() ==> from <= (
            #[trigger] places_of(entries, rule, from, to)[k]) < to && entries[places_of(
                entries,
                rule,
                from,
                to,
            )[k]].rule == rule,
        forall|k: int, l: int|
            0 <= k < l < places_of(entries, rule, from, to).len() ==> (#[trigger] places_of(
                entries,
                rule,
                from,
                to,
            )[k]) < (#[trigger] places_of(entries, rule, from, to)[l]),
        forall|i: int|
            from <= i < to && (#[trigger] entries[i]).rule == rule ==> places_of(
                entries,
                rule,
                from,
                to,
            ).contains(i),
    decreases to - from,
{
    if to > from {
        lemma_places_of(entries, rule, from, to - 1);
        let front = places_of(entries, rule, from, to - 1);
        let all = places_of(entries, rule, from, to);
        assert forall|i: int|
            from <= i < to && (#[trigger] entries[i]).rule == rule implies all.contains(i) by {
            if i < to - 1 {
                let k = choose|k: int| 0 <= k < front.len() && front[k] == i;
                assert(all[k] == i);
            } else {
                assert(all[all.len() - 1] == i);
            }
        }
    }
}

/// Where the part of the header `k` ends: at the next header, and at `end` for
/// the last one.
pub open spec fn part_end(headers: Seq<int>, k: int, end: int) -> int {
    if k + 1 < headers.len() {
        headers[k + 1]
    } else {
        end
    }
}

/// Whether the numbers of every item of `entries` can be read.
pub open spec fn numbers_fit(entries: Seq<Tree>) -> bool {
    forall|i: int|
        0 <= i < entries.len() && (#[trigger] entries[i]).rule == Rule::item ==> item_from(
            entries[i].inner,
        ) is Ok
}

/// Whether `categories` is what the first `n` of `entries` describe: one
/// category for each header, with the text of the header as its name, and with
/// the items that stand under the header, in their order.
pub open spec fn follows_entries(categories: Seq<Category>, entries: Seq<Tree>, n: int) -> bool {
    let headers = places_of(entries, Rule::category, 0, n);
    &&& categories.len() == headers.len()
    &&& forall|k: int|
        0 <= k < categories.len() ==> (#[trigger] categories[k]).name == entries[headers[k]].text
    &&& forall|k: int|
        0 <= k < categories.len() ==> follows_items(
            (#[trigger] categories[k]).items,
            entries,
            places_of(entries, Rule::item, headers[k] + 1, part_end(headers, k, n)),
        )
}

/// Whether `items` are the items that `entries` holds at `places`, one for each
/// place and in the same order.
pub open spec fn follows_items(items: Seq<Item>, entries: Seq<Tree>, places: Seq<int>) -> bool {
    &&& items.len() == places.len()
    &&& forall|j: int|
        0 <= j < items.len() ==> item_from(entries[places[j]].inner) == Ok::<Item, NumberError>(
            #[trigger] items[j],
        )
}

/// The walk over the first `n` entries succeeds where their numbers can be
/// read; it has a category open exactly where a header has been met, and its
/// categories are what the entries describe.
proof fn lemma_walk_follows(entries: Seq<Tree>, n: int)
    requires
        0 <= n <= entries.len(),
        numbers_fit(entries),
    ensures
        walk_over(entries.take(n)) matches Ok(walk) && (walk.open is Some <==> places_of(
            entries,
            Rule::category,
            0,
            n,
        ).len() > 0) && follows_entries(categories_of(walk), entries, n),
    decreases n,
{
    if n == 0 {
        assert(entries.take(0) =~= Seq::<Tree>::empty());
    } else {
        lemma_walk_follows(entries, n - 1);
        assert(entries.take(n).drop_last() =~= entries.take(n - 1));
        let entry = entries[n - 1];
        assert(entries.take(n).last() == entry);
        let before = walk_over(entries.take(n - 1))->Ok_0;
        let old = categories_of(before);
        let old_headers = places_of(entries, Rule::category, 0, n - 1);
        let headers = places_of(entries, Rule::category, 0, n);
        lemma_places_of(entries, Rule::category, 0, n - 1);
        assert(step(before, entry) is Ok);
        let after = step(before, entry)->Ok_0;
        let new = categories_of(after);
        if entry.rule == Rule::category {
            assert(new == old.push(Category { name: entry.text, items: Seq::empty() }));
            assert forall|k: int| 0 <= k < new.len() implies follows_items(
                (#[trigger] new[k]).items,
                entries,
                places_of(entries, Rule::item, headers[k] + 1, part_end(headers, k, n)),
            ) by {
                if k < old.len() {
                    assert(new[k] == old[k]);
                    assert(part_end(headers, k, n) == part_end(old_headers, k, n - 1));
                }
            }
        } else {
            assert(headers == old_headers);
            if old.len() > 0 {
                let last = old.len() - 1;
                let from = headers[last] + 1;
                assert(part_end(headers, last, n - 1) == n - 1);
                assert(follows_items(
                    old[last].items,
                    entries,
                    places_of(entries, Rule::item, from, n - 1),
                ));
                assert(from <= n - 1);
                if entry.rule == Rule::item {
                    let item = item_from(entry.inner)->Ok_0;
                    let open = before.open->Some_0;
                    assert(new =~= old.update(
                        last,
                        Category { name: open.name, items: open.items.push(item) },
                    ));
                    assert(follows_items(
                        new[last].items,
                        entries,
                        places_of(entries, Rule::item, from, n),
                    ));
                } else {
                    assert(new == old);
                }
                assert forall|k: int| 0 <= k < new.len() implies follows_items(
                    (#[trigger] new[k]).items,
                    entries,
                    places_of(entries, Rule::item, headers[k] + 1, part_end(headers, k, n)),
                ) by {
                    if k < last {
                        assert(new[k] == old[k]);
                        assert(part_end(headers, k, n) == part_end(headers, k, n - 1));
                    }
                }
            } else {
                assert(new =~= old);
            }
        }
    }
}

/// The document follows the entries: it has one category for each header, in
/// the order of the headers and named by their text, and each category holds
/// the items that stand between its header and the next, in their order. Items
/// in front of the first header are in no category.
pub proof fn lemma_document_follows_entries(entries: Seq<Tree>)
    requires
        numbers_fit(entries),
    ensures
        document_of(entries) matches Ok(document) && follows_entries(
            document,
            entries,
            entries.len() as int,
        ) && in_order_of(document, entries),
{
    lemma_walk_follows(entries, entries.len() as int);
    assert(entries.take(entries.len() as int) =~= entries);
}

/// The places of the category headers among `entries`.
pub open spec fn headers_of(entries: Seq<Tree>) -> Seq<int> {
    places_of(entries, Rule::category, 0, entries.len() as int)
}

/// The places of the items that stand under the header `k`: behind it and in
/// front of the next header.
pub open spec fn items_under(entries: Seq<Tree>, k: int) -> Seq<int> {
    places_of(
        entries,
        Rule::item,
        headers_of(entries)[k] + 1,
        part_end(headers_of(entries), k, entries.len() as int),
    )
}

/// The entry that is the header `k`.
pub open spec fn header_node(entries: Seq<Tree>, k: int) -> Tree {
    entries[headers_of(entries)[k]]
}

/// The entry that is the item `j` under the header `k`.
pub open spec fn item_node(entries: Seq<Tree>, k: int, j: int) -> Tree {
    entries[items_under(entries, k)[j]]
}

/// Whether `document` is in the order of `entries`: its categories are the
/// headers, one for one, and the items of each category are the items under
/// its header, one for one.
pub open spec fn in_order_of(document: Seq<Category>, entries: Seq<Tree>) -> bool {
    &&& document.len() == headers_of(entries).len()
    &&& forall|k: int|
        0 <= k < document.len() ==> (#[trigger] document[k]).name == header_node(entries, k).text
            && document[k].items.len() == items_under(entries, k).len()
    &&& forall|k: int, j: int|
        0 <= k < document.len() && 0 <= j < document[k].items.len() ==> item_from(
            (#[trigger] item_node(entries, k, j)).inner,
        ) == Ok::<Item, NumberError>(document[k].items[j])
}

/// Whether the headers and the items under them stand among `entries` as
/// they are counted: a header in front of the next, the items of a header
/// behind it and in front of the next header, and an item in front of the
/// next item.
pub open spec fn counted_in_order(entries: Seq<Tree>) -> bool {
    &&& forall|k: int, l: int|
        0 <= k < l < headers_of(entries).len() ==> (#[trigger] header_node(entries, k)).end <= (
        #[trigger] header_node(entries, l)).start
    &&& forall|k: int, j: int|
        0 <= k < headers_of(entries).len() && 0 <= j < items_under(entries, k).len()
            ==> header_node(entries, k).end <= (#[trigger] item_node(entries, k, j)).start && (k
            + 1 < headers_of(entries).len() ==> item_node(entries, k, j).end <= header_node(
            entries,
            k + 1,
        ).start)
    &&& forall|k: int, i: int, j: int|
        0 <= k < headers_of(entries).len() && 0 <= i < j < items_under(entries, k).len() ==> (
        #[trigger] item_node(entries, k, i)).end <= (#[trigger] item_node(entries, k, j)).start
}

/// Entries that stand one behind the other are counted in order.
pub proof fn lemma_counted_in_order(entries: Seq<Tree>)
    requires
        in_order(entries),
    ensures
        counted_in_order(entries),
{
    let end = entries.len() as int;
    let headers = headers_of(entries);
    lemma_places_of(entries, Rule::category, 0, end);
    assert forall|k: int, j: int|
        0 <= k < headers.len() && 0 <= j < items_under(entries, k).len() implies header_node(
        entries,
        k,
    ).end <= (#[trigger] item_node(entries, k, j)).start && (k + 1 < headers.len() ==> item_node(
        entries,
        k,
        j,
    ).end <= header_node(entries, k + 1).start) by {
        if k + 1 < headers.len() {
            assert(headers[k] < headers[k + 1]);
        }
        lemma_places_of(entries, Rule::item, headers[k] + 1, part_end(headers, k, end));
    }
    assert forall|k: int, i: int, j: int|
        0 <= k < headers.len() && 0 <= i < j < items_under(entries, k).len() implies (
    #[trigger] item_node(entries, k, i)).end <= (#[trigger] item_node(entries, k, j)).start by {
        if k + 1 < headers.len() {
            assert(headers[k] < headers[k + 1]);
        }
        lemma_places_of(entries, Rule::item, headers[k] + 1, part_end(headers, k, end));
    }
}

/// A shopping list that follows the notation, holds more than whitespace and
/// whose numbers can be read is parsed, and its document is in the order of the
/// input. The entries of the list stand in the input one behind the other.
/// The categories of the document are the headers among them, one for one and
/// in their order, and the items of a category are the items between its
/// header and the next, one for one and in their order.
pub proof fn lemma_order_preserved(input: Seq<char>)
    requires
        shopping_list_at(input) is Ok,
        trim(input).len() > 0,
        numbers_fit(shopping_list_at(input)->Ok_0.inner),
    ensures
        parse_result(input) matches Ok(document) && ({
            let entries = shopping_list_at(input)->Ok_0.inner;
            &&& in_order(entries)
            &&& forall|i: int| 0 <= i < entries.len() ==> spans(#[trigger] entries[i], input)
            &&& in_order_of(document, entries)
            &&& counted_in_order(entries)
        }),
{
    let entries = shopping_list_at(input)->Ok_0.inner;
    lemma_entries_from(input, 0);
    lemma_entries_are_sound(entries, input, 0);
    lemma_document_follows_entries(entries);
    lemma_counted_in_order(entries);
    assert forall|i: int| 0 <= i < entries.len() implies spans(#[trigger] entries[i], input) by {
        assert(entry_fits(entries, input, 0, i));
    }
}

} // verus!
