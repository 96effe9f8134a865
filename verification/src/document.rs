//! The document: categories with their items, and the walk over the parse tree
//! that builds it.

use crate::number::{index_value, parse_index, parse_quantity, quantity_value, NumberError};
use crate::tree::{all_fields, is_field, lemma_view_inner, trees, Node, Rule, Tree};
use vstd::pervasive::unreached;
use vstd::prelude::*;

verus! {

/// One entry of a shopping list.
#[derive(Debug)]
pub struct ShoppingItem {
    /// The number in front of the item.
    pub index: usize,
    /// The name as it stands in the input, with the spaces that follow it.
    pub name: String,
    pub quantity: u32,
    pub unit: String,
    /// The brand with its parentheses, where the item has one.
    pub brand: Option<String>,
    /// The description with its braces, where the item has one.
    pub description: Option<String>,
}

/// A category and the items that stand under it.
#[derive(Debug)]
pub struct ShoppingCategory {
    /// The header with its brackets.
    pub name: String,
    pub items: Vec<ShoppingItem>,
}

/// An item as a mathematical value.
pub ghost struct Item {
    pub index: usize,
    pub name: Seq<char>,
    pub quantity: u32,
    pub unit: Seq<char>,
    pub brand: Option<Seq<char>>,
    pub description: Option<Seq<char>>,
}

/// A category as a mathematical value.
pub ghost struct Category {
    pub name: Seq<char>,
    pub items: Seq<Item>,
}

/// The characters of an optional string.
pub open spec fn optional_text(text: Option<String>) -> Option<Seq<char>> {
    match text {
        Some(t) => Some(t@),
        None => None,
    }
}

impl View for ShoppingItem {
    type V = Item;

    open spec fn view(&self) -> Item {
        Item {
            index: self.index,
            name: self.name@,
            quantity: self.quantity,
            unit: self.unit@,
            brand: optional_text(self.brand),
            description: optional_text(self.description),
        }
    }
}

/// The items that a sequence of item records stands for.
pub open spec fn items_view(items: Seq<ShoppingItem>) -> Seq<Item> {
    Seq::new(items.len(), |i: int| items[i]@)
}

impl View for ShoppingCategory {
    type V = Category;

    open spec fn view(&self) -> Category {
        Category { name: self.name@, items: items_view(self.items@) }
    }
}

/// The document that a sequence of category records stands for.
pub open spec fn document_view(categories: Seq<ShoppingCategory>) -> Seq<Category> {
    Seq::new(categories.len(), |i: int| categories[i]@)
}

/// The item that nothing has been said of yet.
pub open spec fn blank_item() -> Item {
    Item {
        index: 0,
        name: Seq::empty(),
        quantity: 0,
        unit: Seq::empty(),
        brand: None,
        description: None,
    }
}

/// `item` with what `field` says of it. An index and a quantity are read as
/// numbers, and the item is refused where they are none; everything else is
/// taken as it stands. A node of another rule is no field: `parse_item` asks
/// that there is none.
pub open spec fn with_field(item: Item, field: Tree) -> Result<Item, NumberError> {
    match field.rule {
        Rule::index => match index_value(field.text) {
            Ok(index) => Ok(Item { index, ..item }),
            Err(e) => Err(e),
        },
        Rule::name => Ok(Item { name: field.text, ..item }),
        Rule::quantity => match quantity_value(field.text) {
            Ok(quantity) => Ok(Item { quantity, ..item }),
            Err(e) => Err(e),
        },
        Rule::unit => Ok(Item { unit: field.text, ..item }),
        Rule::brand => Ok(Item { brand: Some(field.text), ..item }),
        Rule::description => Ok(Item { description: Some(field.text), ..item }),
        _ => Ok(item),
    }
}

/// The item that `fields` describe, taken one after the other: a later field
/// replaces an earlier one of its rule, and the first number that cannot be
/// read refuses the item.
pub open spec fn item_from(fields: Seq<Tree>) -> Result<Item, NumberError>
    decreases fields.len(),
{
    if fields.len() == 0 {
        Ok(blank_item())
    } else {
        match item_from(fields.drop_last()) {
            Ok(item) => with_field(item, fields.last()),
            Err(e) => Err(e),
        }
    }
}

/// What an item record returned stands for.
pub open spec fn item_outcome(r: Result<ShoppingItem, NumberError>) -> Result<Item, NumberError> {
    match r {
        Ok(item) => Ok(item@),
        Err(e) => Err(e),
    }
}

/// Builds the item that the nodes inside `node` describe. Every one of them
/// has to be a field of an item.
pub fn parse_item(node: &Node) -> (r: Result<ShoppingItem, NumberError>)
    requires
        all_fields(node@.inner),
    ensures
        item_outcome(r) == item_from(node@.inner),
{
    let mut item = ShoppingItem {
        index: 0,
        name: String::new(),
        quantity: 0,
        unit: String::new(),
        brand: None,
        description: None,
    };
    let ghost fields = node@.inner;
    proof {
        lemma_view_inner(*node);
        assert(fields.take(0) =~= Seq::<Tree>::empty());
    }
    let mut i: usize = 0;
    while i < node.inner.len()
        invariant
            i <= node.inner.len(),
            fields == node@.inner,
            fields == trees(node.inner@),
            all_fields(fields),
            item_from(fields.take(i as int)) == Ok::<Item, NumberError>(item@),
        decreases node.inner.len() - i,
    {
        let field = &node.inner[i];
        proof {
            assert(fields.take(i + 1).drop_last() =~= fields.take(i as int));
            assert(fields.take(i + 1).last() == field@);
            assert(is_field(fields[i as int].rule));
            lemma_item_from_fails(fields, i + 1);
        }
        match field.rule {
            Rule::index => match parse_index(field.text.as_str()) {
                Ok(index) => {
                    item.index = index;
                },
                Err(e) => {
                    return Err(e);
                },
            },
            Rule::name => {
                item.name = field.text.clone();
            },
            Rule::quantity => match parse_quantity(field.text.as_str()) {
                Ok(quantity) => {
                    item.quantity = quantity;
                },
                Err(e) => {
                    return Err(e);
                },
            },
            Rule::unit => {
                item.unit = field.text.clone();
            },
            Rule::brand => {
                item.brand = Some(field.text.clone());
            },
            Rule::description => {
                item.description = Some(field.text.clone());
            },
            _ => unreached(),
        }
        i = i + 1;
    }
    proof {
        assert(fields.take(i as int) =~= fields);
    }
    Ok(item)
}

/// Once the first `k` fields refuse the item, all of them do, for the same
/// reason.
pub proof fn lemma_item_from_fails(fields: Seq<Tree>, k: int)
    requires
        0 <= k <= fields.len(),
    ensures
        item_from(fields.take(k)) matches Err(e) ==> item_from(fields) == Err::<
            Item,
            NumberError,
        >(e),
    decreases fields.len() - k,
{
    if k < fields.len() {
        lemma_item_from_fails(fields, k + 1);
        assert(fields.take(k + 1).drop_last() =~= fields.take(k));
    } else {
        assert(fields.take(k) =~= fields);
    }
}

/// One more item record at the end is one more item at the end.
pub proof fn lemma_items_view_push(items: Seq<ShoppingItem>, item: ShoppingItem)
    ensures
        items_view(items.push(item)) == items_view(items).push(item@),
{
    assert(items_view(items.push(item)) =~= items_view(items).push(item@));
}

/// One more category record at the end is one more category at the end.
pub proof fn lemma_document_view_push(categories: Seq<ShoppingCategory>, category: ShoppingCategory)
    ensures
        document_view(categories.push(category)) == document_view(categories).push(category@),
{
    assert(document_view(categories.push(category)) =~= document_view(categories).push(
        category@,
    ));
}

/// How far the walk over the entries has come: the categories that are
/// complete, and the one that items are still added to, where a header has
/// been met.
pub ghost struct Walk {
    pub closed: Seq<Category>,
    pub open: Option<Category>,
}

/// The categories of a walk, the open one last.
pub open spec fn categories_of(walk: Walk) -> Seq<Category> {
    match walk.open {
        Some(category) => walk.closed.push(category),
        None => walk.closed,
    }
}

/// The walk after one more entry. A category header closes the open category
/// and opens an empty one of its name. An item goes to the open category, and
/// is dropped where none is open; either way its numbers have to be numbers.
/// Any other node is passed over.
pub open spec fn step(walk: Walk, entry: Tree) -> Result<Walk, NumberError> {
    match entry.rule {
        Rule::category => Ok(
            Walk {
                closed: categories_of(walk),
                open: Some(Category { name: entry.text, items: Seq::empty() }),
            },
        ),
        Rule::item => match item_from(entry.inner) {
            Err(e) => Err(e),
            Ok(item) => Ok(
                Walk {
                    closed: walk.closed,
                    open: match walk.open {
                        Some(category) => Some(
                            Category { name: category.name, items: category.items.push(item) },
                        ),
                        None => None,
                    },
                },
            ),
        },
        _ => Ok(walk),
    }
}

/// The walk over `entries` from the left, started with nothing closed and
/// nothing open. It fails at the first entry that fails.
pub open spec fn walk_over(entries: Seq<Tree>) -> Result<Walk, NumberError>
    decreases entries.len(),
{
    if entries.len() == 0 {
        Ok(Walk { closed: Seq::empty(), open: None })
    } else {
        match walk_over(entries.drop_last()) {
            Ok(walk) => step(walk, entries.last()),
            Err(e) => Err(e),
        }
    }
}

/// The document that `entries` describe: the categories in the order of their
/// headers, each with the items between its header and the next.
pub open spec fn document_of(entries: Seq<Tree>) -> Result<Seq<Category>, NumberError> {
    match walk_over(entries) {
        Ok(walk) => Ok(categories_of(walk)),
        Err(e) => Err(e),
    }
}

/// Once the walk over the first `k` entries fails, the walk over all of them
/// fails for the same reason.
pub proof fn lemma_walk_fails(entries: Seq<Tree>, k: int)
    requires
        0 <= k <= entries.len(),
    ensures
        walk_over(entries.take(k)) matches Err(e) ==> walk_over(entries) == Err::<
            Walk,
            NumberError,
        >(e),
    decreases entries.len() - k,
{
    if k < entries.len() {
        lemma_walk_fails(entries, k + 1);
        assert(entries.take(k + 1).drop_last() =~= entries.take(k));
    } else {
        assert(entries.take(k) =~= entries);
    }
}

/// Whether the nodes inside every item of `entries` are fields of an item.
pub open spec fn items_have_fields(entries: Seq<Tree>) -> bool {
    forall|i: int|
        0 <= i < entries.len() && (#[trigger] entries[i]).rule == Rule::item ==> all_fields(
            entries[i].inner,
        )
}

/// What a document returned stands for.
pub open spec fn document_outcome(r: Result<Vec<ShoppingCategory>, NumberError>) -> Result<
    Seq<Category>,
    NumberError,
> {
    match r {
        Ok(categories) => Ok(document_view(categories@)),
        Err(e) => Err(e),
    }
}

/// The category that is open, as a mathematical value.
pub open spec fn open_view(current: Option<ShoppingCategory>) -> Option<Category> {
    match current {
        Some(category) => Some(category@),
        None => None,
    }
}

/// Builds the document from the entries of a shopping list, in one pass from
/// the left.
pub fn build_document(entries: &Vec<Node>) -> (r: Result<Vec<ShoppingCategory>, NumberError>)
    requires
        items_have_fields(trees(entries@)),
    ensures
        document_outcome(r) == document_of(trees(entries@)),
{
    let mut categories: Vec<ShoppingCategory> = Vec::new();
    let mut current: Option<ShoppingCategory> = None;
    let ghost nodes = trees(entries@);
    proof {
        assert(nodes.take(0) =~= Seq::<Tree>::empty());
        assert(document_view(categories@) =~= Seq::<Category>::empty());
    }
    let mut i: usize = 0;
    while i < entries.len()
        invariant
            i <= entries.len(),
            nodes == trees(entries@),
            items_have_fields(nodes),
            walk_over(nodes.take(i as int)) == Ok::<Walk, NumberError>(
                Walk { closed: document_view(categories@), open: open_view(current) },
            ),
        decreases entries.len() - i,
    {
        let entry = &entries[i];
        proof {
            assert(nodes.take(i + 1).drop_last() =~= nodes.take(i as int));
            assert(nodes.take(i + 1).last() == entry@);
            assert(nodes[i as int] == entry@);
            lemma_walk_fails(nodes, i + 1);
        }
        match entry.rule {
            Rule::category => {
                match current {
                    Some(category) => {
                        proof {
                            lemma_document_view_push(categories@, category);
                        }
                        categories.push(category);
                    },
                    None => {},
                }
                let opened = ShoppingCategory { name: entry.text.clone(), items: Vec::new() };
                proof {
                    assert(items_view(opened.items@) =~= Seq::<Item>::empty());
                }
                current = Some(opened);
            },
            Rule::item => {
                let item = match parse_item(entry) {
                    Ok(item) => item,
                    Err(e) => {
                        return Err(e);
                    },
                };
                current = match current {
                    Some(category) => {
                        let mut category = category;
                        proof {
                            lemma_items_view_push(category.items@, item);
                        }
                        category.items.push(item);
                        Some(category)
                    },
                    None => None,
                };
            },
            _ => {},
        }
        i = i + 1;
    }
    proof {
        assert(nodes.take(i as int) =~= nodes);
    }
    match current {
        Some(category) => {
            proof {
                lemma_document_view_push(categories@, category);
            }
            categories.push(category);
        },
        None => {},
    }
    Ok(categories)
}

} // verus!
