use shopping_list_parser::document::{build_document, parse_item};
use shopping_list_parser::number::NumberError;
use shopping_list_parser::{Grammar, Node, Rule};

fn node(rule: Rule, text: &str, inner: Vec<Node>) -> Node {
    Node { rule, start: 0, end: text.chars().count(), text: text.to_string(), inner }
}

fn leaf(rule: Rule, text: &str) -> Node {
    node(rule, text, Vec::new())
}

#[test]
fn an_item_from_the_fields_that_the_grammar_finds() {
    let mut pairs = Grammar::parse(Rule::item, "12. Oat Milk 3 ltr (Oatly) {2 percent fat}")
        .expect("an item");
    let item = parse_item(&pairs.pop().expect("no pair")).expect("the numbers fit");
    assert_eq!(item.index, 12);
    assert_eq!(item.name, "Oat Milk ");
    assert_eq!(item.quantity, 3);
    assert_eq!(item.unit, "ltr");
    assert_eq!(item.brand.as_deref(), Some("(Oatly)"));
    assert_eq!(item.description.as_deref(), Some("{2 percent fat}"));
}

#[test]
fn an_item_without_fields_is_blank() {
    let item = parse_item(&node(Rule::item, "", Vec::new())).expect("nothing to read");
    assert_eq!(item.index, 0);
    assert_eq!(item.name, "");
    assert_eq!(item.quantity, 0);
    assert_eq!(item.unit, "");
    assert_eq!(item.brand, None);
    assert_eq!(item.description, None);
}

#[test]
fn a_later_field_replaces_an_earlier_one() {
    let fields = vec![
        leaf(Rule::name, "first"),
        leaf(Rule::index, "1"),
        leaf(Rule::brand, "(a)"),
        leaf(Rule::index, "2"),
        leaf(Rule::name, "second"),
        leaf(Rule::quantity, " 5 "),
        leaf(Rule::brand, "(b)"),
        leaf(Rule::unit, "whatever"),
    ];
    let item = parse_item(&node(Rule::item, "", fields)).expect("the numbers fit");
    assert_eq!(item.index, 2);
    assert_eq!(item.name, "second");
    assert_eq!(item.quantity, 5);
    assert_eq!(item.unit, "whatever");
    assert_eq!(item.brand.as_deref(), Some("(b)"));
    assert_eq!(item.description, None);
}

#[test]
fn the_first_number_that_cannot_be_read_refuses_the_item() {
    let fields = vec![
        leaf(Rule::index, "1"),
        leaf(Rule::quantity, "x"),
        leaf(Rule::index, "99999999999999999999999999"),
    ];
    let refused = parse_item(&node(Rule::item, "", fields)).expect_err("no quantity");
    assert_eq!(refused, NumberError::InvalidDigit);

    let fields = vec![leaf(Rule::index, "99999999999999999999999999"), leaf(Rule::quantity, "x")];
    let refused = parse_item(&node(Rule::item, "", fields)).expect_err("no index");
    assert_eq!(refused, NumberError::PosOverflow);

    let fields = vec![leaf(Rule::quantity, "  ")];
    let refused = parse_item(&node(Rule::item, "", fields)).expect_err("no quantity");
    assert_eq!(refused, NumberError::Empty);
}

#[test]
fn the_walk_over_entries_made_by_hand() {
    let item = |index: &str| node(Rule::item, "", vec![leaf(Rule::index, index)]);
    let entries = vec![
        item("1"),
        leaf(Rule::unit, "kg"),
        leaf(Rule::category, "[A]"),
        item("2"),
        leaf(Rule::shopping_list, "ignored"),
        item("3"),
        leaf(Rule::category, "anything"),
        leaf(Rule::category, "[B]"),
        leaf(Rule::name, "ignored too"),
        item("4"),
    ];
    let document = build_document(&entries).expect("the numbers fit");
    let shape: Vec<(&str, Vec<usize>)> = document
        .iter()
        .map(|c| (c.name.as_str(), c.items.iter().map(|i| i.index).collect()))
        .collect();
    assert_eq!(
        shape,
        vec![("[A]", vec![2, 3]), ("anything", vec![]), ("[B]", vec![4])]
    );
}

#[test]
fn the_walk_fails_at_the_first_item_that_fails() {
    let item = |index: &str| node(Rule::item, "", vec![leaf(Rule::index, index)]);
    let entries = vec![leaf(Rule::category, "[A]"), item("1"), item(""), item("x")];
    assert_eq!(build_document(&entries).expect_err("an empty index"), NumberError::Empty);
    let entries = vec![item("x"), leaf(Rule::category, "[A]"), item("")];
    assert_eq!(build_document(&entries).expect_err("no index"), NumberError::InvalidDigit);
}

#[test]
fn no_entries_no_categories() {
    let document = build_document(&Vec::new()).expect("nothing to read");
    assert!(document.is_empty());
    let document = build_document(&vec![leaf(Rule::category, "[A]")]).expect("nothing to read");
    assert_eq!(document.len(), 1);
    assert!(document[0].items.is_empty());
}
