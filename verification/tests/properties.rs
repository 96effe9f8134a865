use shopping_list_parser::{
    parse_shopping_list, write_shopping_list, Grammar, ParseError, Rule, ShoppingCategory,
    ShoppingItem,
};

fn same_documents(left: &[ShoppingCategory], right: &[ShoppingCategory]) -> bool {
    left.len() == right.len()
        && left.iter().zip(right.iter()).all(|(a, b)| {
            a.name == b.name
                && a.items.len() == b.items.len()
                && a.items.iter().zip(b.items.iter()).all(|(x, y)| {
                    x.index == y.index
                        && x.name == y.name
                        && x.quantity == y.quantity
                        && x.unit == y.unit
                        && x.brand == y.brand
                        && x.description == y.description
                })
        })
}

#[test]
fn categories_and_items_keep_the_order_of_the_input() {
    let input = "7. Orphan 1 pcs\n[B]\n3. Pear 2 kg\n1. Fig 9 g\n[A]\n[C]\n2. Kale 1 oz\n5. Leek 4 ml";
    let document = parse_shopping_list(input).expect("the list is valid");
    let names: Vec<&str> = document.iter().map(|c| c.name.as_str()).collect();
    assert_eq!(names, vec!["[B]", "[A]", "[C]"]);
    let indices: Vec<Vec<usize>> =
        document.iter().map(|c| c.items.iter().map(|i| i.index).collect()).collect();
    assert_eq!(indices, vec![vec![3, 1], vec![], vec![2, 5]]);
    let quantities: Vec<Vec<u32>> =
        document.iter().map(|c| c.items.iter().map(|i| i.quantity).collect()).collect();
    assert_eq!(quantities, vec![vec![2, 9], vec![], vec![1, 4]]);
}

#[test]
fn entries_stand_in_the_tree_as_in_the_input() {
    let input = "[B] 3. Pear 2 kg\n[A]";
    let pairs = Grammar::parse(Rule::shopping_list, input).expect("the list is valid");
    assert_eq!(pairs.len(), 1);
    let list = &pairs[0];
    assert_eq!((list.start, list.end), (0, 20));
    let spans: Vec<(Rule, usize, usize)> =
        list.inner.iter().map(|p| (p.rule, p.start, p.end)).collect();
    assert_eq!(
        spans,
        vec![(Rule::category, 0, 3), (Rule::item, 4, 16), (Rule::category, 17, 20)]
    );
    assert_eq!(list.inner[1].as_str(), "3. Pear 2 kg");
}

#[test]
fn a_document_written_out_is_read_as_the_same_document() {
    let input = "\n [Produce]\n 1. Apple 4 pcs (Organic) {Nice and fresh}\n 02. Ultra-Fresh Milk 6 ltr (Dole)\n\n [Household]\n 3. Soap 10 pcs {2 bars}\n[Empty]";
    let document = parse_shopping_list(input).expect("the list is valid");
    let written = write_shopping_list(&document);
    assert_eq!(
        written,
        "[Produce]\n1.Apple 4pcs(Organic){Nice and fresh}\n2.Ultra-Fresh Milk 6ltr(Dole)\n[Household]\n3.Soap 10pcs{2 bars}\n[Empty]\n"
    );
    let again = parse_shopping_list(&written).expect("what was written is valid");
    assert!(same_documents(&document, &again));
    assert_eq!(write_shopping_list(&again), written);
}

#[test]
fn the_document_without_categories_is_written_as_the_empty_text() {
    let document = parse_shopping_list("1. Milk 1 ltr").expect("the list is valid");
    assert!(document.is_empty());
    assert_eq!(write_shopping_list(&document), "");
    assert!(matches!(parse_shopping_list(""), Err(ParseError::EmptyInput)));
}

#[test]
fn empty_string_is_empty_input() {
    assert!(matches!(parse_shopping_list(""), Err(ParseError::EmptyInput)));
}

#[test]
fn whitespace_only_is_empty_input() {
    assert!(matches!(parse_shopping_list(" \t\r\n  "), Err(ParseError::EmptyInput)));
    assert!(matches!(
        parse_shopping_list("\u{00A0}\u{3000}\u{2003}\u{0085}\u{000B}\u{000C}"),
        Err(ParseError::EmptyInput)
    ));
}

#[test]
fn whitespace_that_is_no_separator_is_a_syntax_error() {
    let result = parse_shopping_list("\u{00A0}[A]");
    match result {
        Err(ParseError::ParsingFailed(detail)) => {
            assert_eq!(detail, "cannot match shopping_list at offset 0")
        }
        _ => panic!("a no-break space is no separator"),
    }
    assert!(matches!(parse_shopping_list("[A]\u{000B}[B]"), Err(ParseError::ParsingFailed(_))));
}

#[test]
fn one_category_with_one_item() {
    let document = parse_shopping_list("[DAIRY]\n1. Milk 1 ltr").expect("the list is valid");
    assert_eq!(document.len(), 1);
    assert_eq!(document[0].name, "[DAIRY]");
    assert_eq!(document[0].items.len(), 1);
    let item = &document[0].items[0];
    assert_eq!(item.index, 1);
    assert!(item.name.contains("Milk"));
    assert_eq!(item.name, "Milk ");
    assert_eq!(item.quantity, 1);
    assert_eq!(item.unit, "ltr");
    assert_eq!(item.brand, None);
    assert_eq!(item.description, None);
}

#[test]
fn an_item_without_a_category_is_left_out() {
    let document = parse_shopping_list("1. Milk 1 ltr").expect("the list is valid");
    assert_eq!(document.len(), 0);
}

#[test]
fn an_item_without_a_category_is_still_checked() {
    let result = parse_shopping_list("1. Milk 99999999999 ltr\n[A]");
    match result {
        Err(ParseError::ParsingFailed(detail)) => {
            assert_eq!(detail, "number too large to fit in target type")
        }
        _ => panic!("the quantity does not fit"),
    }
}

#[test]
fn an_unknown_unit_is_a_syntax_error() {
    let result = parse_shopping_list("1.apples5cups\n");
    match result {
        Err(ParseError::ParsingFailed(detail)) => {
            assert_eq!(detail, "cannot match unit at offset 9")
        }
        _ => panic!("cups is no unit"),
    }
}

#[test]
fn two_categories_with_their_items() {
    let input = "[Produce]\n1. Apple 4 pcs (Organic) {Nice and fresh}\n2. Banana 6 pcs (Dole)\n\n[Household]\n3. Soap 10 pcs";
    let document = parse_shopping_list(input).expect("the list is valid");
    assert_eq!(document.len(), 2);

    assert_eq!(document[0].name, "[Produce]");
    assert_eq!(document[0].items.len(), 2);
    let apple = &document[0].items[0];
    assert_eq!(apple.index, 1);
    assert_eq!(apple.name, "Apple ");
    assert_eq!(apple.quantity, 4);
    assert_eq!(apple.unit, "pcs");
    assert_eq!(apple.brand.as_deref(), Some("(Organic)"));
    assert_eq!(apple.description.as_deref(), Some("{Nice and fresh}"));
    let banana = &document[0].items[1];
    assert_eq!(banana.index, 2);
    assert_eq!(banana.name, "Banana ");
    assert_eq!(banana.quantity, 6);
    assert_eq!(banana.unit, "pcs");
    assert_eq!(banana.brand.as_deref(), Some("(Dole)"));
    assert_eq!(banana.description, None);

    assert_eq!(document[1].name, "[Household]");
    assert_eq!(document[1].items.len(), 1);
    let soap = &document[1].items[0];
    assert_eq!(soap.index, 3);
    assert_eq!(soap.name, "Soap ");
    assert_eq!(soap.quantity, 10);
    assert_eq!(soap.unit, "pcs");
    assert_eq!(soap.brand, None);
    assert_eq!(soap.description, None);
}

#[test]
fn separators_change_the_name_only() {
    let tight = parse_shopping_list("[A]1.Milk1ltr(Nestle){cold}").expect("the list is valid");
    let wide = parse_shopping_list("[A] 1 \t.\n Milk  \t 1 \r\n ltr \n (Nestle) \t {cold} ")
        .expect("the list is valid");
    assert_eq!(tight.len(), 1);
    assert_eq!(wide.len(), 1);
    let (a, b) = (&tight[0].items[0], &wide[0].items[0]);
    assert_eq!(a.name, "Milk");
    assert_eq!(b.name, "Milk  ");
    assert_eq!(a.index, b.index);
    assert_eq!(a.quantity, b.quantity);
    assert_eq!(a.unit, b.unit);
    assert_eq!(a.brand, b.brand);
    assert_eq!(a.description, b.description);

    let tight = Grammar::parse(Rule::item, "1.Milk1ltr").expect("an item");
    let wide = Grammar::parse(Rule::item, "1. Milk 1 ltr").expect("an item");
    let rules = |pairs: &Vec<shopping_list_parser::Node>| -> Vec<Rule> {
        pairs[0].inner.iter().map(|p| p.rule).collect()
    };
    let texts = |pairs: &Vec<shopping_list_parser::Node>| -> Vec<String> {
        pairs[0].inner.iter().map(|p| p.text.clone()).collect()
    };
    assert_eq!(rules(&tight), vec![Rule::index, Rule::name, Rule::quantity, Rule::unit]);
    assert_eq!(rules(&tight), rules(&wide));
    assert_eq!(texts(&tight), vec!["1", "Milk", "1", "ltr"]);
    assert_eq!(texts(&wide), vec!["1", "Milk ", "1", "ltr"]);
}

#[test]
fn nothing_is_returned_of_a_list_that_fails_late() {
    let result = parse_shopping_list("[A]\n1. Milk 1 ltr\n[B]\n2. Cola 2");
    match result {
        Err(ParseError::ParsingFailed(detail)) => {
            assert_eq!(detail, "cannot match unit at offset 31")
        }
        _ => panic!("the last item has no unit"),
    }
}

#[test]
fn numbers_at_the_limits() {
    let document =
        parse_shopping_list("[A] 18446744073709551615. x 4294967295 g").expect("both fit");
    assert_eq!(document[0].items[0].index, usize::MAX);
    assert_eq!(document[0].items[0].quantity, u32::MAX);

    let too_much = parse_shopping_list("[A] 1. x 4294967296 g");
    match too_much {
        Err(ParseError::ParsingFailed(detail)) => {
            assert_eq!(detail, "number too large to fit in target type")
        }
        _ => panic!("the quantity does not fit"),
    }
    let too_far = parse_shopping_list("[A] 18446744073709551616. x 1 g");
    assert!(matches!(too_far, Err(ParseError::ParsingFailed(_))));

    let zeros = parse_shopping_list("[A] 000000000000000000000000000007. x 0000000000000 g")
        .expect("leading zeros do not count");
    assert_eq!(zeros[0].items[0].index, 7);
    assert_eq!(zeros[0].items[0].quantity, 0);
}

#[test]
fn parse_errors_in_words() {
    assert_eq!(ParseError::EmptyInput.message(), "input is empty");
    assert_eq!(
        ParseError::ParsingFailed("cannot match unit at offset 9".to_string()).message(),
        "Failed to parse shopping list: cannot match unit at offset 9"
    );
    let error = parse_shopping_list("[Produce] 1. Apple").expect_err("the item is cut short");
    assert_eq!(
        error.message(),
        "Failed to parse shopping list: cannot match quantity at offset 18"
    );
}

#[test]
fn a_document_made_by_hand_is_written_out() {
    let document = vec![
        ShoppingCategory {
            name: "[Tea]".to_string(),
            items: vec![
                ShoppingItem {
                    index: 40,
                    name: "Earl Grey ".to_string(),
                    quantity: 250,
                    unit: "g".to_string(),
                    brand: None,
                    description: Some("{loose}".to_string()),
                },
                ShoppingItem {
                    index: 0,
                    name: "-".to_string(),
                    quantity: 0,
                    unit: "oz".to_string(),
                    brand: Some("(x)".to_string()),
                    description: None,
                },
            ],
        },
        ShoppingCategory { name: "[9]".to_string(), items: vec![] },
    ];
    let written = write_shopping_list(&document);
    assert_eq!(written, "[Tea]\n40.Earl Grey 250g{loose}\n0.-0oz(x)\n[9]\n");
    let again = parse_shopping_list(&written).expect("what was written is valid");
    assert!(same_documents(&document, &again));
    assert_eq!(write_shopping_list(&Vec::new()), "");
}

#[test]
fn a_long_list_is_read_in_one_pass() {
    let mut input = String::new();
    for category in 0..200 {
        input.push_str(&format!("[Category{}]\n", category));
        for item in 0..200 {
            input.push_str(&format!(
                "{}. Item number - {} {} pcs (Brand) {{note {}}}\n",
                item,
                "x".repeat(item % 7 + 1),
                item * 3,
                item
            ));
        }
    }
    let document = parse_shopping_list(&input).expect("the list is valid");
    assert_eq!(document.len(), 200);
    assert!(document.iter().all(|c| c.items.len() == 200));
    assert_eq!(document[199].items[199].index, 199);
    assert_eq!(document[199].items[199].quantity, 597);
    assert_eq!(document[7].name, "[Category7]");
    let written = write_shopping_list(&document);
    let again = parse_shopping_list(&written).expect("what was written is valid");
    assert!(same_documents(&document, &again));
}
