use shopping_list_parser::{parse_shopping_list, Grammar, Node, ParseError, Rule};

fn first_pair(rule: Rule, input: &str) -> Node {
    Grammar::parse(rule, input)
        .expect("the input matches the rule")
        .into_iter()
        .next()
        .expect("no pair")
}

#[test]
fn test_index() {
    let pair = first_pair(Rule::index, "123");
    assert_eq!(pair.as_str(), "123");

    assert!(Grammar::parse(Rule::index, "abc").is_err());
    assert!(Grammar::parse(Rule::index, "").is_err());
}

#[test]
fn test_quantity() {
    let pair = first_pair(Rule::quantity, "500");
    assert_eq!(pair.as_str(), "500");

    assert!(Grammar::parse(Rule::quantity, "abc").is_err());
    assert!(Grammar::parse(Rule::quantity, "").is_err());
}

#[test]
fn test_name() {
    let valid_names = vec!["Milk", "Fresh Milk", "Ultra-Fresh Milk"];

    for name in valid_names {
        let pair = first_pair(Rule::name, name);
        assert_eq!(pair.as_str(), name);
    }

    assert!(Grammar::parse(Rule::name, "").is_err());
    assert!(Grammar::parse(Rule::name, "123").is_err());
}

#[test]
fn test_brand() {
    let valid_brands = vec!["(Nestle)", "(Coca Cola)"];

    for brand in valid_brands {
        let pair = first_pair(Rule::brand, brand);
        assert_eq!(pair.as_str(), brand);
    }

    assert!(Grammar::parse(Rule::brand, "Nestle").is_err());
    assert!(Grammar::parse(Rule::brand, "(123)").is_err());
    assert!(Grammar::parse(Rule::brand, "()").is_err());
}

#[test]
fn test_description() {
    let valid_descriptions = vec!["{Fresh and cold}", "{2 percent fat}"];

    for desc in valid_descriptions {
        let pair = first_pair(Rule::description, desc);
        assert_eq!(pair.as_str(), desc);
    }

    assert!(Grammar::parse(Rule::description, "no braces").is_err());
    assert!(Grammar::parse(Rule::description, "{}").is_err());
}

#[test]
fn test_unit() {
    let valid_units = vec!["kg", "g", "ltr", "ml", "pcs", "oz"];

    for unit in valid_units {
        let pair = first_pair(Rule::unit, unit);
        assert_eq!(pair.as_str(), unit);
    }

    assert!(Grammar::parse(Rule::unit, "pound").is_err());
    assert!(Grammar::parse(Rule::unit, "").is_err());
}

#[test]
fn test_category() {
    let valid_categories = vec!["[DAIRY]", "[DAIRY1]", "[BEVERAGES2]", "[dairy]", "[beverages]"];

    for category in valid_categories {
        let pair = first_pair(Rule::category, category);
        assert_eq!(pair.as_str(), category);
    }

    assert!(Grammar::parse(Rule::category, "DAIRY").is_err());
    assert!(Grammar::parse(Rule::category, "[]").is_err());
    assert!(Grammar::parse(Rule::category, "[DAIRY-1]").is_err());
}

#[test]
fn test_item() {
    let valid_items = vec![
        "1. Milk 1 ltr",
        "2. Fresh Milk 2 ltr (Nestle)",
        "3. Ultra-Fresh Milk 3 ltr (Nestle) {Fresh and cold}",
        "1.Milk1ltr",
        "2.FreshMilk2ltr(Nestle)",
        "3.Ultra-FreshMilk3ltr(Nestle){Freshandcold}",
    ];

    for item in valid_items {
        let pair = first_pair(Rule::item, item);
        assert_eq!(pair.as_str(), item);
    }

    assert!(Grammar::parse(Rule::item, "Milk 1 ltr").is_err());
    assert!(Grammar::parse(Rule::item, "1.").is_err());
    assert!(Grammar::parse(Rule::item, "1. Milk").is_err());
}

#[test]
fn test_shopping_list() {
    let valid_lists = vec![
        "[DAIRY]\n1. Milk 1 ltr\n2. Yogurt 500 g",
        "[DAIRY]\n1. Milk 1 ltr\n[BEVERAGES]\n2. Cola 2 ltr",
        "1. Milk 1 ltr\n2. Cola 2 ltr",
        "",
        "[DAIRY]",
        "1. Milk 1 ltr \n2. Cola 2 ltr",
        "1. Milk 1 ltr\n  2. Cola 2 ltr",
    ];

    for list in valid_lists {
        let pair = first_pair(Rule::shopping_list, list);
        assert_eq!(pair.as_str(), list);
    }

    assert!(Grammar::parse(Rule::shopping_list, "Invalid List").is_err());
    assert!(Grammar::parse(Rule::shopping_list, "Milk 1 ltr").is_err());
    assert!(Grammar::parse(Rule::shopping_list, "[INVALID@]").is_err());
}

#[test]
fn test_parse_item_with_brand_and_description() {
    let input = "[list] 1. Apple 4 pcs (Organic) {Nice and fresh}";
    let result = parse_shopping_list(input).expect("the list is valid");
    assert_eq!(result.len(), 1);
    let category = &result[0];
    assert_eq!(category.items.len(), 1);
    let item = &category.items[0];
    assert_eq!(item.index, 1);
    assert_eq!(item.name.trim(), "Apple");
    assert_eq!(item.quantity, 4);
    assert_eq!(item.unit, "pcs");
    assert_eq!(item.brand, Some("(Organic)".to_string()));
    assert_eq!(item.description, Some("{Nice and fresh}".to_string()));
}

#[test]
fn test_parse_multiple_items_in_category() {
    let input = r#"
        [Produce]
        1. Apple 4 pcs (Organic) {Nice and fresh}
        2. Banana 6 pcs (Dole)
        3. Carrot 1 kg {Locally grown}
        "#;
    let result = parse_shopping_list(input).expect("the list is valid");
    assert_eq!(result.len(), 1);
    let category = &result[0];
    assert_eq!(category.name, "[Produce]");
    assert_eq!(category.items.len(), 3);

    let apple = &category.items[0];
    assert_eq!(apple.index, 1);
    assert_eq!(apple.name.trim(), "Apple");
    assert_eq!(apple.quantity, 4);
    assert_eq!(apple.unit, "pcs");
    assert_eq!(apple.brand, Some("(Organic)".to_string()));
    assert_eq!(apple.description, Some("{Nice and fresh}".to_string()));

    let banana = &category.items[1];
    assert_eq!(banana.index, 2);
    assert_eq!(banana.name.trim(), "Banana");
    assert_eq!(banana.quantity, 6);
    assert_eq!(banana.unit, "pcs");
    assert_eq!(banana.brand, Some("(Dole)".to_string()));
    assert_eq!(banana.description, None);

    let carrot = &category.items[2];
    assert_eq!(carrot.index, 3);
    assert_eq!(carrot.name.trim(), "Carrot");
    assert_eq!(carrot.quantity, 1);
    assert_eq!(carrot.unit, "kg");
    assert_eq!(carrot.brand, None);
    assert_eq!(carrot.description, Some("{Locally grown}".to_string()));
}

#[test]
fn test_parse_multiple_categories() {
    let input = r#"
        [Produce]
        1. Apple 4 pcs (Organic) {Nice and fresh}
        2. Banana 6 pcs (Dole)

        [Household]
        3. Soap 10 pcs
        4. Shampoo 2 ltr
        "#;
    let result = parse_shopping_list(input).expect("the list is valid");
    assert_eq!(result.len(), 2);

    let produce_category = &result[0];
    assert_eq!(produce_category.name, "[Produce]");
    assert_eq!(produce_category.items.len(), 2);

    let household_category = &result[1];
    assert_eq!(household_category.name, "[Household]");
    assert_eq!(household_category.items.len(), 2);
}

#[test]
fn test_parse_empty_input() {
    let result = parse_shopping_list("");
    assert!(matches!(result, Err(ParseError::EmptyInput)));
}

#[test]
fn test_parse_invalid_syntax() {
    let invalid_input = "[Produce] 1. Apple 4 pcs (Organic) {Nice";
    let result = parse_shopping_list(invalid_input);
    assert!(matches!(result, Err(ParseError::ParsingFailed(_))));
}

#[test]
fn test_parse_item_invalid_syntax() {
    let invalid_item = "[Produce] 1. Apple";
    let result = parse_shopping_list(invalid_item);
    assert!(matches!(result, Err(ParseError::ParsingFailed(_))));
}

#[test]
fn test_parse_valid_input_with_missing_category() {
    let input = "1. Apple 4 pcs (Organic) {Nice and fresh}";
    let result = parse_shopping_list(input);
    assert!(result.is_ok());
}
