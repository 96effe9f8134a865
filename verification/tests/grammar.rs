use shopping_list_parser::chars::{chars_of, scan_run, text_of, trim_bounds, CharClass};
use shopping_list_parser::{Grammar, Node, Rule, SyntaxError};

fn only(rule: Rule, input: &str) -> Node {
    let mut pairs = Grammar::parse(rule, input).expect("the input matches the rule");
    assert_eq!(pairs.len(), 1);
    pairs.pop().expect("no pair")
}

fn failure(rule: Rule, input: &str) -> SyntaxError {
    Grammar::parse(rule, input).expect_err("the input does not match the rule")
}

#[test]
fn a_rule_matches_at_the_start_and_may_leave_input_unread() {
    let pair = only(Rule::index, "123abc");
    assert_eq!(pair.as_rule(), Rule::index);
    assert_eq!(pair.as_str(), "123");
    assert_eq!((pair.start, pair.end), (0, 3));
    assert!(pair.into_inner().is_empty());

    assert_eq!(only(Rule::name, "Ultra-Fresh Milk 3").as_str(), "Ultra-Fresh Milk ");
    assert_eq!(only(Rule::unit, "grams").as_str(), "g");
    assert_eq!(only(Rule::unit, "kgs").as_str(), "kg");
    assert_eq!(only(Rule::brand, "(A b)(c)").as_str(), "(A b)");
    assert_eq!(only(Rule::description, "{2 x}y").as_str(), "{2 x}");
    assert_eq!(only(Rule::category, "[a1] [b2]").as_str(), "[a1]");
    assert_eq!(only(Rule::item, "1.a1g[x]").as_str(), "1.a1g");
}

#[test]
fn the_shopping_list_takes_all_input_or_fails() {
    let list = only(Rule::shopping_list, " [a] \n 1.a1g \t ");
    assert_eq!(list.as_str(), " [a] \n 1.a1g \t ");
    assert_eq!(list.inner.len(), 2);
    assert_eq!(
        failure(Rule::shopping_list, "[a] x"),
        SyntaxError { position: 4, expected: Rule::shopping_list }
    );
    let empty = only(Rule::shopping_list, "");
    assert_eq!(empty.as_str(), "");
    assert!(empty.inner.is_empty());
    let blank = only(Rule::shopping_list, " \n\t\r ");
    assert!(blank.inner.is_empty());
}

#[test]
fn entries_need_no_separator_between_them() {
    let list = only(Rule::shopping_list, "[a][b]1.x1g2.y2kg(Z)[c]");
    let rules: Vec<Rule> = list.inner.iter().map(|p| p.rule).collect();
    assert_eq!(
        rules,
        vec![Rule::category, Rule::category, Rule::item, Rule::item, Rule::category]
    );
    let texts: Vec<&str> = list.inner.iter().map(|p| p.as_str()).collect();
    assert_eq!(texts, vec!["[a]", "[b]", "1.x1g", "2.y2kg(Z)", "[c]"]);
}

#[test]
fn the_fields_of_an_item() {
    let item = only(Rule::item, "12 . Fresh Milk  3 ltr (Nestle) {Fresh and cold}  ");
    assert_eq!(item.as_str(), "12 . Fresh Milk  3 ltr (Nestle) {Fresh and cold}");
    assert_eq!((item.start, item.end), (0, 48));
    let fields: Vec<(Rule, &str, usize, usize)> =
        item.inner.iter().map(|p| (p.rule, p.as_str(), p.start, p.end)).collect();
    assert_eq!(
        fields,
        vec![
            (Rule::index, "12", 0, 2),
            (Rule::name, "Fresh Milk  ", 5, 17),
            (Rule::quantity, "3", 17, 18),
            (Rule::unit, "ltr", 19, 22),
            (Rule::brand, "(Nestle)", 23, 31),
            (Rule::description, "{Fresh and cold}", 32, 48),
        ]
    );

    let plain = only(Rule::item, "1.a1g {d}");
    let rules: Vec<Rule> = plain.inner.iter().map(|p| p.rule).collect();
    assert_eq!(rules, vec![Rule::index, Rule::name, Rule::quantity, Rule::unit, Rule::description]);

    let swapped = only(Rule::item, "1.a1g {d} (b)");
    assert_eq!(swapped.as_str(), "1.a1g {d}");
    assert_eq!(swapped.inner.len(), 5);
}

#[test]
fn a_name_takes_spaces_but_no_other_separator() {
    let item = only(Rule::item, "1.a b \t\n 1g");
    assert_eq!(item.inner[1].as_str(), "a b ");
    assert_eq!(item.inner[2].start, 9);
    assert_eq!(
        failure(Rule::item, "1.a\nb 1g"),
        SyntaxError { position: 4, expected: Rule::quantity }
    );
}

#[test]
fn where_a_rule_fails() {
    assert_eq!(failure(Rule::index, "abc"), SyntaxError { position: 0, expected: Rule::index });
    assert_eq!(failure(Rule::index, ""), SyntaxError { position: 0, expected: Rule::index });
    assert_eq!(failure(Rule::name, "1"), SyntaxError { position: 0, expected: Rule::name });
    assert_eq!(failure(Rule::quantity, " 1"), SyntaxError { position: 0, expected: Rule::quantity });
    assert_eq!(failure(Rule::unit, "pound"), SyntaxError { position: 0, expected: Rule::unit });
    assert_eq!(failure(Rule::unit, "k"), SyntaxError { position: 0, expected: Rule::unit });
    assert_eq!(failure(Rule::brand, "Nestle"), SyntaxError { position: 0, expected: Rule::brand });
    assert_eq!(failure(Rule::brand, "()"), SyntaxError { position: 1, expected: Rule::brand });
    assert_eq!(failure(Rule::brand, "(123)"), SyntaxError { position: 1, expected: Rule::brand });
    assert_eq!(failure(Rule::brand, "(ab1)"), SyntaxError { position: 3, expected: Rule::brand });
    assert_eq!(failure(Rule::brand, "(ab"), SyntaxError { position: 3, expected: Rule::brand });
    assert_eq!(
        failure(Rule::description, "{a-b}"),
        SyntaxError { position: 2, expected: Rule::description }
    );
    assert_eq!(
        failure(Rule::category, "[DAIRY-1]"),
        SyntaxError { position: 6, expected: Rule::category }
    );
    assert_eq!(failure(Rule::category, "[ a]"), SyntaxError { position: 1, expected: Rule::category });
    assert_eq!(failure(Rule::item, "1 Milk"), SyntaxError { position: 2, expected: Rule::item });
    assert_eq!(failure(Rule::item, "1."), SyntaxError { position: 2, expected: Rule::name });
    assert_eq!(failure(Rule::item, "1. Milk"), SyntaxError { position: 7, expected: Rule::quantity });
    assert_eq!(failure(Rule::item, "1. Milk 2"), SyntaxError { position: 9, expected: Rule::unit });
    assert_eq!(failure(Rule::item, "Milk 1 ltr"), SyntaxError { position: 0, expected: Rule::index });
}

#[test]
fn where_a_shopping_list_fails() {
    assert_eq!(
        failure(Rule::shopping_list, "Invalid List"),
        SyntaxError { position: 0, expected: Rule::shopping_list }
    );
    assert_eq!(
        failure(Rule::shopping_list, "[INVALID@]"),
        SyntaxError { position: 8, expected: Rule::category }
    );
    assert_eq!(
        failure(Rule::shopping_list, "[a]\n1. Milk 1 ltr (x"),
        SyntaxError { position: 18, expected: Rule::shopping_list }
    );
    assert_eq!(
        failure(Rule::shopping_list, "[a] 1. Milk 1 lt"),
        SyntaxError { position: 14, expected: Rule::unit }
    );
    assert_eq!(
        failure(Rule::shopping_list, "[a] 1. Mil\u{e9} 1 g"),
        SyntaxError { position: 10, expected: Rule::quantity }
    );
}

#[test]
fn syntax_errors_in_words() {
    assert_eq!(
        SyntaxError { position: 0, expected: Rule::shopping_list }.message(),
        "cannot match shopping_list at offset 0"
    );
    assert_eq!(
        SyntaxError { position: 1203, expected: Rule::description }.message(),
        "cannot match description at offset 1203"
    );
    assert_eq!(
        SyntaxError { position: usize::MAX, expected: Rule::index }.message(),
        format!("cannot match index at offset {}", usize::MAX)
    );
    let names: Vec<&str> = vec![
        Rule::index,
        Rule::name,
        Rule::quantity,
        Rule::unit,
        Rule::brand,
        Rule::description,
        Rule::category,
        Rule::item,
        Rule::shopping_list,
    ]
    .iter()
    .map(|r| r.as_str())
    .collect();
    assert_eq!(
        names,
        vec![
            "index",
            "name",
            "quantity",
            "unit",
            "brand",
            "description",
            "category",
            "item",
            "shopping_list"
        ]
    );
}

#[test]
fn character_classes() {
    let digits: String = ('\0'..='\u{ff}').filter(|c| CharClass::Digit.accepts(*c)).collect();
    assert_eq!(digits, "0123456789");
    let name: String = ('\0'..='\u{ff}').filter(|c| CharClass::Name.accepts(*c)).collect();
    assert_eq!(name, " -ABCDEFGHIJKLMNOPQRSTUVWXYZabcdefghijklmnopqrstuvwxyz");
    let brand: String = ('\0'..='\u{ff}').filter(|c| CharClass::Brand.accepts(*c)).collect();
    assert_eq!(brand, " ABCDEFGHIJKLMNOPQRSTUVWXYZabcdefghijklmnopqrstuvwxyz");
    let description: String =
        ('\0'..='\u{ff}').filter(|c| CharClass::Description.accepts(*c)).collect();
    assert_eq!(description, " 0123456789ABCDEFGHIJKLMNOPQRSTUVWXYZabcdefghijklmnopqrstuvwxyz");
    let category: String = ('\0'..='\u{ff}').filter(|c| CharClass::Category.accepts(*c)).collect();
    assert_eq!(category, "0123456789ABCDEFGHIJKLMNOPQRSTUVWXYZabcdefghijklmnopqrstuvwxyz");
    let separators: String =
        ('\0'..='\u{10ffff}').filter(|c| CharClass::Separator.accepts(*c)).collect();
    assert_eq!(separators, "\t\n\r ");
}

#[test]
fn whitespace_is_what_the_standard_library_takes_for_it() {
    for c in '\0'..='\u{10ffff}' {
        assert_eq!(CharClass::Whitespace.accepts(c), c.is_whitespace(), "{:?}", c);
    }
}

#[test]
fn runs_and_pieces_of_text() {
    let chars = chars_of("ab12 \u{e9}x");
    assert_eq!(chars, vec!['a', 'b', '1', '2', ' ', '\u{e9}', 'x']);
    assert_eq!(scan_run(&chars, 0, CharClass::Name), 2);
    assert_eq!(scan_run(&chars, 2, CharClass::Digit), 4);
    assert_eq!(scan_run(&chars, 2, CharClass::Name), 2);
    assert_eq!(scan_run(&chars, 7, CharClass::Name), 7);
    assert_eq!(text_of(&chars, 1, 6), "b12 \u{e9}");
    assert_eq!(text_of(&chars, 3, 3), "");
}

#[test]
fn trimming_cuts_whitespace_off_both_ends() {
    let chars = chars_of(" \u{2003}\ta b \n\u{00A0}");
    assert_eq!(trim_bounds(&chars), (3, 6));
    let blank = chars_of(" \n ");
    let (from, to) = trim_bounds(&blank);
    assert_eq!(from, to);
    let plain = chars_of("ab");
    assert_eq!(trim_bounds(&plain), (0, 2));
    let none = chars_of("");
    assert_eq!(trim_bounds(&none), (0, 0));
    for text in ["", " ", " a", "a ", " a b ", "\u{3000}x\u{0085}", "\n\n"] {
        let chars = chars_of(text);
        let (from, to) = trim_bounds(&chars);
        assert_eq!(text_of(&chars, from, to), text.trim());
    }
}
