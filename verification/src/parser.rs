//! The entry point: from the text of a shopping list to its document.

use crate::chars::{chars_of, trim, trim_bounds};
use crate::document::{build_document, document_of, document_view, Category, ShoppingCategory};
use crate::grammar::shopping_list_at;
use crate::number::number_message;
use crate::recognizer::Grammar;
use crate::shape::{lemma_entries_are_sound, lemma_entries_from};
use crate::tree::{lemma_view_inner, syntax_message, trees, Rule};
use vstd::prelude::*;
use vstd::string::StringExecFns;

verus! {

/// Why a text is no shopping list.
#[derive(Debug)]
pub enum ParseError {
    /// The text holds nothing but whitespace.
    EmptyInput,
    /// The text does not follow the notation, or a number in it is too large;
    /// the string says which and where.
    ParsingFailed(String),
}

/// A parse error as a mathematical value.
pub ghost enum Failure {
    EmptyInput,
    ParsingFailed(Seq<char>),
}

impl View for ParseError {
    type V = Failure;

    open spec fn view(&self) -> Failure {
        match self {
            ParseError::EmptyInput => Failure::EmptyInput,
            ParseError::ParsingFailed(detail) => Failure::ParsingFailed(detail@),
        }
    }
}

/// What a parse error says of itself.
pub open spec fn failure_message(failure: Failure) -> Seq<char> {
    match failure {
        Failure::EmptyInput => "input is empty"@,
        Failure::ParsingFailed(detail) => "Failed to parse shopping list: "@ + detail,
    }
}

impl ParseError {
    /// The error in words.
    pub fn message(&self) -> (text: String)
        ensures
            text@ == failure_message(self@),
    {
        match self {
            ParseError::EmptyInput => "input is empty".to_owned(),
            ParseError::ParsingFailed(detail) => {
                let mut text = "Failed to parse shopping list: ".to_owned();
                text.append(detail.as_str());
                text
            },
        }
    }
}

/// What a shopping list given as `input` is read as. A text of whitespace only
/// is refused as empty before anything else is looked at. A text that is no
/// shopping list is refused with what the recogniser says of it, and one with a
/// number that cannot be read, with what the number says. There is no partial
/// result.
pub open spec fn parse_result(input: Seq<char>) -> Result<Seq<Category>, Failure> {
    if trim(input).len() == 0 {
        Err(Failure::EmptyInput)
    } else {
        match shopping_list_at(input) {
            Err(e) => Err(Failure::ParsingFailed(syntax_message(e))),
            Ok(list) => match document_of(list.inner) {
                Err(e) => Err(Failure::ParsingFailed(number_message(e))),
                Ok(document) => Ok(document),
            },
        }
    }
}

/// What a call of the parser returned, as a mathematical value.
pub open spec fn parse_outcome(r: Result<Vec<ShoppingCategory>, ParseError>) -> Result<
    Seq<Category>,
    Failure,
> {
    match r {
        Ok(categories) => Ok(document_view(categories@)),
        Err(e) => Err(e@),
    }
}

/// Reads a shopping list: the categories in the order of their headers, each
/// with the items that stand between its header and the next, in their order.
/// Items in front of the first header are checked and left out.
pub fn parse_shopping_list(input: &str) -> (r: Result<Vec<ShoppingCategory>, ParseError>)
    ensures
        parse_outcome(r) == parse_result(input@),
{
    let chars = chars_of(input);
    let (from, to) = trim_bounds(&chars);
    if from == to {
        return Err(ParseError::EmptyInput);
    }
    let nodes = match Grammar::parse_chars(Rule::shopping_list, &chars) {
        Ok(nodes) => nodes,
        Err(e) => {
            return Err(ParseError::ParsingFailed(e.message()));
        },
    };
    proof {
        let list = shopping_list_at(chars@)->Ok_0;
        assert(trees(nodes@) == seq![list]);
        assert(seq![list].len() == 1);
        assert(trees(nodes@).len() == nodes@.len());
        assert(trees(nodes@)[0] == nodes@[0]@);
    }
    let list = &nodes[0];
    proof {
        lemma_view_inner(*list);
        lemma_entries_from(chars@, 0);
        lemma_entries_are_sound(list@.inner, chars@, 0);
    }
    match build_document(&list.inner) {
        Ok(categories) => Ok(categories),
        Err(e) => Err(ParseError::ParsingFailed(e.message())),
    }
}

} // verus!
