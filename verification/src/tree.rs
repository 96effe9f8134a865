//! The parse tree: what the recogniser hands to the walk that builds the
//! document, and the error that it reports where the input does not match.

use crate::number::{decimal_text, push_decimal};
use vstd::prelude::*;
use vstd::string::StringExecFns;

verus! {

/// The rules of the grammar. The variants are spelled as the rules are written
/// in the notation.
#[allow(non_camel_case_types)]
#[derive(Clone, Copy, Debug, PartialEq, Eq, Structural)]
pub enum Rule {
    /// One or more digits: the number in front of an item.
    index,
    /// One or more letters, spaces and hyphens.
    name,
    /// One or more digits: how much of the item.
    quantity,
    /// One of `kg`, `g`, `ltr`, `ml`, `pcs`, `oz`.
    unit,
    /// Letters and spaces in parentheses.
    brand,
    /// Letters, digits and spaces in braces.
    description,
    /// Letters and digits in brackets.
    category,
    /// An index, a dot, a name, a quantity, a unit, and then optionally a brand
    /// and a description.
    item,
    /// The whole document: categories and items.
    shopping_list,
}

/// The name of a rule, as it is written in the notation.
pub open spec fn rule_name(rule: Rule) -> Seq<char> {
    match rule {
        Rule::index => "index"@,
        Rule::name => "name"@,
        Rule::quantity => "quantity"@,
        Rule::unit => "unit"@,
        Rule::brand => "brand"@,
        Rule::description => "description"@,
        Rule::category => "category"@,
        Rule::item => "item"@,
        Rule::shopping_list => "shopping_list"@,
    }
}

/// Whether `rule` is one of the six rules that make up an item.
pub open spec fn is_field(rule: Rule) -> bool {
    rule == Rule::index || rule == Rule::name || rule == Rule::quantity || rule == Rule::unit
        || rule == Rule::brand || rule == Rule::description
}

impl Rule {
    /// The name of the rule.
    pub fn as_str(&self) -> (name: &'static str)
        ensures
            name@ == rule_name(*self),
    {
        match self {
            Rule::index => "index",
            Rule::name => "name",
            Rule::quantity => "quantity",
            Rule::unit => "unit",
            Rule::brand => "brand",
            Rule::description => "description",
            Rule::category => "category",
            Rule::item => "item",
            Rule::shopping_list => "shopping_list",
        }
    }
}

/// A node of the parse tree as a mathematical value: the rule that matched, the
/// span of the input that it matched, and the nodes of the rules matched inside.
pub ghost struct Tree {
    pub rule: Rule,
    /// The offset of the first character of the span, counted in characters.
    pub start: int,
    /// The offset just behind the last character of the span.
    pub end: int,
    /// The characters of the span.
    pub text: Seq<char>,
    pub inner: Seq<Tree>,
}

/// Whether every node of `fields` is a field of an item.
pub open spec fn all_fields(fields: Seq<Tree>) -> bool {
    forall|i: int| 0 <= i < fields.len() ==> is_field(#[trigger] fields[i].rule)
}

/// A node of the parse tree.
#[derive(Debug)]
pub struct Node {
    pub rule: Rule,
    /// The offset of the first character of the span, counted in characters.
    pub start: usize,
    /// The offset just behind the last character of the span.
    pub end: usize,
    /// The characters of the span.
    pub text: String,
    pub inner: Vec<Node>,
}

impl View for Node {
    type V = Tree;

    open spec fn view(&self) -> Tree {
        self.tree()
    }
}

/// The trees that a sequence of nodes stands for.
pub open spec fn trees(nodes: Seq<Node>) -> Seq<Tree> {
    Seq::new(nodes.len(), |i: int| nodes[i]@)
}

impl Node {
    /// The tree that the node stands for.
    pub open spec fn tree(self) -> Tree
        decreases self,
    {
        Tree {
            rule: self.rule,
            start: self.start as int,
            end: self.end as int,
            text: self.text@,
            inner: Seq::new(
                self.inner@.len(),
                |i: int|
                    if 0 <= i < self.inner@.len() {
                        self.inner@[i].tree()
                    } else {
                        arbitrary()
                    },
            ),
        }
    }

    /// The rule that the node matched.
    pub fn as_rule(&self) -> (rule: Rule)
        ensures
            rule == self@.rule,
    {
        self.rule
    }

    /// The characters that the node matched.
    pub fn as_str(&self) -> (text: &str)
        ensures
            text@ == self@.text,
    {
        self.text.as_str()
    }

    /// The nodes of the rules matched inside the node, in the order of the input.
    pub fn into_inner(self) -> (inner: Vec<Node>)
        ensures
            trees(inner@) == self@.inner,
    {
        proof {
            lemma_view_inner(self);
        }
        self.inner
    }
}

/// The nodes inside a node stand for the trees inside its tree.
pub proof fn lemma_view_inner(node: Node)
    ensures
        node@.inner == trees(node.inner@),
{
    assert(node@.inner =~= trees(node.inner@));
}

/// One more node at the end is one more tree at the end.
pub proof fn lemma_trees_push(nodes: Seq<Node>, node: Node)
    ensures
        trees(nodes.push(node)) == trees(nodes).push(node@),
{
    assert(trees(nodes.push(node)) =~= trees(nodes).push(node@));
}

/// Where the input stopped matching, and the rule that could not be matched or
/// continued there.
#[derive(Clone, Copy, Debug, PartialEq, Eq, Structural)]
pub struct SyntaxError {
    /// The offset of the offending character, counted in characters; the length
    /// of the input where the input ended too early.
    pub position: usize,
    pub expected: Rule,
}

/// A syntax error as a mathematical value.
pub ghost struct Mismatch {
    pub position: int,
    pub expected: Rule,
}

impl View for SyntaxError {
    type V = Mismatch;

    open spec fn view(&self) -> Mismatch {
        Mismatch { position: self.position as int, expected: self.expected }
    }
}

/// What a syntax error says of itself: the rule and the offset.
pub open spec fn syntax_message(e: Mismatch) -> Seq<char> {
    "cannot match "@ + rule_name(e.expected) + " at offset "@ + decimal_text(e.position as nat)
}

impl SyntaxError {
    /// The error in words.
    pub fn message(&self) -> (text: String)
        ensures
            text@ == syntax_message(self@),
    {
        let mut text = "cannot match ".to_owned();
        text.append(self.expected.as_str());
        text.append(" at offset ");
        push_decimal(&mut text, self.position as u64);
        text
    }
}

/// What a recogniser returns, with the node taken as the tree it stands for.
pub open spec fn outcome(r: Result<Node, SyntaxError>) -> Result<Tree, Mismatch> {
    match r {
        Ok(node) => Ok(node@),
        Err(e) => Err(e@),
    }
}

} // verus!
