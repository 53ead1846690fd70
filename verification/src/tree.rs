//! The parse tree: which rule of the grammar matched which stretch of the
//! source, and the matches inside it.

use vstd::prelude::*;

verus! {

/// The rules of the grammar.
#[allow(non_camel_case_types)]
#[derive(Clone, Copy, Debug, PartialEq, Eq, PartialOrd, Ord, Hash, Structural)]
pub enum Rule {
    /// The end of the source.
    EOI,
    /// One blank character: space, tab, carriage return or line feed.
    WHITESPACE,
    /// `//` and what follows it on the line.
    COMMENT,
    /// One or more ASCII letters.
    ident,
    /// One or more ASCII digits.
    integer,
    /// The empty-set sign.
    empty,
    /// The whole source: statements, then the end.
    program,
    /// A declaration or a print statement.
    stmt,
    /// `let` name `=` expression `;`
    decl,
    /// `print` expression `;`
    print_stmt,
    /// The complement mark, written after its operand.
    complement,
    /// The union sign.
    union,
    /// The intersection sign.
    intersection,
    /// The difference sign.
    difference,
    /// The symmetric-difference sign.
    symmetric_difference,
    /// An expression.
    expr,
    /// Operands joined by union and symmetric-difference signs.
    add,
    /// Operands joined by intersection and difference signs.
    mul,
    /// A primary followed by any number of complement marks.
    postfix,
    /// A set, or an expression in parentheses.
    primary,
    /// A name, the empty-set sign, a set literal or a range.
    set,
    /// Integers between braces, separated by commas.
    set_literal,
    /// Two integers between braces, separated by `..`.
    range,
}

/// Ghost counterpart of [`Pair`]: `rule` matched the characters from `start`
/// up to, not including, `end`; `inner` holds the matches of the rules inside,
/// in source order.
pub struct Node {
    pub rule: Rule,
    pub start: int,
    pub end: int,
    pub inner: Seq<Node>,
}

/// One match of a rule. `start` and `end` count characters of the source.
#[derive(Debug, PartialEq, Eq)]
pub struct Pair {
    pub rule: Rule,
    pub start: usize,
    pub end: usize,
    pub inner: Vec<Pair>,
}

/// The node that a pair stands for.
pub open spec fn node_of(p: Pair) -> Node
    decreases p,
{
    Node {
        rule: p.rule,
        start: p.start as int,
        end: p.end as int,
        inner: Seq::new(
            p.inner@.len(),
            |i: int|
                if 0 <= i < p.inner@.len() {
                    node_of(p.inner@[i])
                } else {
                    arbitrary()
                },
        ),
    }
}

impl View for Pair {
    type V = Node;

    open spec fn view(&self) -> Node {
        node_of(*self)
    }
}

/// The nodes that the pairs stand for.
pub open spec fn nodes_of(pairs: Seq<Pair>) -> Seq<Node> {
    Seq::new(pairs.len(), |i: int| pairs[i]@)
}

/// The view of a pair, field by field.
pub proof fn lemma_pair_view(p: Pair)
    ensures
        p@.rule == p.rule,
        p@.start == p.start,
        p@.end == p.end,
        p@.inner == nodes_of(p.inner@),
{
    assert(p@.inner =~= nodes_of(p.inner@));
}

impl Pair {
    /// The rule that matched.
    pub fn as_rule(&self) -> (rule: Rule)
        ensures
            rule == self@.rule,
    {
        self.rule
    }
}

} // verus!
