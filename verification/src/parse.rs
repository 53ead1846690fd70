//! From source text to syntax tree: the grammar engine finds the parse tree,
//! and the builder here turns it into a [`Program`].
//!
//! What the builder makes of a parse tree is given by the spec functions
//! [`program_of`], [`stmt_of`] and [`expr_of`]; what the whole parser makes
//! of a source text by [`parsed`].

use crate::ast::{Expr, ExprView, Program, ProgramView, Stmt, StmtView};
pub use crate::engine::{SetLang, SyntaxError};
use crate::grammar::{parse_result, CharClass, Failure};
use crate::tree::{lemma_pair_view, nodes_of, Node};
pub use crate::tree::{Pair, Rule};
use vstd::prelude::*;

verus! {

/// Why no program came out of a source text.
#[derive(Clone, Debug, PartialEq, Eq)]
pub enum ParseError {
    /// The text does not follow the grammar.
    Syntax(SyntaxError),
    /// A parse tree holds a match of this rule where another was required.
    Unexpected(Rule),
    /// A parse tree lacks a match of this rule, or a match of it lacks the
    /// match that must stand inside it.
    Missing(Rule),
    /// What stands from `start` to `end` is no integer literal that fits in
    /// 32 bits: it is too large, or it is not a string of digits.
    InvalidInt { start: usize, end: usize },
}

/// Ghost counterpart of [`ParseError`].
pub enum ParseErrorView {
    Syntax(Failure),
    Unexpected(Rule),
    Missing(Rule),
    InvalidInt { start: int, end: int },
}

impl View for ParseError {
    type V = ParseErrorView;

    open spec fn view(&self) -> ParseErrorView {
        match self {
            ParseError::Syntax(e) => ParseErrorView::Syntax(e@),
            ParseError::Unexpected(rule) => ParseErrorView::Unexpected(*rule),
            ParseError::Missing(rule) => ParseErrorView::Missing(*rule),
            ParseError::InvalidInt { start, end } => ParseErrorView::InvalidInt {
                start: *start as int,
                end: *end as int,
            },
        }
    }
}

/// The characters that `n` matched; none where `n` does not lie in `s`.
pub open spec fn text_of(s: Seq<char>, n: Node) -> Seq<char> {
    if 0 <= n.start <= n.end <= s.len() {
        s.subrange(n.start, n.end)
    } else {
        Seq::empty()
    }
}

/// The number that a string of digits stands for.
pub open spec fn decimal_value(digits: Seq<char>) -> int
    decreases digits.len(),
{
    if digits.len() == 0 {
        0
    } else {
        decimal_value(digits.drop_last()) * 10 + (digits.last() as int - '0' as int)
    }
}

/// `text` is one or more ASCII digits.
pub open spec fn is_number(text: Seq<char>) -> bool {
    text.len() > 0 && forall|i: int| 0 <= i < text.len() ==> CharClass::Digit.holds(text[i])
}

/// The value of an integer literal, where it has one that fits in 32 bits.
pub open spec fn int_of(text: Seq<char>) -> Option<i32> {
    if is_number(text) && decimal_value(text) <= i32::MAX {
        Some(decimal_value(text) as i32)
    } else {
        None
    }
}

/// The value of the integer literal that `n` matched.
pub open spec fn value_of(n: Node, s: Seq<char>) -> Result<i32, ParseErrorView> {
    match int_of(text_of(s, n)) {
        Some(v) => Ok(v),
        None => Err(ParseErrorView::InvalidInt { start: n.start, end: n.end }),
    }
}

/// The first match inside `n`.
pub open spec fn only(n: Node) -> Result<Node, ParseErrorView> {
    if n.inner.len() > 0 {
        Ok(n.inner[0])
    } else {
        Err(ParseErrorView::Missing(n.rule))
    }
}

/// The first match inside `n`, which must be of the rule `want`.
pub open spec fn only_of(n: Node, want: Rule) -> Result<Node, ParseErrorView> {
    match only(n) {
        Err(e) => Err(e),
        Ok(inner) => if inner.rule == want {
            Ok(inner)
        } else {
            Err(ParseErrorView::Unexpected(inner.rule))
        },
    }
}

/// The values of the integer literals among `items`, in order; matches of
/// other rules are passed over.
pub open spec fn values_of(items: Seq<Node>, s: Seq<char>) -> Result<Seq<i32>, ParseErrorView>
    decreases items.len(),
{
    if items.len() == 0 {
        Ok(Seq::empty())
    } else {
        match values_of(items.drop_last(), s) {
            Err(e) => Err(e),
            Ok(values) => if items.last().rule == Rule::integer {
                match value_of(items.last(), s) {
                    Err(e) => Err(e),
                    Ok(v) => Ok(values.push(v)),
                }
            } else {
                Ok(values)
            },
        }
    }
}

/// The bounds of a range, from the first two matches inside `n`.
pub open spec fn range_of(n: Node, s: Seq<char>) -> Result<ExprView, ParseErrorView> {
    if n.inner.len() < 1 {
        Err(ParseErrorView::Missing(Rule::integer))
    } else {
        match value_of(n.inner[0], s) {
            Err(e) => Err(e),
            Ok(a) => if n.inner.len() < 2 {
                Err(ParseErrorView::Missing(Rule::integer))
            } else {
                match value_of(n.inner[1], s) {
                    Err(e) => Err(e),
                    Ok(b) => Ok(ExprView::Range(a, b)),
                }
            },
        }
    }
}

/// The expression for a match of `set`.
pub open spec fn set_of(n: Node, s: Seq<char>) -> Result<ExprView, ParseErrorView> {
    match only(n) {
        Err(e) => Err(e),
        Ok(p) => match p.rule {
            Rule::ident => Ok(ExprView::Ident(text_of(s, p))),
            Rule::empty => Ok(ExprView::Empty),
            Rule::set_literal => match values_of(p.inner, s) {
                Err(e) => Err(e),
                Ok(values) => Ok(ExprView::SetLiteral(values)),
            },
            Rule::range => range_of(p, s),
            other => Err(ParseErrorView::Unexpected(other)),
        },
    }
}

/// `e` under `marks` complements.
pub open spec fn complemented(e: ExprView, marks: nat) -> ExprView
    decreases marks,
{
    if marks == 0 {
        e
    } else {
        ExprView::Complement(Box::new(complemented(e, (marks - 1) as nat)))
    }
}

/// `left` and `right` joined by the operator `sign`, which must be one of
/// the two of `level`.
pub open spec fn joined(left: ExprView, sign: Rule, right: ExprView, level: Rule) -> Result<
    ExprView,
    ParseErrorView,
> {
    if level == Rule::add {
        match sign {
            Rule::union => Ok(ExprView::Union(Box::new(left), Box::new(right))),
            Rule::symmetric_difference => Ok(ExprView::SymDiff(Box::new(left), Box::new(right))),
            other => Err(ParseErrorView::Unexpected(other)),
        }
    } else {
        match sign {
            Rule::intersection => Ok(ExprView::Intersect(Box::new(left), Box::new(right))),
            Rule::difference => Ok(ExprView::Diff(Box::new(left), Box::new(right))),
            other => Err(ParseErrorView::Unexpected(other)),
        }
    }
}

/// The rule whose match a chain of `level` starts with.
pub open spec fn head_of(level: Rule) -> Rule {
    if level == Rule::add {
        Rule::mul
    } else {
        Rule::postfix
    }
}

/// How many operators with an operand after them follow the first operand
/// among `count` matches.
pub open spec fn links(count: nat) -> nat {
    if count == 0 {
        0
    } else {
        ((count - 1) / 2) as nat
    }
}

/// The expression for a match of any rule from `expr` down to `primary`.
pub open spec fn expr_of(n: Node, s: Seq<char>) -> Result<ExprView, ParseErrorView>
    decreases n, 3nat, 0nat,
{
    match n.rule {
        Rule::expr => if n.inner.len() > 0 {
            expr_of(n.inner[0], s)
        } else {
            Err(ParseErrorView::Missing(n.rule))
        },
        Rule::add => chain_of(n, s, Rule::add),
        Rule::mul => chain_of(n, s, Rule::mul),
        Rule::postfix => postfix_of(n, s),
        Rule::primary => primary_of(n, s),
        other => Err(ParseErrorView::Unexpected(other)),
    }
}

/// The expression for a match of `primary`.
pub open spec fn primary_of(n: Node, s: Seq<char>) -> Result<ExprView, ParseErrorView>
    decreases n, 0nat, 0nat,
{
    if n.inner.len() > 0 {
        let p = n.inner[0];
        match p.rule {
            Rule::set => set_of(p, s),
            Rule::expr => expr_of(p, s),
            other => Err(ParseErrorView::Unexpected(other)),
        }
    } else {
        Err(ParseErrorView::Missing(n.rule))
    }
}

/// The expression for a match of `postfix`: its primary, under one
/// complement for each match that follows it.
pub open spec fn postfix_of(n: Node, s: Seq<char>) -> Result<ExprView, ParseErrorView>
    decreases n, 0nat, 0nat,
{
    if n.inner.len() > 0 {
        match primary_of(n.inner[0], s) {
            Err(e) => Err(e),
            Ok(e) => Ok(complemented(e, (n.inner.len() - 1) as nat)),
        }
    } else {
        Err(ParseErrorView::Missing(Rule::primary))
    }
}

/// The expression for a chain of `level`: the operands joined from left to
/// right, so that `a op b op c` is `(a op b) op c`. An operator that no
/// operand follows is passed over.
pub open spec fn chain_of(n: Node, s: Seq<char>, level: Rule) -> Result<ExprView, ParseErrorView>
    decreases n, 2nat, 0nat,
{
    if n.inner.len() > 0 {
        chain_upto(n, s, level, links(n.inner.len()))
    } else {
        Err(ParseErrorView::Missing(head_of(level)))
    }
}

/// The first operand of the chain joined with the `k` that follow it.
pub open spec fn chain_upto(n: Node, s: Seq<char>, level: Rule, k: nat) -> Result<
    ExprView,
    ParseErrorView,
>
    decreases n, 1nat, k,
{
    if k == 0 {
        if n.inner.len() > 0 {
            operand_in(n, s, level, 0)
        } else {
            Err(ParseErrorView::Missing(head_of(level)))
        }
    } else {
        match chain_upto(n, s, level, (k - 1) as nat) {
            Err(e) => Err(e),
            Ok(left) => match operand_in(n, s, level, 2 * (k as int)) {
                Err(e) => Err(e),
                Ok(right) => joined(left, n.inner[2 * k - 1].rule, right, level),
            },
        }
    }
}

/// The expression for the operand that is the match number `i` inside `n`.
pub open spec fn operand_in(n: Node, s: Seq<char>, level: Rule, i: int) -> Result<
    ExprView,
    ParseErrorView,
>
    decreases n, 0nat, 0nat,
{
    if 0 <= i < n.inner.len() {
        if level == Rule::add {
            chain_of(n.inner[i], s, Rule::mul)
        } else {
            postfix_of(n.inner[i], s)
        }
    } else {
        Err(ParseErrorView::Missing(head_of(level)))
    }
}

/// The statement for a match of `stmt`.
pub open spec fn stmt_of(n: Node, s: Seq<char>) -> Result<StmtView, ParseErrorView> {
    match only(n) {
        Err(e) => Err(e),
        Ok(p) => match p.rule {
            Rule::decl => if p.inner.len() < 1 {
                Err(ParseErrorView::Missing(Rule::ident))
            } else if p.inner.len() < 2 {
                Err(ParseErrorView::Missing(Rule::expr))
            } else {
                match expr_of(p.inner[1], s) {
                    Err(e) => Err(e),
                    Ok(value) => Ok(StmtView::Let { name: text_of(s, p.inner[0]), value }),
                }
            },
            Rule::print_stmt => match only_of(p, Rule::expr) {
                Err(e) => Err(e),
                Ok(inner) => match expr_of(inner, s) {
                    Err(e) => Err(e),
                    Ok(e) => Ok(StmtView::Print(e)),
                },
            },
            other => Err(ParseErrorView::Unexpected(other)),
        },
    }
}

/// The statements for the matches of `stmt` among `items`, in order; matches
/// of other rules are passed over.
pub open spec fn stmts_of(items: Seq<Node>, s: Seq<char>) -> Result<Seq<StmtView>, ParseErrorView>
    decreases items.len(),
{
    if items.len() == 0 {
        Ok(Seq::empty())
    } else {
        match stmts_of(items.drop_last(), s) {
            Err(e) => Err(e),
            Ok(stmts) => if items.last().rule == Rule::stmt {
                match stmt_of(items.last(), s) {
                    Err(e) => Err(e),
                    Ok(stmt) => Ok(stmts.push(stmt)),
                }
            } else {
                Ok(stmts)
            },
        }
    }
}

/// The program for a match of `program`.
pub open spec fn program_of(n: Node, s: Seq<char>) -> Result<ProgramView, ParseErrorView> {
    match stmts_of(n.inner, s) {
        Err(e) => Err(e),
        Ok(stmts) => Ok(ProgramView { stmts }),
    }
}

/// What parsing `s` gives: the program that `s` is the text of, or why it is
/// the text of none.
pub open spec fn parsed(s: Seq<char>) -> Result<ProgramView, ParseErrorView> {
    match parse_result(Rule::program, s) {
        Err(failure) => Err(ParseErrorView::Syntax(failure)),
        Ok(nodes) => if nodes.len() > 0 {
            program_of(nodes[0], s)
        } else {
            Err(ParseErrorView::Missing(Rule::program))
        },
    }
}

/// `r` is the executable form of `expected`.
pub open spec fn is_expr(r: Result<Expr, ParseError>, expected: Result<ExprView, ParseErrorView>) -> bool {
    match (r, expected) {
        (Ok(e), Ok(v)) => e@ == v,
        (Err(e), Err(v)) => e@ == v,
        _ => false,
    }
}

/// `r` is the executable form of `expected`.
pub open spec fn is_stmt(r: Result<Stmt, ParseError>, expected: Result<StmtView, ParseErrorView>) -> bool {
    match (r, expected) {
        (Ok(e), Ok(v)) => e@ == v,
        (Err(e), Err(v)) => e@ == v,
        _ => false,
    }
}

/// `r` is the executable form of `expected`.
pub open spec fn is_program(
    r: Result<Program, ParseError>,
    expected: Result<ProgramView, ParseErrorView>,
) -> bool {
    match (r, expected) {
        (Ok(e), Ok(v)) => e@ == v,
        (Err(e), Err(v)) => e@ == v,
        _ => false,
    }
}

/// `r` is the executable form of `expected`.
pub open spec fn is_pair(r: Result<&Pair, ParseError>, expected: Result<Node, ParseErrorView>) -> bool {
    match (r, expected) {
        (Ok(p), Ok(n)) => p@ == n,
        (Err(e), Err(v)) => e@ == v,
        _ => false,
    }
}

/// The characters that `pair` matched, as a string.
pub fn text(pair: &Pair, src: &Vec<char>) -> (t: String)
    ensures
        t@ == text_of(src@, pair@),
{
    let mut t = String::new();
    if pair.start <= pair.end && pair.end <= src.len() {
        let mut i: usize = pair.start;
        while i < pair.end
            invariant
                pair.start <= i <= pair.end <= src.len(),
                t@ == src@.subrange(pair.start as int, i as int),
            decreases pair.end - i,
        {
            t.push(src[i]);
            assert(src@.subrange(pair.start as int, i + 1) =~= src@.subrange(
                pair.start as int,
                i as int,
            ).push(src@[i as int]));
            i = i + 1;
        }
    } else {
        assert(t@ =~= Seq::<char>::empty());
    }
    t
}

/// A string of digits is worth at least as much as any of its beginnings.
proof fn lemma_value_grows(digits: Seq<char>, k: int)
    requires
        0 <= k <= digits.len(),
        forall|i: int| 0 <= i < digits.len() ==> CharClass::Digit.holds(digits[i]),
    ensures
        0 <= decimal_value(digits.take(k)) <= decimal_value(digits),
    decreases digits.len() - k,
{
    if k == digits.len() {
        assert(digits.take(k) =~= digits);
        lemma_value_grows_base(digits);
    } else {
        lemma_value_grows(digits, k + 1);
        assert(digits.take(k + 1).drop_last() =~= digits.take(k));
        lemma_value_grows_base(digits.take(k));
    }
}

/// A string of digits is worth no less than nothing.
proof fn lemma_value_grows_base(digits: Seq<char>)
    requires
        forall|i: int| 0 <= i < digits.len() ==> CharClass::Digit.holds(digits[i]),
    ensures
        0 <= decimal_value(digits),
    decreases digits.len(),
{
    if digits.len() > 0 {
        lemma_value_grows_base(digits.drop_last());
    }
}

/// The value of the integer literal that `pair` matched.
pub fn parse_int(pair: &Pair, src: &Vec<char>) -> (r: Result<i32, ParseError>)
    ensures
        match r {
            Ok(v) => value_of(pair@, src@) == Ok::<i32, ParseErrorView>(v),
            Err(e) => value_of(pair@, src@) == Err::<i32, ParseErrorView>(e@),
        },
{
    let failed = ParseError::InvalidInt { start: pair.start, end: pair.end };
    if !(pair.start < pair.end && pair.end <= src.len()) {
        return Err(failed);
    }
    let ghost digits = text_of(src@, pair@);
    let mut value: i64 = 0;
    let mut i: usize = pair.start;
    while i < pair.end
        invariant
            pair.start <= i <= pair.end <= src.len(),
            pair.start < pair.end,
            digits == src@.subrange(pair.start as int, pair.end as int),
            forall|j: int| 0 <= j < i - pair.start ==> CharClass::Digit.holds(digits[j]),
            value == decimal_value(digits.take(i - pair.start)),
            0 <= value <= i32::MAX,
            failed@ == (ParseErrorView::InvalidInt { start: pair@.start, end: pair@.end }),
        decreases pair.end - i,
    {
        let c = src[i];
        if !CharClass::Digit.has(c) {
            assert(!CharClass::Digit.holds(digits[i - pair.start]));
            return Err(failed);
        }
        let digit: i64 = (c as u32 - '0' as u32) as i64;
        let next: i64 = value * 10 + digit;
        proof {
            let upto = digits.take(i - pair.start + 1);
            assert(upto.drop_last() =~= digits.take(i - pair.start));
            assert(upto.last() == c);
            assert(decimal_value(upto) == next);
        }
        if next > i32::MAX as i64 {
            proof {
                if is_number(digits) {
                    lemma_value_grows(digits, i - pair.start + 1);
                }
            }
            return Err(failed);
        }
        value = next;
        i = i + 1;
    }
    proof {
        assert(digits.take(pair.end - pair.start) =~= digits);
    }
    Ok(value as i32)
}

/// An error among the first items is the error of the whole list.
proof fn lemma_values_stop(items: Seq<Node>, s: Seq<char>, k: int)
    requires
        0 <= k <= items.len(),
        values_of(items.take(k), s) is Err,
    ensures
        values_of(items, s) == values_of(items.take(k), s),
    decreases items.len() - k,
{
    if k == items.len() {
        assert(items.take(k) =~= items);
    } else {
        assert(items.take(k + 1).drop_last() =~= items.take(k));
        lemma_values_stop(items, s, k + 1);
    }
}

/// An error among the first statements is the error of the whole list.
proof fn lemma_stmts_stop(items: Seq<Node>, s: Seq<char>, k: int)
    requires
        0 <= k <= items.len(),
        stmts_of(items.take(k), s) is Err,
    ensures
        stmts_of(items, s) == stmts_of(items.take(k), s),
    decreases items.len() - k,
{
    if k == items.len() {
        assert(items.take(k) =~= items);
    } else {
        assert(items.take(k + 1).drop_last() =~= items.take(k));
        lemma_stmts_stop(items, s, k + 1);
    }
}

/// An error in the first links of a chain is the error of the whole chain.
proof fn lemma_chain_stops(n: Node, s: Seq<char>, level: Rule, k: nat, last: nat)
    requires
        k <= last,
        chain_upto(n, s, level, k) is Err,
    ensures
        chain_upto(n, s, level, last) == chain_upto(n, s, level, k),
    decreases last,
{
    if k < last {
        lemma_chain_stops(n, s, level, k, (last - 1) as nat);
    }
}

/// The first pair inside `pair`.
pub fn single(pair: &Pair) -> (r: Result<&Pair, ParseError>)
    ensures
        is_pair(r, only(pair@)),
        r matches Ok(p) ==> pair.inner@.len() > 0 && *p == pair.inner@[0],
{
    proof {
        lemma_pair_view(*pair);
    }
    if pair.inner.len() > 0 {
        Ok(&pair.inner[0])
    } else {
        Err(ParseError::Missing(pair.rule))
    }
}

/// The first pair inside `pair`, which must be of the rule `want`.
pub fn single_of(pair: &Pair, want: Rule) -> (r: Result<&Pair, ParseError>)
    ensures
        is_pair(r, only_of(pair@, want)),
        r matches Ok(p) ==> pair.inner@.len() > 0 && *p == pair.inner@[0],
{
    let p = single(pair)?;
    proof {
        lemma_pair_view(*p);
    }
    if p.rule == want {
        Ok(p)
    } else {
        Err(ParseError::Unexpected(p.rule))
    }
}

/// The expression for a pair of `set`.
#[verifier::loop_isolation(false)]
pub fn parse_set(pair: &Pair, src: &Vec<char>) -> (r: Result<Expr, ParseError>)
    ensures
        is_expr(r, set_of(pair@, src@)),
{
    let p = single(pair)?;
    proof {
        lemma_pair_view(*p);
    }
    match p.rule {
        Rule::ident => Ok(Expr::Ident(text(p, src))),
        Rule::empty => Ok(Expr::Empty),
        Rule::set_literal => {
            let ghost items = p@.inner;
            let mut values: Vec<i32> = Vec::new();
            let mut i: usize = 0;
            assert(items.take(0) =~= Seq::<Node>::empty());
            while i < p.inner.len()
                invariant
                    i <= p.inner.len(),
                    items == nodes_of(p.inner@),
                    values_of(items.take(i as int), src@) == Ok::<Seq<i32>, ParseErrorView>(
                        values@,
                    ),
                decreases p.inner.len() - i,
            {
                let item = &p.inner[i];
                proof {
                    lemma_pair_view(*item);
                    assert(items.take(i + 1).drop_last() =~= items.take(i as int));
                    assert(items.take(i + 1).last() == item@);
                }
                if item.rule == Rule::integer {
                    match parse_int(item, src) {
                        Ok(v) => {
                            values.push(v);
                        },
                        Err(e) => {
                            proof {
                                lemma_values_stop(items, src@, i + 1);
                            }
                            return Err(e);
                        },
                    }
                }
                i = i + 1;
            }
            assert(items.take(i as int) =~= items);
            Ok(Expr::SetLiteral(values))
        },
        Rule::range => {
            if p.inner.len() < 1 {
                return Err(ParseError::Missing(Rule::integer));
            }
            let a = parse_int(&p.inner[0], src)?;
            if p.inner.len() < 2 {
                return Err(ParseError::Missing(Rule::integer));
            }
            let b = parse_int(&p.inner[1], src)?;
            Ok(Expr::Range(a, b))
        },
        other => Err(ParseError::Unexpected(other)),
    }
}

/// `acc` and `rhs` joined by a union or a symmetric-difference sign.
pub fn build_add(acc: Expr, op: Rule, rhs: Expr) -> (r: Result<Expr, ParseError>)
    ensures
        is_expr(r, joined(acc@, op, rhs@, Rule::add)),
{
    match op {
        Rule::union => Ok(Expr::Union(Box::new(acc), Box::new(rhs))),
        Rule::symmetric_difference => Ok(Expr::SymDiff(Box::new(acc), Box::new(rhs))),
        other => Err(ParseError::Unexpected(other)),
    }
}

/// `acc` and `rhs` joined by an intersection or a difference sign.
pub fn build_mul(acc: Expr, op: Rule, rhs: Expr) -> (r: Result<Expr, ParseError>)
    ensures
        is_expr(r, joined(acc@, op, rhs@, Rule::mul)),
{
    match op {
        Rule::intersection => Ok(Expr::Intersect(Box::new(acc), Box::new(rhs))),
        Rule::difference => Ok(Expr::Diff(Box::new(acc), Box::new(rhs))),
        other => Err(ParseError::Unexpected(other)),
    }
}

/// The expression for a pair of any rule from `expr` down to `primary`.
pub fn parse_expr(pair: &Pair, src: &Vec<char>) -> (r: Result<Expr, ParseError>)
    ensures
        is_expr(r, expr_of(pair@, src@)),
    decreases pair, 4nat,
{
    proof {
        lemma_pair_view(*pair);
    }
    match pair.rule {
        Rule::expr => {
            let inner = single(pair)?;
            parse_expr(inner, src)
        },
        Rule::add => parse_left_chain(pair, src, Rule::add),
        Rule::mul => parse_mul(pair, src),
        Rule::postfix => parse_postfix(pair, src),
        Rule::primary => parse_primary(pair, src),
        other => Err(ParseError::Unexpected(other)),
    }
}

/// The expression for a chain of `level`, which is `add` or `mul`: the
/// operands inside `pair`, joined from left to right.
#[verifier::loop_isolation(false)]
pub fn parse_left_chain(pair: &Pair, src: &Vec<char>, level: Rule) -> (r: Result<
    Expr,
    ParseError,
>)
    ensures
        is_expr(r, chain_of(pair@, src@, level)),
    decreases pair, 2nat,
{
    proof {
        lemma_pair_view(*pair);
    }
    let count = pair.inner.len();
    if count == 0 {
        return Err(ParseError::Missing(if level == Rule::add {
            Rule::mul
        } else {
            Rule::postfix
        }));
    }
    let ghost last = links(count as nat);
    let head = if level == Rule::add {
        parse_mul(&pair.inner[0], src)
    } else {
        parse_postfix(&pair.inner[0], src)
    };
    let mut acc = match head {
        Ok(e) => e,
        Err(e) => {
            proof {
                lemma_chain_stops(pair@, src@, level, 0, last);
            }
            return Err(e);
        },
    };
    let mut k: usize = 0;
    while count - 2 * k > 2
        invariant
            count == pair.inner@.len(),
            count > 0,
            2 * k < count,
            last == links(count as nat),
            pair@.inner == nodes_of(pair.inner@),
            chain_upto(pair@, src@, level, k as nat) == Ok::<ExprView, ParseErrorView>(acc@),
        decreases count - 2 * k,
    {
        let op = &pair.inner[2 * k + 1];
        let operand = &pair.inner[2 * k + 2];
        proof {
            lemma_pair_view(*op);
            assert(pair@.inner[2 * k + 2] == operand@);
            assert(pair@.inner[2 * k + 1].rule == op.rule);
            assert(k + 1 <= last);
            assert(chain_upto(pair@, src@, level, (k + 1) as nat) == match operand_in(
                pair@,
                src@,
                level,
                2 * (k + 1),
            ) {
                Err(e) => Err(e),
                Ok(right) => joined(acc@, op.rule, right, level),
            });
        }
        let rhs = if level == Rule::add {
            parse_mul(operand, src)
        } else {
            parse_postfix(operand, src)
        };
        let rhs = match rhs {
            Ok(e) => e,
            Err(e) => {
                proof {
                    lemma_chain_stops(pair@, src@, level, (k + 1) as nat, last);
                }
                return Err(e);
            },
        };
        let joined = if level == Rule::add {
            build_add(acc, op.rule, rhs)
        } else {
            build_mul(acc, op.rule, rhs)
        };
        acc = match joined {
            Ok(e) => e,
            Err(e) => {
                proof {
                    lemma_chain_stops(pair@, src@, level, (k + 1) as nat, last);
                }
                return Err(e);
            },
        };
        k = k + 1;
    }
    Ok(acc)
}

/// The expression for a pair of `mul`.
pub fn parse_mul(pair: &Pair, src: &Vec<char>) -> (r: Result<Expr, ParseError>)
    ensures
        is_expr(r, chain_of(pair@, src@, Rule::mul)),
    decreases pair, 3nat,
{
    parse_left_chain(pair, src, Rule::mul)
}

/// The expression for a pair of `postfix`: its primary, under one complement
/// for each pair that follows it.
pub fn parse_postfix(pair: &Pair, src: &Vec<char>) -> (r: Result<Expr, ParseError>)
    ensures
        is_expr(r, postfix_of(pair@, src@)),
    decreases pair, 1nat,
{
    proof {
        lemma_pair_view(*pair);
    }
    if pair.inner.len() == 0 {
        return Err(ParseError::Missing(Rule::primary));
    }
    let mut e = parse_primary(&pair.inner[0], src)?;
    let ghost base = e@;
    let mut marks: usize = 1;
    while marks < pair.inner.len()
        invariant
            1 <= marks <= pair.inner.len(),
            e@ == complemented(base, (marks - 1) as nat),
        decreases pair.inner.len() - marks,
    {
        e = Expr::Complement(Box::new(e));
        marks = marks + 1;
    }
    Ok(e)
}

/// The expression for a pair of `primary`.
pub fn parse_primary(pair: &Pair, src: &Vec<char>) -> (r: Result<Expr, ParseError>)
    ensures
        is_expr(r, primary_of(pair@, src@)),
    decreases pair, 0nat,
{
    let p = single(pair)?;
    proof {
        lemma_pair_view(*p);
    }
    match p.rule {
        Rule::set => parse_set(p, src),
        Rule::expr => parse_expr(p, src),
        other => Err(ParseError::Unexpected(other)),
    }
}

/// The statement for a pair of `stmt`.
pub fn parse_stmt(pair: &Pair, src: &Vec<char>) -> (r: Result<Stmt, ParseError>)
    ensures
        is_stmt(r, stmt_of(pair@, src@)),
{
    let p = single(pair)?;
    proof {
        lemma_pair_view(*p);
    }
    match p.rule {
        Rule::decl => {
            if p.inner.len() < 1 {
                return Err(ParseError::Missing(Rule::ident));
            }
            let name = text(&p.inner[0], src);
            if p.inner.len() < 2 {
                return Err(ParseError::Missing(Rule::expr));
            }
            let value = parse_expr(&p.inner[1], src)?;
            Ok(Stmt::Let { name, value })
        },
        Rule::print_stmt => {
            let inner = single_of(p, Rule::expr)?;
            let e = parse_expr(inner, src)?;
            Ok(Stmt::Print(e))
        },
        other => Err(ParseError::Unexpected(other)),
    }
}

/// Parses a whole source text.
#[verifier::loop_isolation(false)]
pub fn parse_program(src: &str) -> (r: Result<Program, ParseError>)
    ensures
        is_program(r, parsed(src@)),
{
    let chars = crate::engine::to_chars(src);
    let pairs = match SetLang::parse_chars(Rule::program, &chars) {
        Ok(pairs) => pairs,
        Err(e) => {
            return Err(ParseError::Syntax(e));
        },
    };
    if pairs.len() == 0 {
        return Err(ParseError::Missing(Rule::program));
    }
    let program = &pairs[0];
    proof {
        lemma_pair_view(*program);
    }
    let ghost items = program@.inner;
    let mut stmts: Vec<Stmt> = Vec::new();
    let mut i: usize = 0;
    assert(items.take(0) =~= Seq::<Node>::empty());
    while i < program.inner.len()
        invariant
            i <= program.inner.len(),
            items == nodes_of(program.inner@),
            stmts_of(items.take(i as int), chars@) matches Ok(found) && found == Seq::new(
                stmts@.len(),
                |j: int| stmts@[j]@,
            ),
        decreases program.inner.len() - i,
    {
        let item = &program.inner[i];
        proof {
            lemma_pair_view(*item);
            assert(items.take(i + 1).drop_last() =~= items.take(i as int));
            assert(items.take(i + 1).last() == item@);
        }
        if item.rule == Rule::stmt {
            match parse_stmt(item, &chars) {
                Ok(stmt) => {
                    let ghost before = Seq::new(stmts@.len(), |j: int| stmts@[j]@);
                    stmts.push(stmt);
                    assert(Seq::new(stmts@.len(), |j: int| stmts@[j]@) =~= before.push(stmt@));
                },
                Err(e) => {
                    proof {
                        lemma_stmts_stop(items, chars@, i + 1);
                    }
                    return Err(e);
                },
            }
        }
        i = i + 1;
    }
    assert(items.take(i as int) =~= items);
    Ok(Program { stmts })
}

} // verus!
