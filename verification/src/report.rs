//! What a syntax error says is true: nothing that it lists as expected stands
//! at the position that it gives.

use crate::grammar::{
    advances, distinct, first_sign, leaf_end, lemma_chain_bounded, lemma_expr_bounded,
    lemma_join_far, lemma_leaf_bounded, lemma_more_integers_bounded, lemma_postfix_bounded,
    lemma_primary_bounded, lemma_rule_reach, lemma_skip_bounds, lemma_stmt_bounded,
    lemma_stmts_bounded, lit, m_chain, m_chain_tail, m_decl, m_expr, m_integers, m_leaf,
    m_marks, m_more_integers, m_postfix, m_primary, m_print, m_program, m_range, m_rule, m_set,
    m_set_literal, m_sign, m_stmt, m_stmts, parse_result, second_sign, skip, slashes, sought,
    Attempt, CharClass, Expected, Items, Reach, Text,
};
use crate::tree::Rule;
use vstd::prelude::*;

verus! {

/// `what` stands in `s` at `pos`.
pub open spec fn stands(s: Seq<char>, pos: int, what: Expected) -> bool {
    match what {
        Expected::Text(text) => lit(s, pos, text.chars()),
        Expected::Rule(Rule::WHITESPACE) => 0 <= pos < s.len() && CharClass::Blank.holds(s[pos]),
        Expected::Rule(Rule::COMMENT) => lit(s, pos, slashes()),
        Expected::Rule(rule) => leaf_end(s, pos, rule) is Some,
    }
}

/// Nothing that `r` lists stands where `r` got to.
pub open spec fn unmet(r: Reach, s: Seq<char>) -> bool {
    forall|i: int| 0 <= i < r.wanted.len() ==> !stands(s, r.far, #[trigger] r.wanted[i])
}

/// Nothing that `r` lists stands where `r` got to, or `r` did not get as far
/// as `bound`.
pub open spec fn settled(r: Reach, s: Seq<char>, bound: int) -> bool {
    unmet(r, s) || r.far < bound
}

/// An attempt at `pos` is honest: where it fails, nothing that it looked for
/// at its furthest position stands there; where it matches, that holds too,
/// or the match ends after that position.
pub open spec fn honest(a: Attempt, s: Seq<char>, pos: int) -> bool {
    &&& pos <= a.reach.far
    &&& match a.node {
        None => unmet(a.reach, s),
        Some(n) => settled(a.reach, s, n.end),
    }
}

/// A repetition from `at` is honest: nothing that it looked for at its
/// furthest position stands there.
pub open spec fn items_honest(items: Items, s: Seq<char>, at: int) -> bool {
    at <= items.reach.far && unmet(items.reach, s)
}

/// An attempt that is settled before `mid`, followed by one that begins at
/// `mid` or after it: together they are as settled as the second.
proof fn lemma_join_settled(a: Reach, b: Reach, s: Seq<char>, mid: int, bound: int)
    requires
        settled(a, s, mid),
        mid <= b.far,
        settled(b, s, bound),
    ensures
        settled(a.join(b), s, bound),
        unmet(b, s) ==> unmet(a.join(b), s),
{
    reveal(Reach::join);
    if a.far == b.far {
        assert(unmet(a, s));
        let both = a.join(b);
        if unmet(b, s) {
            assert forall|i: int| 0 <= i < both.wanted.len() implies !stands(
                s,
                both.far,
                #[trigger] both.wanted[i],
            ) by {
                if i < a.wanted.len() {
                    assert(both.wanted[i] == a.wanted[i]);
                } else {
                    assert(both.wanted[i] == b.wanted[i - a.wanted.len()]);
                }
            }
        }
    }
}

/// An attempt at a fixed text is honest.
proof fn lemma_text_honest(s: Seq<char>, pos: int, text: Text)
    ensures
        lit(s, pos, text.chars()) ==> settled(sought(pos, text), s, pos + text.chars().len()),
        !lit(s, pos, text.chars()) ==> unmet(sought(pos, text), s),
        sought(pos, text).far == pos,
{
}

/// An attempt at a rule without inner rules is honest.
proof fn lemma_leaf_honest(s: Seq<char>, pos: int, rule: Rule)
    requires
        0 <= pos <= s.len(),
        rule != Rule::EOI && rule != Rule::WHITESPACE && rule != Rule::COMMENT,
    ensures
        honest(m_leaf(s, pos, rule), s, pos),
{
    lemma_leaf_bounded(s, pos, rule);
}

/// An attempt at `("," integer)*` is honest.
proof fn lemma_more_integers_honest(s: Seq<char>, at: int, end: int)
    requires
        0 <= end <= at <= s.len(),
    ensures
        items_honest(m_more_integers(s, at, end), s, at),
    decreases s.len() - at,
{
    broadcast use lemma_join_far;

    let comma = sought(at, Text::Comma);
    lemma_text_honest(s, at, Text::Comma);
    if lit(s, at, Text::Comma.chars()) {
        lemma_skip_bounds(s, at + 1);
        let p = skip(s, at + 1);
        let a = m_leaf(s, p, Rule::integer);
        lemma_leaf_honest(s, p, Rule::integer);
        lemma_leaf_bounded(s, p, Rule::integer);
        let reach = comma.join(a.reach);
        if a.node is Some && advances(s, at, skip(s, a.node->0.end)) {
            let n = a.node->0;
            lemma_skip_bounds(s, n.end);
            let rest = m_more_integers(s, skip(s, n.end), n.end);
            lemma_more_integers_honest(s, skip(s, n.end), n.end);
            lemma_join_settled(comma, a.reach, s, at + 1, n.end);
            lemma_join_settled(reach, rest.reach, s, n.end, 0);
        } else {
            lemma_skip_bounds(s, if a.node is Some { a.node->0.end } else { 0 });
            lemma_join_settled(comma, a.reach, s, at + 1, 0);
        }
    }
}

/// An attempt at a list of integers is honest.
proof fn lemma_integers_honest(s: Seq<char>, at: int)
    requires
        0 <= at <= s.len(),
    ensures
        items_honest(m_integers(s, at), s, at),
{
    broadcast use lemma_join_far;

    let first = m_leaf(s, at, Rule::integer);
    lemma_leaf_honest(s, at, Rule::integer);
    lemma_leaf_bounded(s, at, Rule::integer);
    if first.node is Some {
        let n = first.node->0;
        lemma_skip_bounds(s, n.end);
        let next = skip(s, n.end);
        lemma_more_integers_honest(s, next, next);
        lemma_join_settled(first.reach, m_more_integers(s, next, next).reach, s, n.end, 0);
    }
}

/// An attempt at `set_literal` is honest.
proof fn lemma_set_literal_honest(s: Seq<char>, pos: int)
    requires
        0 <= pos <= s.len(),
    ensures
        honest(m_set_literal(s, pos), s, pos),
{
    broadcast use lemma_join_far;

    let open = sought(pos, Text::OpenBrace);
    lemma_text_honest(s, pos, Text::OpenBrace);
    if lit(s, pos, Text::OpenBrace.chars()) {
        lemma_skip_bounds(s, pos + 1);
        let start = skip(s, pos + 1);
        let body = m_integers(s, start);
        lemma_integers_honest(s, start);
        lemma_leaf_bounded(s, start, Rule::integer);
        if m_leaf(s, start, Rule::integer).node is Some {
            let n = m_leaf(s, start, Rule::integer).node->0;
            lemma_skip_bounds(s, n.end);
            lemma_more_integers_bounded(s, skip(s, n.end), skip(s, n.end));
        }
        lemma_skip_bounds(s, body.end);
        let close = skip(s, body.end);
        lemma_text_honest(s, close, Text::CloseBrace);
        lemma_join_settled(open, body.reach, s, pos + 1, 0);
        lemma_join_settled(
            open.join(body.reach),
            sought(close, Text::CloseBrace),
            s,
            0,
            if lit(s, close, Text::CloseBrace.chars()) {
                close + 1
            } else {
                0
            },
        );
    }
}

/// An attempt at `range` is honest.
proof fn lemma_range_honest(s: Seq<char>, pos: int)
    requires
        0 <= pos <= s.len(),
    ensures
        honest(m_range(s, pos), s, pos),
{
    broadcast use lemma_join_far;

    let open = sought(pos, Text::OpenBrace);
    lemma_text_honest(s, pos, Text::OpenBrace);
    if lit(s, pos, Text::OpenBrace.chars()) {
        lemma_skip_bounds(s, pos + 1);
        let p1 = skip(s, pos + 1);
        let low = m_leaf(s, p1, Rule::integer);
        lemma_leaf_honest(s, p1, Rule::integer);
        lemma_leaf_bounded(s, p1, Rule::integer);
        let r1 = open.join(low.reach);
        if low.node is Some {
            let a = low.node->0;
            lemma_join_settled(open, low.reach, s, pos + 1, a.end);
            lemma_skip_bounds(s, a.end);
            let p2 = skip(s, a.end);
            lemma_text_honest(s, p2, Text::Dots);
            let r2 = r1.join(sought(p2, Text::Dots));
            if lit(s, p2, Text::Dots.chars()) {
                lemma_join_settled(r1, sought(p2, Text::Dots), s, a.end, p2 + 2);
                lemma_skip_bounds(s, p2 + 2);
                let p3 = skip(s, p2 + 2);
                let high = m_leaf(s, p3, Rule::integer);
                lemma_leaf_honest(s, p3, Rule::integer);
                lemma_leaf_bounded(s, p3, Rule::integer);
                let r3 = r2.join(high.reach);
                if high.node is Some {
                    let b = high.node->0;
                    lemma_join_settled(r2, high.reach, s, p2 + 2, b.end);
                    lemma_skip_bounds(s, b.end);
                    let p4 = skip(s, b.end);
                    lemma_text_honest(s, p4, Text::CloseBrace);
                    lemma_join_settled(
                        r3,
                        sought(p4, Text::CloseBrace),
                        s,
                        b.end,
                        if lit(s, p4, Text::CloseBrace.chars()) {
                            p4 + 1
                        } else {
                            0
                        },
                    );
                } else {
                    lemma_join_settled(r2, high.reach, s, p2 + 2, 0);
                }
            } else {
                lemma_join_settled(r1, sought(p2, Text::Dots), s, a.end, 0);
            }
        } else {
            lemma_join_settled(open, low.reach, s, pos + 1, 0);
        }
    }
}

/// An attempt at a set, a set literal or a range is honest.
proof fn lemma_set_honest(s: Seq<char>, pos: int)
    requires
        0 <= pos <= s.len(),
    ensures
        honest(m_set(s, pos), s, pos),
{
    broadcast use lemma_join_far;

    let name = m_leaf(s, pos, Rule::ident);
    let sign = m_leaf(s, pos, Rule::empty);
    let literal = m_set_literal(s, pos);
    let range = m_range(s, pos);
    lemma_leaf_honest(s, pos, Rule::ident);
    lemma_leaf_honest(s, pos, Rule::empty);
    lemma_set_literal_honest(s, pos);
    lemma_range_honest(s, pos);
    let r1 = name.reach;
    let r2 = r1.join(sign.reach);
    let r3 = r2.join(literal.reach);
    if name.node is None {
        if sign.node is Some {
            lemma_join_settled(r1, sign.reach, s, pos, sign.node->0.end);
        } else {
            lemma_join_settled(r1, sign.reach, s, pos, 0);
            if literal.node is Some {
                lemma_join_settled(r2, literal.reach, s, pos, literal.node->0.end);
            } else {
                lemma_join_settled(r2, literal.reach, s, pos, 0);
                if range.node is Some {
                    lemma_join_settled(r3, range.reach, s, pos, range.node->0.end);
                } else {
                    lemma_join_settled(r3, range.reach, s, pos, 0);
                }
            }
        }
    }
}

/// An attempt at an operator is honest.
proof fn lemma_sign_honest(s: Seq<char>, at: int, level: Rule)
    requires
        0 <= at <= s.len(),
        level == Rule::add || level == Rule::mul,
    ensures
        honest(m_sign(s, at, level), s, at),
{
    broadcast use lemma_join_far;

    let first = m_leaf(s, at, first_sign(level));
    let second = m_leaf(s, at, second_sign(level));
    lemma_leaf_honest(s, at, first_sign(level));
    lemma_leaf_honest(s, at, second_sign(level));
    if first.node is None {
        lemma_join_settled(
            first.reach,
            second.reach,
            s,
            at,
            if second.node is Some {
                second.node->0.end
            } else {
                0
            },
        );
    }
}

/// An attempt at complement marks is honest.
proof fn lemma_marks_honest(s: Seq<char>, at: int, end: int)
    requires
        0 <= end <= at <= s.len(),
    ensures
        items_honest(m_marks(s, at, end), s, at),
    decreases s.len() - at,
{
    broadcast use lemma_join_far;

    let a = m_leaf(s, at, Rule::complement);
    lemma_leaf_honest(s, at, Rule::complement);
    lemma_leaf_bounded(s, at, Rule::complement);
    if a.node is Some {
        let n = a.node->0;
        lemma_skip_bounds(s, n.end);
        lemma_marks_honest(s, skip(s, n.end), n.end);
        lemma_join_settled(a.reach, m_marks(s, skip(s, n.end), n.end).reach, s, n.end, 0);
    }
}

/// An attempt at `expr` is honest.
proof fn lemma_expr_honest(s: Seq<char>, pos: int)
    requires
        0 <= pos <= s.len(),
    ensures
        honest(m_expr(s, pos), s, pos),
    decreases s.len() - pos, 5nat,
{
    lemma_chain_honest(s, pos, Rule::add);
}

/// An attempt at a chain is honest.
proof fn lemma_chain_honest(s: Seq<char>, pos: int, level: Rule)
    requires
        0 <= pos <= s.len(),
        level == Rule::add || level == Rule::mul,
    ensures
        honest(m_chain(s, pos, level), s, pos),
    decreases s.len() - pos,
        (if level == Rule::add {
            4nat
        } else {
            3nat
        }),
{
    broadcast use lemma_join_far;

    let head = if level == Rule::add {
        m_chain(s, pos, Rule::mul)
    } else {
        m_postfix(s, pos)
    };
    if level == Rule::add {
        lemma_chain_honest(s, pos, Rule::mul);
        lemma_chain_bounded(s, pos, Rule::mul);
    } else {
        lemma_postfix_honest(s, pos);
        lemma_postfix_bounded(s, pos);
    }
    if head.node is Some {
        let n = head.node->0;
        lemma_skip_bounds(s, n.end);
        let next = skip(s, n.end);
        lemma_chain_tail_honest(s, next, next, level);
        lemma_join_settled(head.reach, m_chain_tail(s, next, next, level).reach, s, n.end, 0);
    }
}

/// An attempt at the operators of a chain with their operands is honest.
proof fn lemma_chain_tail_honest(s: Seq<char>, at: int, end: int, level: Rule)
    requires
        0 <= end <= at <= s.len(),
        level == Rule::add || level == Rule::mul,
    ensures
        items_honest(m_chain_tail(s, at, end, level), s, at),
    decreases s.len() - at, 0nat,
{
    broadcast use lemma_join_far;

    let sign = m_sign(s, at, level);
    lemma_sign_honest(s, at, level);
    lemma_leaf_bounded(s, at, first_sign(level));
    lemma_leaf_bounded(s, at, second_sign(level));
    if sign.node is Some {
        let op = sign.node->0;
        lemma_skip_bounds(s, op.end);
        let p = skip(s, op.end);
        let operand = if level == Rule::add {
            m_chain(s, p, Rule::mul)
        } else {
            m_postfix(s, p)
        };
        if level == Rule::add {
            lemma_chain_honest(s, p, Rule::mul);
            lemma_chain_bounded(s, p, Rule::mul);
        } else {
            lemma_postfix_honest(s, p);
            lemma_postfix_bounded(s, p);
        }
        let reach = sign.reach.join(operand.reach);
        if operand.node is Some {
            let n = operand.node->0;
            lemma_join_settled(sign.reach, operand.reach, s, op.end, n.end);
            lemma_skip_bounds(s, n.end);
            lemma_chain_tail_honest(s, skip(s, n.end), n.end, level);
            lemma_join_settled(
                reach,
                m_chain_tail(s, skip(s, n.end), n.end, level).reach,
                s,
                n.end,
                0,
            );
        } else {
            lemma_join_settled(sign.reach, operand.reach, s, op.end, 0);
        }
    }
}

/// An attempt at `postfix` is honest.
proof fn lemma_postfix_honest(s: Seq<char>, pos: int)
    requires
        0 <= pos <= s.len(),
    ensures
        honest(m_postfix(s, pos), s, pos),
    decreases s.len() - pos, 2nat,
{
    broadcast use lemma_join_far;

    let a = m_primary(s, pos);
    lemma_primary_honest(s, pos);
    lemma_primary_bounded(s, pos);
    if a.node is Some {
        let n = a.node->0;
        lemma_skip_bounds(s, n.end);
        let next = skip(s, n.end);
        lemma_marks_honest(s, next, next);
        lemma_join_settled(a.reach, m_marks(s, next, next).reach, s, n.end, 0);
    }
}

/// An attempt at `primary` is honest.
proof fn lemma_primary_honest(s: Seq<char>, pos: int)
    requires
        0 <= pos <= s.len(),
    ensures
        honest(m_primary(s, pos), s, pos),
    decreases s.len() - pos, 1nat,
{
    broadcast use lemma_join_far;

    let a = m_set(s, pos);
    lemma_set_honest(s, pos);
    lemma_text_honest(s, pos, Text::OpenParen);
    let r1 = a.reach.join(sought(pos, Text::OpenParen));
    if a.node is None {
        if lit(s, pos, Text::OpenParen.chars()) {
            lemma_join_settled(a.reach, sought(pos, Text::OpenParen), s, pos, pos + 1);
            lemma_skip_bounds(s, pos + 1);
            let e = m_expr(s, skip(s, pos + 1));
            lemma_expr_honest(s, skip(s, pos + 1));
            lemma_expr_bounded(s, skip(s, pos + 1));
            let r2 = r1.join(e.reach);
            if e.node is Some {
                let n = e.node->0;
                lemma_join_settled(r1, e.reach, s, pos + 1, n.end);
                lemma_skip_bounds(s, n.end);
                let close = skip(s, n.end);
                lemma_text_honest(s, close, Text::CloseParen);
                lemma_join_settled(
                    r2,
                    sought(close, Text::CloseParen),
                    s,
                    n.end,
                    if lit(s, close, Text::CloseParen.chars()) {
                        close + 1
                    } else {
                        0
                    },
                );
            } else {
                lemma_join_settled(r1, e.reach, s, pos + 1, 0);
            }
        } else {
            lemma_join_settled(a.reach, sought(pos, Text::OpenParen), s, pos, 0);
        }
    }
}

/// An attempt at `decl` is honest.
proof fn lemma_decl_honest(s: Seq<char>, pos: int)
    requires
        0 <= pos <= s.len(),
    ensures
        honest(m_decl(s, pos), s, pos),
{
    broadcast use lemma_join_far;

    let word = sought(pos, Text::Let);
    lemma_text_honest(s, pos, Text::Let);
    if lit(s, pos, Text::Let.chars()) {
        lemma_skip_bounds(s, pos + 3);
        let p1 = skip(s, pos + 3);
        let name = m_leaf(s, p1, Rule::ident);
        lemma_leaf_honest(s, p1, Rule::ident);
        lemma_leaf_bounded(s, p1, Rule::ident);
        let r1 = word.join(name.reach);
        if name.node is Some {
            let n = name.node->0;
            lemma_join_settled(word, name.reach, s, pos + 3, n.end);
            lemma_skip_bounds(s, n.end);
            let p2 = skip(s, n.end);
            lemma_text_honest(s, p2, Text::Assign);
            let r2 = r1.join(sought(p2, Text::Assign));
            if lit(s, p2, Text::Assign.chars()) {
                lemma_join_settled(r1, sought(p2, Text::Assign), s, n.end, p2 + 1);
                lemma_skip_bounds(s, p2 + 1);
                let e = m_expr(s, skip(s, p2 + 1));
                lemma_expr_honest(s, skip(s, p2 + 1));
                lemma_expr_bounded(s, skip(s, p2 + 1));
                let r3 = r2.join(e.reach);
                if e.node is Some {
                    let value = e.node->0;
                    lemma_join_settled(r2, e.reach, s, p2 + 1, value.end);
                    lemma_skip_bounds(s, value.end);
                    let p3 = skip(s, value.end);
                    lemma_text_honest(s, p3, Text::Semicolon);
                    lemma_join_settled(
                        r3,
                        sought(p3, Text::Semicolon),
                        s,
                        value.end,
                        if lit(s, p3, Text::Semicolon.chars()) {
                            p3 + 1
                        } else {
                            0
                        },
                    );
                } else {
                    lemma_join_settled(r2, e.reach, s, p2 + 1, 0);
                }
            } else {
                lemma_join_settled(r1, sought(p2, Text::Assign), s, n.end, 0);
            }
        } else {
            lemma_join_settled(word, name.reach, s, pos + 3, 0);
        }
    }
}

/// An attempt at `print_stmt` is honest.
proof fn lemma_print_honest(s: Seq<char>, pos: int)
    requires
        0 <= pos <= s.len(),
    ensures
        honest(m_print(s, pos), s, pos),
{
    broadcast use lemma_join_far;

    let word = sought(pos, Text::Print);
    lemma_text_honest(s, pos, Text::Print);
    if lit(s, pos, Text::Print.chars()) {
        lemma_skip_bounds(s, pos + 5);
        let e = m_expr(s, skip(s, pos + 5));
        lemma_expr_honest(s, skip(s, pos + 5));
        lemma_expr_bounded(s, skip(s, pos + 5));
        let r1 = word.join(e.reach);
        if e.node is Some {
            let value = e.node->0;
            lemma_join_settled(word, e.reach, s, pos + 5, value.end);
            lemma_skip_bounds(s, value.end);
            let p = skip(s, value.end);
            lemma_text_honest(s, p, Text::Semicolon);
            lemma_join_settled(
                r1,
                sought(p, Text::Semicolon),
                s,
                value.end,
                if lit(s, p, Text::Semicolon.chars()) {
                    p + 1
                } else {
                    0
                },
            );
        } else {
            lemma_join_settled(word, e.reach, s, pos + 5, 0);
        }
    }
}

/// An attempt at `stmt` is honest.
proof fn lemma_stmt_honest(s: Seq<char>, pos: int)
    requires
        0 <= pos <= s.len(),
    ensures
        honest(m_stmt(s, pos), s, pos),
{
    broadcast use lemma_join_far;

    let decl = m_decl(s, pos);
    let print = m_print(s, pos);
    lemma_decl_honest(s, pos);
    lemma_print_honest(s, pos);
    if decl.node is None {
        lemma_join_settled(
            decl.reach,
            print.reach,
            s,
            pos,
            if print.node is Some {
                print.node->0.end
            } else {
                0
            },
        );
    }
}

/// An attempt at a list of statements is honest.
proof fn lemma_stmts_honest(s: Seq<char>, at: int, end: int)
    requires
        0 <= end <= at <= s.len(),
    ensures
        items_honest(m_stmts(s, at, end), s, at),
    decreases s.len() - at,
{
    broadcast use lemma_join_far;

    let a = m_stmt(s, at);
    lemma_stmt_honest(s, at);
    lemma_stmt_bounded(s, at);
    if a.node is Some {
        let n = a.node->0;
        lemma_skip_bounds(s, n.end);
        lemma_stmts_honest(s, skip(s, n.end), n.end);
        lemma_join_settled(a.reach, m_stmts(s, skip(s, n.end), n.end).reach, s, n.end, 0);
    }
}

/// An attempt at `program` is honest.
proof fn lemma_program_honest(s: Seq<char>)
    ensures
        m_program(s, 0).node is None ==> unmet(m_program(s, 0).reach, s),
{
    broadcast use lemma_join_far;

    lemma_skip_bounds(s, 0);
    let first = skip(s, 0);
    let body = m_stmts(s, first, first);
    lemma_stmts_honest(s, first, first);
    lemma_stmts_bounded(s, first, first);
    lemma_skip_bounds(s, body.end);
    let eoi = m_leaf(s, skip(s, body.end), Rule::EOI);
    if eoi.node is None {
        lemma_join_settled(body.reach, eoi.reach, s, 0, 0);
    }
}

/// What stands in `distinct(items)` stands in `items`.
proof fn lemma_distinct_within(items: Seq<Expected>, what: Expected)
    requires
        distinct(items).contains(what),
    ensures
        items.contains(what),
    decreases items.len(),
{
    if items.len() > 0 {
        let before = distinct(items.drop_last());
        if before.contains(what) {
            lemma_distinct_within(items.drop_last(), what);
            let k = choose|k: int| 0 <= k < items.drop_last().len() && items.drop_last()[k] == what;
            assert(items[k] == what);
        } else {
            let k = choose|k: int| 0 <= k < distinct(items).len() && distinct(items)[k] == what;
            assert(what == items.last());
            assert(items[items.len() - 1] == what);
        }
    }
}

/// A syntax error tells the truth: at the position that it gives, inside
/// the text or at its end, nothing stands that it lists as expected.
pub proof fn law_syntax_error_is_true(rule: Rule, s: Seq<char>)
    ensures
        parse_result(rule, s) matches Err(e) ==> {
            &&& 0 <= e.pos <= s.len()
            &&& forall|i: int| 0 <= i < e.expected.len() ==> !stands(s, e.pos, #[trigger] e.expected[i])
        },
{
    lemma_rule_reach(rule, s);
    let a = m_rule(s, 0, rule);
    if parse_result(rule, s) is Err {
        let e = parse_result(rule, s)->Err_0;
        assert(unmet(a.reach, s)) by {
            match rule {
                Rule::program => lemma_program_honest(s),
                Rule::stmt => lemma_stmt_honest(s, 0),
                Rule::decl => lemma_decl_honest(s, 0),
                Rule::print_stmt => lemma_print_honest(s, 0),
                Rule::expr => lemma_expr_honest(s, 0),
                Rule::add => lemma_chain_honest(s, 0, Rule::add),
                Rule::mul => lemma_chain_honest(s, 0, Rule::mul),
                Rule::postfix => lemma_postfix_honest(s, 0),
                Rule::primary => lemma_primary_honest(s, 0),
                Rule::set => lemma_set_honest(s, 0),
                Rule::set_literal => lemma_set_literal_honest(s, 0),
                Rule::range => lemma_range_honest(s, 0),
                Rule::WHITESPACE | Rule::COMMENT | Rule::EOI => {},
                _ => lemma_leaf_honest(s, 0, rule),
            }
        }
        assert forall|i: int| 0 <= i < e.expected.len() implies !stands(
            s,
            e.pos,
            #[trigger] e.expected[i],
        ) by {
            let what = e.expected[i];
            assert(distinct(a.reach.wanted).contains(what));
            lemma_distinct_within(a.reach.wanted, what);
            let k = choose|k: int| 0 <= k < a.reach.wanted.len() && a.reach.wanted[k] == what;
            assert(!stands(s, a.reach.far, a.reach.wanted[k]));
        }
    }
}

} // verus!
