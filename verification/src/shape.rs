//! What the parse trees of the grammar look like, and what follows for the
//! builder: on the parse tree of a text it never finds a rule out of place
//! or a match missing.

use crate::grammar::{
    advances, first_sign, m_chain, m_chain_tail, m_decl, m_expr, m_leaf,
    m_postfix, m_primary, m_print, m_program, m_range, m_set, m_set_literal, m_sign, m_stmt,
    m_stmts, operand_of, parse_result, second_sign, skip, Attempt,
};
use crate::parse::{
    chain_of, chain_upto, expr_of, links, operand_in, parsed, postfix_of, primary_of,
    set_of, stmt_of, stmts_of, values_of, ParseErrorView,
};
use crate::tree::{Node, Rule};
use vstd::prelude::*;

verus! {

/// `n` is built as the grammar builds a match of its rule: the matches
/// inside it are of the rules that the grammar puts there, and are built so
/// in their turn.
pub open spec fn shaped(n: Node) -> bool
    decreases n,
{
    match n.rule {
        Rule::program => forall|i: int|
            0 <= i < n.inner.len() && n.inner[i].rule == Rule::stmt ==> shaped(n.inner[i]),
        Rule::stmt => {
            &&& n.inner.len() == 1
            &&& n.inner[0].rule == Rule::decl || n.inner[0].rule == Rule::print_stmt
            &&& shaped(n.inner[0])
        },
        Rule::decl => {
            &&& n.inner.len() == 2
            &&& n.inner[0].rule == Rule::ident
            &&& n.inner[1].rule == Rule::expr
            &&& shaped(n.inner[1])
        },
        Rule::print_stmt => {
            &&& n.inner.len() == 1
            &&& n.inner[0].rule == Rule::expr
            &&& shaped(n.inner[0])
        },
        Rule::expr => {
            &&& n.inner.len() == 1
            &&& n.inner[0].rule == Rule::add
            &&& shaped(n.inner[0])
        },
        Rule::add | Rule::mul => {
            &&& n.inner.len() % 2 == 1
            &&& forall|i: int|
                0 <= i < n.inner.len() ==> if i % 2 == 0 {
                    n.inner[i].rule == operand_of(n.rule) && shaped(n.inner[i])
                } else {
                    n.inner[i].rule == first_sign(n.rule) || n.inner[i].rule == second_sign(
                        n.rule,
                    )
                }
        },
        Rule::postfix => {
            &&& n.inner.len() >= 1
            &&& n.inner[0].rule == Rule::primary
            &&& shaped(n.inner[0])
        },
        Rule::primary => {
            &&& n.inner.len() == 1
            &&& n.inner[0].rule == Rule::set || n.inner[0].rule == Rule::expr
            &&& shaped(n.inner[0])
        },
        Rule::set => {
            &&& n.inner.len() == 1
            &&& n.inner[0].rule == Rule::ident || n.inner[0].rule == Rule::empty
                || n.inner[0].rule == Rule::set_literal || n.inner[0].rule == Rule::range
            &&& shaped(n.inner[0])
        },
        Rule::range => n.inner.len() == 2,
        _ => true,
    }
}

/// What an attempt at `rule` gives, if it gives a match, is a well-built
/// match of `rule`.
pub open spec fn gives(a: Attempt, rule: Rule) -> bool {
    a.node matches Some(n) ==> n.rule == rule && shaped(n)
}

/// The nodes of the repetition of a chain: signs of `level` and well-built
/// operands, in turn.
pub open spec fn links_shaped(nodes: Seq<Node>, level: Rule) -> bool {
    &&& nodes.len() % 2 == 0
    &&& forall|i: int|
        0 <= i < nodes.len() ==> if i % 2 == 1 {
            nodes[i].rule == operand_of(level) && shaped(nodes[i])
        } else {
            nodes[i].rule == first_sign(level) || nodes[i].rule == second_sign(level)
        }
}

/// A match of a set, a set literal or a range is well built.
proof fn lemma_set_shaped(s: Seq<char>, pos: int)
    ensures
        gives(m_set(s, pos), Rule::set),
{
    let a = m_set(s, pos);
    if a.node is Some {
        let n = a.node->0;
        assert(n.inner.len() == 1);
        let inner = n.inner[0];
        if m_leaf(s, pos, Rule::ident).node is Some {
        } else if m_leaf(s, pos, Rule::empty).node is Some {
        } else if m_set_literal(s, pos).node is Some {
        } else {
            assert(inner == m_range(s, pos).node->0);
            assert(inner.inner.len() == 2);
        }
        assert(shaped(inner));
    }
}

/// A match of `expr` is well built.
proof fn lemma_expr_shaped(s: Seq<char>, pos: int)
    ensures
        gives(m_expr(s, pos), Rule::expr),
    decreases s.len() - pos, 5nat,
{
    lemma_chain_shaped(s, pos, Rule::add);
}

/// A match of a chain is well built.
proof fn lemma_chain_shaped(s: Seq<char>, pos: int, level: Rule)
    requires
        level == Rule::add || level == Rule::mul,
    ensures
        gives(m_chain(s, pos, level), level),
    decreases s.len() - pos,
        (if level == Rule::add {
            4nat
        } else {
            3nat
        }),
{
    let head = if level == Rule::add {
        m_chain(s, pos, Rule::mul)
    } else {
        m_postfix(s, pos)
    };
    if level == Rule::add {
        lemma_chain_shaped(s, pos, Rule::mul);
    } else {
        lemma_postfix_shaped(s, pos);
    }
    if head.node is Some && advances(s, pos, skip(s, head.node->0.end)) {
        let h = head.node->0;
        let next = skip(s, h.end);
        let rest = m_chain_tail(s, next, next, level);
        lemma_chain_tail_shaped(s, next, next, level);
        let n = m_chain(s, pos, level).node->0;
        assert(n.inner == seq![h] + rest.nodes);
        assert forall|i: int| 0 <= i < n.inner.len() implies if i % 2 == 0 {
            n.inner[i].rule == operand_of(level) && shaped(n.inner[i])
        } else {
            n.inner[i].rule == first_sign(level) || n.inner[i].rule == second_sign(level)
        } by {
            if i > 0 {
                assert(n.inner[i] == rest.nodes[i - 1]);
            }
        }
    }
}

/// What the operators of a chain with their operands matches is well built.
proof fn lemma_chain_tail_shaped(s: Seq<char>, at: int, end: int, level: Rule)
    requires
        level == Rule::add || level == Rule::mul,
    ensures
        links_shaped(m_chain_tail(s, at, end, level).nodes, level),
    decreases s.len() - at, 0nat,
{
    let sign = m_sign(s, at, level);
    if sign.node is Some && advances(s, at, skip(s, sign.node->0.end)) {
        let p = skip(s, sign.node->0.end);
        let operand = if level == Rule::add {
            m_chain(s, p, Rule::mul)
        } else {
            m_postfix(s, p)
        };
        if level == Rule::add {
            lemma_chain_shaped(s, p, Rule::mul);
        } else {
            lemma_postfix_shaped(s, p);
        }
        if operand.node is Some && advances(s, at, skip(s, operand.node->0.end)) {
            let n = operand.node->0;
            let rest = m_chain_tail(s, skip(s, n.end), n.end, level);
            lemma_chain_tail_shaped(s, skip(s, n.end), n.end, level);
            let nodes = m_chain_tail(s, at, end, level).nodes;
            assert(nodes == seq![sign.node->0, n] + rest.nodes);
            assert forall|i: int| 0 <= i < nodes.len() implies if i % 2 == 1 {
                nodes[i].rule == operand_of(level) && shaped(nodes[i])
            } else {
                nodes[i].rule == first_sign(level) || nodes[i].rule == second_sign(level)
            } by {
                if i >= 2 {
                    assert(nodes[i] == rest.nodes[i - 2]);
                }
            }
        }
    }
}

/// A match of `postfix` is well built.
proof fn lemma_postfix_shaped(s: Seq<char>, pos: int)
    ensures
        gives(m_postfix(s, pos), Rule::postfix),
    decreases s.len() - pos, 2nat,
{
    lemma_primary_shaped(s, pos);
}

/// A match of `primary` is well built.
proof fn lemma_primary_shaped(s: Seq<char>, pos: int)
    ensures
        gives(m_primary(s, pos), Rule::primary),
    decreases s.len() - pos, 1nat,
{
    lemma_set_shaped(s, pos);
    if m_set(s, pos).node is None && crate::grammar::lit(
        s,
        pos,
        crate::grammar::Text::OpenParen.chars(),
    ) && advances(
        s,
        pos,
        skip(s, pos + 1),
    ) {
        lemma_expr_shaped(s, skip(s, pos + 1));
    }
}

/// A match of `stmt` is well built.
proof fn lemma_stmt_shaped(s: Seq<char>, pos: int)
    ensures
        gives(m_stmt(s, pos), Rule::stmt),
{
    let decl = m_decl(s, pos);
    let print = m_print(s, pos);
    if decl.node is Some {
        let p1 = skip(s, pos + 3);
        let name = m_leaf(s, p1, Rule::ident).node->0;
        let p2 = skip(s, name.end);
        lemma_expr_shaped(s, skip(s, p2 + 1));
        assert(shaped(decl.node->0));
    } else if print.node is Some {
        lemma_expr_shaped(s, skip(s, pos + 5));
        assert(shaped(print.node->0));
    }
}

/// What a list of statements matches is well built.
proof fn lemma_stmts_shaped(s: Seq<char>, at: int, end: int)
    ensures
        forall|i: int|
            0 <= i < m_stmts(s, at, end).nodes.len() ==> shaped(
                #[trigger] m_stmts(s, at, end).nodes[i],
            ),
    decreases s.len() - at,
{
    let a = m_stmt(s, at);
    lemma_stmt_shaped(s, at);
    if a.node is Some && advances(s, at, skip(s, a.node->0.end)) {
        let n = a.node->0;
        let rest = m_stmts(s, skip(s, n.end), n.end);
        lemma_stmts_shaped(s, skip(s, n.end), n.end);
        let nodes = m_stmts(s, at, end).nodes;
        assert(nodes == seq![n] + rest.nodes);
        assert forall|i: int| 0 <= i < nodes.len() implies shaped(#[trigger] nodes[i]) by {
            if i > 0 {
                assert(nodes[i] == rest.nodes[i - 1]);
            }
        }
    }
}

/// The parse tree of a program is well built.
pub proof fn lemma_program_shaped(s: Seq<char>)
    ensures
        gives(m_program(s, 0), Rule::program),
{
    let a = m_program(s, 0);
    if a.node is Some {
        let n = a.node->0;
        let first = skip(s, 0);
        let body = m_stmts(s, first, first);
        lemma_stmts_shaped(s, first, first);
        assert forall|i: int|
            0 <= i < n.inner.len() && n.inner[i].rule == Rule::stmt implies shaped(
            n.inner[i],
        ) by {
            if i < body.nodes.len() {
                assert(n.inner[i] == body.nodes[i]);
            }
        }
    }
}

/// The result is a value, or the error of an integer literal that is too
/// large.
pub open spec fn sound<T>(r: Result<T, ParseErrorView>) -> bool {
    r matches Err(e) ==> e is InvalidInt
}

/// In a well-built match of a list of integers the builder finds no rule out of place and
/// no match missing.
proof fn lemma_values_sound(items: Seq<Node>, s: Seq<char>)
    ensures
        sound(values_of(items, s)),
    decreases items.len(),
{
    if items.len() > 0 {
        lemma_values_sound(items.drop_last(), s);
    }
}

/// In a well-built match of a set, a set literal or a range the builder finds no rule out of place and
/// no match missing.
proof fn lemma_set_sound(n: Node, s: Seq<char>)
    requires
        shaped(n),
        n.rule == Rule::set,
    ensures
        sound(set_of(n, s)),
{
    lemma_values_sound(n.inner[0].inner, s);
    assert(shaped(n.inner[0]));
}

/// In a well-built match of `expr` the builder finds no rule out of place and
/// no match missing.
proof fn lemma_expr_sound(n: Node, s: Seq<char>)
    requires
        shaped(n),
        n.rule == Rule::expr || n.rule == Rule::add || n.rule == Rule::mul || n.rule
            == Rule::postfix || n.rule == Rule::primary,
    ensures
        sound(expr_of(n, s)),
    decreases n, 3nat, 0nat,
{
    match n.rule {
        Rule::expr => lemma_expr_sound(n.inner[0], s),
        Rule::add => lemma_chain_sound(n, s, Rule::add),
        Rule::mul => lemma_chain_sound(n, s, Rule::mul),
        Rule::postfix => lemma_postfix_sound(n, s),
        _ => lemma_primary_sound(n, s),
    }
}

/// In a well-built match of a chain the builder finds no rule out of place and
/// no match missing.
proof fn lemma_chain_sound(n: Node, s: Seq<char>, level: Rule)
    requires
        shaped(n),
        n.rule == level,
        level == Rule::add || level == Rule::mul,
    ensures
        sound(chain_of(n, s, level)),
    decreases n, 2nat, 0nat,
{
    lemma_chain_upto_sound(n, s, level, links(n.inner.len()));
}

/// In a well-built match of the first links of a chain the builder finds no rule out of place and
/// no match missing.
proof fn lemma_chain_upto_sound(n: Node, s: Seq<char>, level: Rule, k: nat)
    requires
        shaped(n),
        n.rule == level,
        level == Rule::add || level == Rule::mul,
        k <= links(n.inner.len()),
    ensures
        sound(chain_upto(n, s, level, k)),
    decreases n, 1nat, k,
{
    assert(0 <= 2 * k < n.inner.len());
    lemma_operand_sound(n, s, level, 2 * (k as int));
    if k > 0 {
        lemma_chain_upto_sound(n, s, level, (k - 1) as nat);
        let sign = n.inner[2 * k - 1].rule;
        assert(sign == first_sign(level) || sign == second_sign(level));
    }
}

/// In a well-built match of an operand of a chain the builder finds no rule out of place and
/// no match missing.
proof fn lemma_operand_sound(n: Node, s: Seq<char>, level: Rule, i: int)
    requires
        shaped(n),
        n.rule == level,
        level == Rule::add || level == Rule::mul,
        0 <= i < n.inner.len(),
        i % 2 == 0,
    ensures
        sound(operand_in(n, s, level, i)),
    decreases n, 0nat, 0nat,
{
    assert(n.inner[i].rule == operand_of(level) && shaped(n.inner[i]));
    if level == Rule::add {
        lemma_chain_sound(n.inner[i], s, Rule::mul);
    } else {
        lemma_postfix_sound(n.inner[i], s);
    }
}

/// In a well-built match of `postfix` the builder finds no rule out of place and
/// no match missing.
proof fn lemma_postfix_sound(n: Node, s: Seq<char>)
    requires
        shaped(n),
        n.rule == Rule::postfix,
    ensures
        sound(postfix_of(n, s)),
    decreases n, 0nat, 0nat,
{
    lemma_primary_sound(n.inner[0], s);
}

/// In a well-built match of `primary` the builder finds no rule out of place and
/// no match missing.
proof fn lemma_primary_sound(n: Node, s: Seq<char>)
    requires
        shaped(n),
        n.rule == Rule::primary,
    ensures
        sound(primary_of(n, s)),
    decreases n, 0nat, 0nat,
{
    if n.inner[0].rule == Rule::set {
        lemma_set_sound(n.inner[0], s);
    } else {
        lemma_expr_sound(n.inner[0], s);
    }
}

/// In a well-built match of `stmt` the builder finds no rule out of place and
/// no match missing.
proof fn lemma_stmt_sound(n: Node, s: Seq<char>)
    requires
        shaped(n),
        n.rule == Rule::stmt,
    ensures
        sound(stmt_of(n, s)),
{
    let p = n.inner[0];
    assert(shaped(p));
    if p.rule == Rule::decl {
        lemma_expr_sound(p.inner[1], s);
    } else {
        lemma_expr_sound(p.inner[0], s);
    }
}

/// In a well-built match of a list of statements the builder finds no rule out of place and
/// no match missing.
proof fn lemma_stmts_sound(items: Seq<Node>, s: Seq<char>)
    requires
        forall|i: int| 0 <= i < items.len() && items[i].rule == Rule::stmt ==> shaped(items[i]),
    ensures
        sound(stmts_of(items, s)),
    decreases items.len(),
{
    if items.len() > 0 {
        lemma_stmts_sound(items.drop_last(), s);
        if items.last().rule == Rule::stmt {
            lemma_stmt_sound(items.last(), s);
        }
    }
}

/// Parsing fails only on a text that does not follow the grammar or that
/// holds an integer literal too large for 32 bits: for no text does the
/// builder find a rule out of place or a match missing.
pub proof fn law_parse_errors(s: Seq<char>)
    ensures
        parsed(s) matches Err(e) ==> e is Syntax || e is InvalidInt,
{
    lemma_program_shaped(s);
    let a = m_program(s, 0);
    if a.node is Some {
        let n = a.node->0;
        assert(parse_result(Rule::program, s) == Ok::<Seq<Node>, crate::grammar::Failure>(seq![n]));
        lemma_stmts_sound(n.inner, s);
    }
}

} // verus!
