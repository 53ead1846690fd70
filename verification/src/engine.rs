//! The grammar engine: the executable matcher of each rule, proved to compute
//! what the grammar says.
//!
//! Every matcher takes the source, the position at which to look, and the
//! reach of the parse so far, which it extends by its own.

use crate::grammar::{
    distinct, lemma_join_grouping, lemma_join_start, lemma_rule_reach, lit, looked, m_chain,
    m_chain_tail, m_decl, m_expr, m_integers, m_leaf, m_marks, m_more_integers, m_postfix,
    m_primary, m_print, m_program, m_range, m_rule, m_set, m_set_literal, m_sign, m_stmt,
    m_stmts, parse_result, run_end, sign_of, skip, slashes, sought, Attempt, CharClass,
    Expected, Failure, Reach, Text,
};
use crate::tree::{lemma_pair_view, nodes_of, Node, Pair, Rule};
use vstd::prelude::*;

verus! {

/// The executable form of a [`Reach`].
struct Reached {
    far: usize,
    wanted: Vec<Expected>,
}

impl View for Reached {
    type V = Reach;

    closed spec fn view(&self) -> Reach {
        Reach { far: self.far as int, wanted: self.wanted@ }
    }
}

/// A matcher that found `found` and took the reach from `before` to `after`
/// did what the attempt `a` says.
spec fn agrees(found: Option<Pair>, before: Reached, after: Reached, a: Attempt) -> bool {
    &&& after@ == before@.join(a.reach)
    &&& match found {
        Some(p) => a.node == Some(p@),
        None => a.node is None,
    }
}

/// A match begins at `pos`, is not empty, and ends inside a source of `len`
/// characters.
spec fn within(found: Option<Pair>, pos: usize, len: usize) -> bool {
    found matches Some(p) ==> p.start == pos && pos < p.end <= len
}

impl CharClass {
    /// Whether `c` is of this class.
    pub fn has(self, c: char) -> (b: bool)
        ensures
            b == self.holds(c),
    {
        match self {
            CharClass::Blank => c == ' ' || c == '\t' || c == '\r' || c == '\n',
            CharClass::Letter => (c >= 'a' && c <= 'z') || (c >= 'A' && c <= 'Z'),
            CharClass::Digit => c >= '0' && c <= '9',
            CharClass::InLine => c != '\n',
        }
    }
}

/// Whether `text` stands in `src` at `pos`.
fn at_text(src: &Vec<char>, pos: usize, text: &[char]) -> (b: bool)
    ensures
        b == lit(src@, pos as int, text@),
{
    if pos > src.len() || text.len() > src.len() - pos {
        return false;
    }
    let mut i: usize = 0;
    while i < text.len()
        invariant
            i <= text.len(),
            pos + text.len() <= src.len(),
            forall|j: int| 0 <= j < i ==> src@[pos + j] == text@[j],
        decreases text.len() - i,
    {
        if src[pos + i] != text[i] {
            return false;
        }
        i = i + 1;
    }
    true
}

/// Whether `c` stands in `src` at `pos`.
fn at_char(src: &Vec<char>, pos: usize, c: char) -> (b: bool)
    ensures
        b == lit(src@, pos as int, seq![c]),
        b ==> pos < src.len(),
{
    let b = pos < src.len() && src[pos] == c;
    proof {
        if b {
            assert forall|i: int| 0 <= i < seq![c].len() implies src@[pos + i] == seq![c][i] by {}
        } else if pos < src.len() {
            assert(seq![c][0] == c);
        }
    }
    b
}

impl Text {
    /// Whether the text stands in `src` at `pos`.
    pub fn stands_at(self, src: &Vec<char>, pos: usize) -> (b: bool)
        ensures
            b == lit(src@, pos as int, self.chars()),
            b ==> pos + self.chars().len() <= src.len(),
    {
        match self {
            Text::Let => {
                let word = ['l', 'e', 't'];
                assert(word@ =~= self.chars());
                at_text(src, pos, &word)
            },
            Text::Print => {
                let word = ['p', 'r', 'i', 'n', 't'];
                assert(word@ =~= self.chars());
                at_text(src, pos, &word)
            },
            Text::Dots => {
                let word = ['.', '.'];
                assert(word@ =~= self.chars());
                at_text(src, pos, &word)
            },
            Text::Assign => at_char(src, pos, '='),
            Text::Semicolon => at_char(src, pos, ';'),
            Text::OpenBrace => at_char(src, pos, '{'),
            Text::CloseBrace => at_char(src, pos, '}'),
            Text::Comma => at_char(src, pos, ','),
            Text::OpenParen => at_char(src, pos, '('),
            Text::CloseParen => at_char(src, pos, ')'),
        }
    }
}

/// Takes down that `what` was looked for at `pos`.
fn note(reach: &mut Reached, pos: usize, what: Expected)
    ensures
        final(reach)@ == old(reach)@.join(looked(pos as int, what)),
{
    proof {
        reveal(Reach::join);
    }
    if pos > reach.far {
        reach.far = pos;
        reach.wanted.clear();
        reach.wanted.push(what);
        assert(reach.wanted@ =~= seq![what]);
    } else if pos == reach.far {
        reach.wanted.push(what);
        assert(reach.wanted@ =~= old(reach).wanted@ + seq![what]);
    }
}

/// Looks for `text` at `pos`.
fn token(src: &Vec<char>, pos: usize, text: Text, reach: &mut Reached) -> (b: bool)
    requires
        pos <= src.len(),
    ensures
        b == lit(src@, pos as int, text.chars()),
        b ==> pos + text.chars().len() <= src.len(),
        final(reach)@ == old(reach)@.join(sought(pos as int, text)),
{
    note(reach, pos, Expected::Text(text));
    text.stands_at(src, pos)
}

/// The end of the run of characters of `class` that starts at `pos`.
fn scan(src: &Vec<char>, pos: usize, class: CharClass) -> (end: usize)
    requires
        pos <= src.len(),
    ensures
        end == run_end(src@, pos as int, class),
        pos <= end <= src.len(),
{
    let mut i: usize = pos;
    while i < src.len() && class.has(src[i])
        invariant
            pos <= i <= src.len(),
            run_end(src@, pos as int, class) == run_end(src@, i as int, class),
        decreases src.len() - i,
    {
        i = i + 1;
    }
    i
}

/// The position after the blanks and comments that start at `pos`.
fn skip_gap(src: &Vec<char>, pos: usize) -> (next: usize)
    requires
        pos <= src.len(),
    ensures
        next == skip(src@, pos as int),
        pos <= next <= src.len(),
{
    let mut at: usize = pos;
    loop
        invariant
            pos <= at <= src.len(),
            skip(src@, pos as int) == skip(src@, at as int),
        decreases src.len() - at,
    {
        let p = scan(src, at, CharClass::Blank);
        let slash = ['/', '/'];
        assert(slash@ =~= slashes());
        if at_text(src, p, &slash) {
            at = scan(src, p + 2, CharClass::InLine);
        } else {
            return p;
        }
    }
}

/// The pair of `rule` from `start` to `end` around `inner`.
fn pair_of(rule: Rule, start: usize, end: usize, inner: Vec<Pair>) -> (p: Pair)
    ensures
        p@ == (Node { rule, start: start as int, end: end as int, inner: nodes_of(inner@) }),
        p.start == start,
        p.end == end,
        p.rule == rule,
{
    let p = Pair { rule, start, end, inner };
    proof {
        lemma_pair_view(p);
    }
    p
}

/// The pair of `rule` around the one pair `found`.
fn wrapped(rule: Rule, found: Pair) -> (p: Pair)
    ensures
        p@ == (Node { rule, start: found@.start, end: found@.end, inner: seq![found@] }),
        p.start == found.start,
        p.end == found.end,
{
    let ghost node = found@;
    let start = found.start;
    let end = found.end;
    proof {
        lemma_pair_view(found);
    }
    let mut inner: Vec<Pair> = Vec::new();
    inner.push(found);
    assert(nodes_of(inner@) =~= seq![node]);
    pair_of(rule, start, end, inner)
}

/// The character of a one-character rule.
fn sign(rule: Rule) -> (c: Option<char>)
    ensures
        c == sign_of(rule),
{
    match rule {
        Rule::empty => Some('\u{2205}'),
        Rule::complement => Some('\''),
        Rule::union => Some('\u{222A}'),
        Rule::intersection => Some('\u{2229}'),
        Rule::difference => Some('\\'),
        Rule::symmetric_difference => Some('\u{25B3}'),
        _ => None,
    }
}

/// Looks for a match of `rule`, a rule without inner rules, at `pos`.
fn leaf(src: &Vec<char>, pos: usize, rule: Rule, reach: &mut Reached) -> (r: Option<Pair>)
    requires
        pos <= src.len(),
    ensures
        agrees(r, *old(reach), *final(reach), m_leaf(src@, pos as int, rule)),
        r matches Some(p) ==> p.start == pos && pos <= p.end <= src.len() && (rule != Rule::EOI
            ==> pos < p.end),
{
    note(reach, pos, Expected::Rule(rule));
    let end: Option<usize> = match rule {
        Rule::ident => {
            let e = scan(src, pos, CharClass::Letter);
            if e > pos {
                Some(e)
            } else {
                None
            }
        },
        Rule::integer => {
            let e = scan(src, pos, CharClass::Digit);
            if e > pos {
                Some(e)
            } else {
                None
            }
        },
        Rule::EOI => if pos == src.len() {
            Some(pos)
        } else {
            None
        },
        _ => match sign(rule) {
            Some(c) => if at_char(src, pos, c) {
                Some(pos + 1)
            } else {
                None
            },
            None => None,
        },
    };
    match end {
        Some(e) => {
            assert(nodes_of(Seq::<Pair>::empty()) =~= Seq::<Node>::empty());
            Some(pair_of(rule, pos, e, Vec::new()))
        },
        None => None,
    }
}

/// Matches `("," integer)*` and puts the integers at the end of `out`.
fn more_integers(
    src: &Vec<char>,
    at0: usize,
    end0: usize,
    out: &mut Vec<Pair>,
    reach: &mut Reached,
) -> (end: usize)
    requires
        end0 <= at0 <= src.len(),
    ensures
        final(reach)@ == old(reach)@.join(m_more_integers(src@, at0 as int, end0 as int).reach),
        end == m_more_integers(src@, at0 as int, end0 as int).end,
        nodes_of(final(out)@) == nodes_of(old(out)@) + m_more_integers(
            src@,
            at0 as int,
            end0 as int,
        ).nodes,
        end0 <= end <= src.len(),
{
    let ghost total = m_more_integers(src@, at0 as int, end0 as int);
    let ghost mut taken: Seq<Node> = Seq::empty();
    let mut at: usize = at0;
    let mut end: usize = end0;
    assert(nodes_of(out@) =~= nodes_of(old(out)@) + taken);
    assert(total.nodes =~= taken + total.nodes);
    loop
        invariant
            end0 <= end <= at <= src.len(),
            total == m_more_integers(src@, at0 as int, end0 as int),
            total.end == m_more_integers(src@, at as int, end as int).end,
            old(reach)@.join(total.reach) == reach@.join(
                m_more_integers(src@, at as int, end as int).reach,
            ),
            total.nodes == taken + m_more_integers(src@, at as int, end as int).nodes,
            nodes_of(out@) == nodes_of(old(out)@) + taken,
        decreases src.len() - at,
    {
        let ghost start = reach@;
        let ghost comma = sought(at as int, Text::Comma);
        if !token(src, at, Text::Comma, reach) {
            return end;
        }
        let p = skip_gap(src, at + 1);
        let ghost digits = m_leaf(src@, p as int, Rule::integer).reach;
        proof {
            lemma_join_grouping(start, comma, digits);
        }
        match leaf(src, p, Rule::integer, reach) {
            None => {
                return end;
            },
            Some(found) => {
                let next = skip_gap(src, found.end);
                proof {
                    let rest = m_more_integers(src@, next as int, found.end as int);
                    lemma_join_grouping(start, comma.join(digits), rest.reach);
                    let before = taken;
                    taken = taken.push(found@);
                    assert(before + (seq![found@] + rest.nodes) =~= taken + rest.nodes);
                    assert(nodes_of(out@.push(found)) =~= nodes_of(out@).push(found@));
                    assert(nodes_of(old(out)@) + before.push(found@) =~= (nodes_of(old(out)@)
                        + before).push(found@));
                }
                end = found.end;
                out.push(found);
                at = next;
            },
        }
    }
}

/// Matches `(integer ("," integer)*)?` and puts the integers at the end of
/// `out`.
fn integers(src: &Vec<char>, at: usize, out: &mut Vec<Pair>, reach: &mut Reached) -> (end: usize)
    requires
        at <= src.len(),
    ensures
        final(reach)@ == old(reach)@.join(m_integers(src@, at as int).reach),
        end == m_integers(src@, at as int).end,
        nodes_of(final(out)@) == nodes_of(old(out)@) + m_integers(src@, at as int).nodes,
        at <= end <= src.len(),
{
    broadcast use lemma_join_grouping;

    match leaf(src, at, Rule::integer, reach) {
        None => {
            assert(nodes_of(out@) + Seq::<Node>::empty() =~= nodes_of(out@));
            at
        },
        Some(found) => {
            let next = skip_gap(src, found.end);
            let ghost head = found@;
            let ghost before = nodes_of(out@);
            out.push(found);
            assert(nodes_of(out@) =~= before.push(head));
            let end = more_integers(src, next, next, out, reach);
            proof {
                let tail = m_more_integers(src@, next as int, next as int);
                assert(before.push(head) + tail.nodes =~= before + (seq![head] + tail.nodes));
            }
            end
        },
    }
}

/// Looks for a set literal at `pos`.
fn set_literal(src: &Vec<char>, pos: usize, reach: &mut Reached) -> (r: Option<Pair>)
    requires
        pos <= src.len(),
    ensures
        agrees(r, *old(reach), *final(reach), m_set_literal(src@, pos as int)),
        within(r, pos, src.len()),
{
    broadcast use lemma_join_grouping;

    if !token(src, pos, Text::OpenBrace, reach) {
        return None;
    }
    let mut inner: Vec<Pair> = Vec::new();
    let start = skip_gap(src, pos + 1);
    let end = integers(src, start, &mut inner, reach);
    let close = skip_gap(src, end);
    assert(nodes_of(Seq::<Pair>::empty()) + m_integers(src@, start as int).nodes =~= m_integers(
        src@,
        start as int,
    ).nodes);
    if token(src, close, Text::CloseBrace, reach) {
        Some(pair_of(Rule::set_literal, pos, close + 1, inner))
    } else {
        None
    }
}

/// Looks for a range at `pos`.
fn range(src: &Vec<char>, pos: usize, reach: &mut Reached) -> (r: Option<Pair>)
    requires
        pos <= src.len(),
    ensures
        agrees(r, *old(reach), *final(reach), m_range(src@, pos as int)),
        within(r, pos, src.len()),
{
    broadcast use lemma_join_grouping;

    if !token(src, pos, Text::OpenBrace, reach) {
        return None;
    }
    let p1 = skip_gap(src, pos + 1);
    let a = match leaf(src, p1, Rule::integer, reach) {
        None => {
            return None;
        },
        Some(a) => a,
    };
    let p2 = skip_gap(src, a.end);
    if !token(src, p2, Text::Dots, reach) {
        return None;
    }
    let p3 = skip_gap(src, p2 + 2);
    let b = match leaf(src, p3, Rule::integer, reach) {
        None => {
            return None;
        },
        Some(b) => b,
    };
    let p4 = skip_gap(src, b.end);
    if token(src, p4, Text::CloseBrace, reach) {
        let ghost first = a@;
        let ghost second = b@;
        let mut inner: Vec<Pair> = Vec::new();
        inner.push(a);
        inner.push(b);
        assert(nodes_of(inner@) =~= seq![first, second]);
        Some(pair_of(Rule::range, pos, p4 + 1, inner))
    } else {
        None
    }
}

/// Looks for a set at `pos`: a name, the empty-set sign, a set literal or a
/// range, whichever matches first.
fn set(src: &Vec<char>, pos: usize, reach: &mut Reached) -> (r: Option<Pair>)
    requires
        pos <= src.len(),
    ensures
        agrees(r, *old(reach), *final(reach), m_set(src@, pos as int)),
        within(r, pos, src.len()),
{
    broadcast use lemma_join_grouping;

    if let Some(found) = leaf(src, pos, Rule::ident, reach) {
        return Some(wrapped(Rule::set, found));
    }
    if let Some(found) = leaf(src, pos, Rule::empty, reach) {
        return Some(wrapped(Rule::set, found));
    }
    if let Some(found) = set_literal(src, pos, reach) {
        return Some(wrapped(Rule::set, found));
    }
    match range(src, pos, reach) {
        Some(found) => Some(wrapped(Rule::set, found)),
        None => None,
    }
}

/// Matches `complement*` and puts the marks at the end of `out`.
fn marks(src: &Vec<char>, at0: usize, end0: usize, out: &mut Vec<Pair>, reach: &mut Reached) -> (end:
    usize)
    requires
        end0 <= at0 <= src.len(),
    ensures
        final(reach)@ == old(reach)@.join(m_marks(src@, at0 as int, end0 as int).reach),
        end == m_marks(src@, at0 as int, end0 as int).end,
        nodes_of(final(out)@) == nodes_of(old(out)@) + m_marks(src@, at0 as int, end0 as int).nodes,
        end0 <= end <= src.len(),
{
    let ghost total = m_marks(src@, at0 as int, end0 as int);
    let ghost mut taken: Seq<Node> = Seq::empty();
    let mut at: usize = at0;
    let mut end: usize = end0;
    assert(nodes_of(out@) =~= nodes_of(old(out)@) + taken);
    assert(total.nodes =~= taken + total.nodes);
    loop
        invariant
            end0 <= end <= at <= src.len(),
            total == m_marks(src@, at0 as int, end0 as int),
            total.end == m_marks(src@, at as int, end as int).end,
            old(reach)@.join(total.reach) == reach@.join(
                m_marks(src@, at as int, end as int).reach,
            ),
            total.nodes == taken + m_marks(src@, at as int, end as int).nodes,
            nodes_of(out@) == nodes_of(old(out)@) + taken,
        decreases src.len() - at,
    {
        let ghost start = reach@;
        let ghost mark = m_leaf(src@, at as int, Rule::complement).reach;
        match leaf(src, at, Rule::complement, reach) {
            None => {
                return end;
            },
            Some(found) => {
                let next = skip_gap(src, found.end);
                proof {
                    let rest = m_marks(src@, next as int, found.end as int);
                    lemma_join_grouping(start, mark, rest.reach);
                    let before = taken;
                    taken = taken.push(found@);
                    assert(before + (seq![found@] + rest.nodes) =~= taken + rest.nodes);
                    assert(nodes_of(out@.push(found)) =~= nodes_of(out@).push(found@));
                    assert(nodes_of(old(out)@) + before.push(found@) =~= (nodes_of(old(out)@)
                        + before).push(found@));
                }
                end = found.end;
                out.push(found);
                at = next;
            },
        }
    }
}

/// Looks for one of the two operators of `level` at `at`.
fn sign_at(src: &Vec<char>, at: usize, level: Rule, reach: &mut Reached) -> (r: Option<Pair>)
    requires
        at <= src.len(),
    ensures
        agrees(r, *old(reach), *final(reach), m_sign(src@, at as int, level)),
        within(r, at, src.len()),
{
    broadcast use lemma_join_grouping;

    let first = if level == Rule::add {
        Rule::union
    } else {
        Rule::intersection
    };
    let second = if level == Rule::add {
        Rule::symmetric_difference
    } else {
        Rule::difference
    };
    match leaf(src, at, first, reach) {
        Some(found) => Some(found),
        None => leaf(src, at, second, reach),
    }
}

/// Looks for an expression at `pos`.
fn expr(src: &Vec<char>, pos: usize, reach: &mut Reached) -> (r: Option<Pair>)
    requires
        pos <= src.len(),
    ensures
        agrees(r, *old(reach), *final(reach), m_expr(src@, pos as int)),
        within(r, pos, src.len()),
    decreases src.len() - pos, 5nat,
{
    match chain(src, pos, Rule::add, reach) {
        Some(found) => Some(wrapped(Rule::expr, found)),
        None => None,
    }
}

/// Looks for a chain of `level` at `pos`: an operand, then operators with
/// an operand each.
fn chain(src: &Vec<char>, pos: usize, level: Rule, reach: &mut Reached) -> (r: Option<Pair>)
    requires
        pos <= src.len(),
    ensures
        agrees(r, *old(reach), *final(reach), m_chain(src@, pos as int, level)),
        within(r, pos, src.len()),
    decreases src.len() - pos,
        (if level == Rule::add {
            4nat
        } else {
            3nat
        }),
{
    broadcast use lemma_join_grouping;

    let head = if level == Rule::add {
        chain(src, pos, Rule::mul, reach)
    } else {
        postfix(src, pos, reach)
    };
    match head {
        None => None,
        Some(found) => {
            let next = skip_gap(src, found.end);
            let ghost first = found@;
            let mut inner: Vec<Pair> = Vec::new();
            inner.push(found);
            assert(nodes_of(inner@) =~= seq![first]);
            let end = chain_tail(src, next, next, level, &mut inner, reach);
            Some(pair_of(level, pos, end, inner))
        },
    }
}

/// Matches the operators of `level` with their operands, and puts both at
/// the end of `out`.
fn chain_tail(
    src: &Vec<char>,
    at0: usize,
    end0: usize,
    level: Rule,
    out: &mut Vec<Pair>,
    reach: &mut Reached,
) -> (end: usize)
    requires
        end0 <= at0 <= src.len(),
    ensures
        final(reach)@ == old(reach)@.join(
            m_chain_tail(src@, at0 as int, end0 as int, level).reach,
        ),
        end == m_chain_tail(src@, at0 as int, end0 as int, level).end,
        nodes_of(final(out)@) == nodes_of(old(out)@) + m_chain_tail(
            src@,
            at0 as int,
            end0 as int,
            level,
        ).nodes,
        end0 <= end <= src.len(),
    decreases src.len() - at0, 0nat,
{
    let ghost total = m_chain_tail(src@, at0 as int, end0 as int, level);
    let ghost mut taken: Seq<Node> = Seq::empty();
    let mut at: usize = at0;
    let mut end: usize = end0;
    assert(nodes_of(out@) =~= nodes_of(old(out)@) + taken);
    assert(total.nodes =~= taken + total.nodes);
    loop
        invariant
            end0 <= end <= at <= src.len(),
            at0 <= at,
            total == m_chain_tail(src@, at0 as int, end0 as int, level),
            total.end == m_chain_tail(src@, at as int, end as int, level).end,
            old(reach)@.join(total.reach) == reach@.join(
                m_chain_tail(src@, at as int, end as int, level).reach,
            ),
            total.nodes == taken + m_chain_tail(src@, at as int, end as int, level).nodes,
            nodes_of(out@) == nodes_of(old(out)@) + taken,
        decreases src.len() - at,
    {
        let ghost start = reach@;
        let ghost sign = m_sign(src@, at as int, level).reach;
        let op = match sign_at(src, at, level, reach) {
            None => {
                return end;
            },
            Some(op) => op,
        };
        let p = skip_gap(src, op.end);
        let ghost tried = if level == Rule::add {
            m_chain(src@, p as int, Rule::mul).reach
        } else {
            m_postfix(src@, p as int).reach
        };
        proof {
            lemma_join_grouping(start, sign, tried);
        }
        let operand = if level == Rule::add {
            chain(src, p, Rule::mul, reach)
        } else {
            postfix(src, p, reach)
        };
        match operand {
            None => {
                return end;
            },
            Some(found) => {
                let next = skip_gap(src, found.end);
                proof {
                    let rest = m_chain_tail(src@, next as int, found.end as int, level);
                    lemma_join_grouping(start, sign.join(tried), rest.reach);
                    let before = taken;
                    taken = taken.push(op@).push(found@);
                    assert(before + (seq![op@, found@] + rest.nodes) =~= taken + rest.nodes);
                    assert(nodes_of(out@.push(op).push(found)) =~= nodes_of(out@).push(op@).push(
                        found@,
                    ));
                    assert(nodes_of(old(out)@) + before.push(op@).push(found@) =~= (nodes_of(
                        old(out)@,
                    ) + before).push(op@).push(found@));
                }
                end = found.end;
                out.push(op);
                out.push(found);
                at = next;
            },
        }
    }
}

/// Looks for a primary with its complement marks at `pos`.
fn postfix(src: &Vec<char>, pos: usize, reach: &mut Reached) -> (r: Option<Pair>)
    requires
        pos <= src.len(),
    ensures
        agrees(r, *old(reach), *final(reach), m_postfix(src@, pos as int)),
        within(r, pos, src.len()),
    decreases src.len() - pos, 2nat,
{
    broadcast use lemma_join_grouping;

    match primary(src, pos, reach) {
        None => None,
        Some(found) => {
            let next = skip_gap(src, found.end);
            let ghost first = found@;
            let mut inner: Vec<Pair> = Vec::new();
            inner.push(found);
            assert(nodes_of(inner@) =~= seq![first]);
            let end = marks(src, next, next, &mut inner, reach);
            Some(pair_of(Rule::postfix, pos, end, inner))
        },
    }
}

/// Looks for a set or an expression in parentheses at `pos`.
fn primary(src: &Vec<char>, pos: usize, reach: &mut Reached) -> (r: Option<Pair>)
    requires
        pos <= src.len(),
    ensures
        agrees(r, *old(reach), *final(reach), m_primary(src@, pos as int)),
        within(r, pos, src.len()),
    decreases src.len() - pos, 1nat,
{
    broadcast use lemma_join_grouping;

    if let Some(found) = set(src, pos, reach) {
        return Some(wrapped(Rule::primary, found));
    }
    if !token(src, pos, Text::OpenParen, reach) {
        return None;
    }
    let open = skip_gap(src, pos + 1);
    match expr(src, open, reach) {
        None => None,
        Some(found) => {
            let close = skip_gap(src, found.end);
            if token(src, close, Text::CloseParen, reach) {
                let ghost node = found@;
                let mut inner: Vec<Pair> = Vec::new();
                inner.push(found);
                assert(nodes_of(inner@) =~= seq![node]);
                Some(pair_of(Rule::primary, pos, close + 1, inner))
            } else {
                None
            }
        },
    }
}

/// Looks for a declaration at `pos`.
fn decl(src: &Vec<char>, pos: usize, reach: &mut Reached) -> (r: Option<Pair>)
    requires
        pos <= src.len(),
    ensures
        agrees(r, *old(reach), *final(reach), m_decl(src@, pos as int)),
        within(r, pos, src.len()),
{
    broadcast use lemma_join_grouping;

    if !token(src, pos, Text::Let, reach) {
        return None;
    }
    let p1 = skip_gap(src, pos + 3);
    let name = match leaf(src, p1, Rule::ident, reach) {
        None => {
            return None;
        },
        Some(name) => name,
    };
    let p2 = skip_gap(src, name.end);
    if !token(src, p2, Text::Assign, reach) {
        return None;
    }
    let value = match expr(src, skip_gap(src, p2 + 1), reach) {
        None => {
            return None;
        },
        Some(value) => value,
    };
    let p3 = skip_gap(src, value.end);
    if token(src, p3, Text::Semicolon, reach) {
        let ghost first = name@;
        let ghost second = value@;
        let mut inner: Vec<Pair> = Vec::new();
        inner.push(name);
        inner.push(value);
        assert(nodes_of(inner@) =~= seq![first, second]);
        Some(pair_of(Rule::decl, pos, p3 + 1, inner))
    } else {
        None
    }
}

/// Looks for a print statement at `pos`.
fn print_stmt(src: &Vec<char>, pos: usize, reach: &mut Reached) -> (r: Option<Pair>)
    requires
        pos <= src.len(),
    ensures
        agrees(r, *old(reach), *final(reach), m_print(src@, pos as int)),
        within(r, pos, src.len()),
{
    broadcast use lemma_join_grouping;

    if !token(src, pos, Text::Print, reach) {
        return None;
    }
    let value = match expr(src, skip_gap(src, pos + 5), reach) {
        None => {
            return None;
        },
        Some(value) => value,
    };
    let p = skip_gap(src, value.end);
    if token(src, p, Text::Semicolon, reach) {
        let ghost node = value@;
        let mut inner: Vec<Pair> = Vec::new();
        inner.push(value);
        assert(nodes_of(inner@) =~= seq![node]);
        Some(pair_of(Rule::print_stmt, pos, p + 1, inner))
    } else {
        None
    }
}

/// Looks for a statement at `pos`.
fn stmt(src: &Vec<char>, pos: usize, reach: &mut Reached) -> (r: Option<Pair>)
    requires
        pos <= src.len(),
    ensures
        agrees(r, *old(reach), *final(reach), m_stmt(src@, pos as int)),
        within(r, pos, src.len()),
{
    broadcast use lemma_join_grouping;

    if let Some(found) = decl(src, pos, reach) {
        return Some(wrapped(Rule::stmt, found));
    }
    match print_stmt(src, pos, reach) {
        Some(found) => Some(wrapped(Rule::stmt, found)),
        None => None,
    }
}

/// Matches `stmt*` and puts the statements at the end of `out`.
fn stmts(src: &Vec<char>, at0: usize, end0: usize, out: &mut Vec<Pair>, reach: &mut Reached) -> (end:
    usize)
    requires
        end0 <= at0 <= src.len(),
    ensures
        final(reach)@ == old(reach)@.join(m_stmts(src@, at0 as int, end0 as int).reach),
        end == m_stmts(src@, at0 as int, end0 as int).end,
        nodes_of(final(out)@) == nodes_of(old(out)@) + m_stmts(src@, at0 as int, end0 as int).nodes,
        end0 <= end <= src.len(),
{
    let ghost total = m_stmts(src@, at0 as int, end0 as int);
    let ghost mut taken: Seq<Node> = Seq::empty();
    let mut at: usize = at0;
    let mut end: usize = end0;
    assert(nodes_of(out@) =~= nodes_of(old(out)@) + taken);
    assert(total.nodes =~= taken + total.nodes);
    loop
        invariant
            end0 <= end <= at <= src.len(),
            total == m_stmts(src@, at0 as int, end0 as int),
            total.end == m_stmts(src@, at as int, end as int).end,
            old(reach)@.join(total.reach) == reach@.join(
                m_stmts(src@, at as int, end as int).reach,
            ),
            total.nodes == taken + m_stmts(src@, at as int, end as int).nodes,
            nodes_of(out@) == nodes_of(old(out)@) + taken,
        decreases src.len() - at,
    {
        let ghost start = reach@;
        let ghost tried = m_stmt(src@, at as int).reach;
        match stmt(src, at, reach) {
            None => {
                return end;
            },
            Some(found) => {
                let next = skip_gap(src, found.end);
                proof {
                    let rest = m_stmts(src@, next as int, found.end as int);
                    lemma_join_grouping(start, tried, rest.reach);
                    let before = taken;
                    taken = taken.push(found@);
                    assert(before + (seq![found@] + rest.nodes) =~= taken + rest.nodes);
                    assert(nodes_of(out@.push(found)) =~= nodes_of(out@).push(found@));
                    assert(nodes_of(old(out)@) + before.push(found@) =~= (nodes_of(old(out)@)
                        + before).push(found@));
                }
                end = found.end;
                out.push(found);
                at = next;
            },
        }
    }
}

/// Looks for a whole program at `pos`, which must be the start of `src`.
fn program(src: &Vec<char>, pos: usize, reach: &mut Reached) -> (r: Option<Pair>)
    requires
        pos <= src.len(),
    ensures
        agrees(r, *old(reach), *final(reach), m_program(src@, pos as int)),
{
    broadcast use lemma_join_grouping;

    if pos != 0 {
        note(reach, pos, Expected::Rule(Rule::program));
        return None;
    }
    let first = skip_gap(src, 0);
    let mut inner: Vec<Pair> = Vec::new();
    let end = stmts(src, first, first, &mut inner, reach);
    assert(nodes_of(Seq::<Pair>::empty()) + m_stmts(src@, first as int, first as int).nodes
        =~= m_stmts(src@, first as int, first as int).nodes);
    let last = skip_gap(src, end);
    match leaf(src, last, Rule::EOI, reach) {
        Some(eoi) => {
            assert(nodes_of(inner@.push(eoi)) =~= nodes_of(inner@).push(eoi@));
            let stop = eoi.end;
            inner.push(eoi);
            Some(pair_of(Rule::program, 0, stop, inner))
        },
        None => None,
    }
}

/// Looks for a match of `rule` at `pos`.
fn rule_at(src: &Vec<char>, pos: usize, rule: Rule, reach: &mut Reached) -> (r: Option<Pair>)
    requires
        pos <= src.len(),
    ensures
        agrees(r, *old(reach), *final(reach), m_rule(src@, pos as int, rule)),
{
    match rule {
        Rule::program => program(src, pos, reach),
        Rule::stmt => stmt(src, pos, reach),
        Rule::decl => decl(src, pos, reach),
        Rule::print_stmt => print_stmt(src, pos, reach),
        Rule::expr => expr(src, pos, reach),
        Rule::add => chain(src, pos, Rule::add, reach),
        Rule::mul => chain(src, pos, Rule::mul, reach),
        Rule::postfix => postfix(src, pos, reach),
        Rule::primary => primary(src, pos, reach),
        Rule::set => set(src, pos, reach),
        Rule::set_literal => set_literal(src, pos, reach),
        Rule::range => range(src, pos, reach),
        Rule::WHITESPACE | Rule::COMMENT => {
            note(reach, pos, Expected::Rule(rule));
            None
        },
        _ => leaf(src, pos, rule, reach),
    }
}

/// The characters of `text`, one by one.
pub fn to_chars(text: &str) -> (chars: Vec<char>)
    ensures
        chars@ == text@,
{
    let mut chars: Vec<char> = Vec::new();
    for c in it: text.chars()
        invariant
            it.seq() == text@,
            chars@ == text@.take(it.index()),
    {
        chars.push(c);
    }
    assert(text@.take(text@.len() as int) =~= text@);
    chars
}

/// `items` with each value once, where it first stands.
fn distinct_of(items: &Vec<Expected>) -> (r: Vec<Expected>)
    ensures
        r@ == distinct(items@),
{
    let mut r: Vec<Expected> = Vec::new();
    let mut i: usize = 0;
    assert(items@.take(0) =~= Seq::<Expected>::empty());
    while i < items.len()
        invariant
            i <= items.len(),
            r@ == distinct(items@.take(i as int)),
        decreases items.len() - i,
    {
        let x = items[i];
        let mut seen = false;
        let mut j: usize = 0;
        while j < r.len()
            invariant
                j <= r.len(),
                seen == exists|k: int| 0 <= k < j && r@[k] == x,
            decreases r.len() - j,
        {
            if r[j] == x {
                seen = true;
            }
            j = j + 1;
        }
        proof {
            assert(items@.take(i + 1).drop_last() =~= items@.take(i as int));
            assert(items@.take(i + 1).last() == x);
            assert(seen == r@.contains(x));
        }
        if !seen {
            r.push(x);
        }
        i = i + 1;
    }
    assert(items@.take(items@.len() as int) =~= items@);
    r
}

/// Why a text does not follow the grammar. Positions count characters.
#[derive(Clone, Debug, PartialEq, Eq)]
pub struct SyntaxError {
    /// The furthest position at which a token was looked for; none of
    /// `expected` stands there.
    pub pos: usize,
    /// What was looked for there, each once, in the order in which it was.
    pub expected: Vec<Expected>,
    /// The character that stands there; none at the end of the text.
    pub found: Option<char>,
}

impl View for SyntaxError {
    type V = Failure;

    open spec fn view(&self) -> Failure {
        Failure { pos: self.pos as int, expected: self.expected@, found: self.found }
    }
}

/// `r` is the executable form of `expected`.
pub open spec fn is_parse(
    r: Result<Vec<Pair>, SyntaxError>,
    expected: Result<Seq<Node>, Failure>,
) -> bool {
    match (r, expected) {
        (Ok(pairs), Ok(nodes)) => nodes_of(pairs@) == nodes,
        (Err(e), Err(f)) => e@ == f,
        _ => false,
    }
}

/// The parser of the set language.
pub struct SetLang;

impl SetLang {
    /// Parses the start of `input` by `rule`.
    pub fn parse(rule: Rule, input: &str) -> (r: Result<Vec<Pair>, SyntaxError>)
        ensures
            is_parse(r, parse_result(rule, input@)),
    {
        let src = to_chars(input);
        SetLang::parse_chars(rule, &src)
    }

    /// Parses the start of `src` by `rule`.
    pub fn parse_chars(rule: Rule, src: &Vec<char>) -> (r: Result<Vec<Pair>, SyntaxError>)
        ensures
            is_parse(r, parse_result(rule, src@)),
    {
        let mut pairs: Vec<Pair> = Vec::new();
        let skipped = match rule {
            Rule::WHITESPACE => src.len() > 0 && CharClass::Blank.has(src[0]),
            Rule::COMMENT => {
                let two = ['/', '/'];
                assert(two@ =~= slashes());
                at_text(src, 0, &two)
            },
            _ => false,
        };
        if skipped {
            assert(nodes_of(pairs@) =~= Seq::<Node>::empty());
            return Ok(pairs);
        }
        let mut reach = Reached { far: 0, wanted: Vec::new() };
        assert(reach@ == (Reach { far: 0, wanted: Seq::empty() }));
        let found = rule_at(src, 0, rule, &mut reach);
        proof {
            lemma_rule_reach(rule, src@);
            lemma_join_start(m_rule(src@, 0, rule).reach);
        }
        match found {
            Some(p) => {
                let ghost node = p@;
                pairs.push(p);
                assert(nodes_of(pairs@) =~= seq![node]);
                Ok(pairs)
            },
            None => {
                let found = if reach.far < src.len() {
                    Some(src[reach.far])
                } else {
                    None
                };
                Err(SyntaxError { pos: reach.far, expected: distinct_of(&reach.wanted), found })
            },
        }
    }
}

} // verus!
