//! The grammar of the set language, as spec functions.
//!
//! The grammar is a parsing expression grammar: a choice takes the first
//! alternative that matches, a repetition takes as many elements as it can,
//! and neither is reconsidered afterwards. Blanks and comments may stand
//! between the parts of every rule but `ident` and `integer`.
//!
//! ```text
//! program     = start-of-input stmt* end-of-input
//! stmt        = decl | print_stmt
//! decl        = "let" ident "=" expr ";"
//! print_stmt  = "print" expr ";"
//! expr        = add
//! add         = mul ((union | symmetric_difference) mul)*
//! mul         = postfix ((intersection | difference) postfix)*
//! postfix     = primary complement*
//! primary     = set | "(" expr ")"
//! set         = ident | empty | set_literal | range
//! set_literal = "{" (integer ("," integer)*)? "}"
//! range       = "{" integer ".." integer "}"
//! ```
//!
//! Each rule is a function from the source and a position to an [`Attempt`]:
//! the node that the rule matches there, if it matches, and the [`Reach`] of
//! the attempt: the furthest position at which it looked for a token, and
//! the tokens that it looked for there. When a parse fails, none of those
//! tokens stands at that position, as `report::law_syntax_error_is_true`
//! shows: the reach says where the text went wrong and what could have stood
//! there.

use crate::tree::{Node, Rule};
use vstd::prelude::*;

verus! {

/// The kinds of character that the grammar tells apart.
#[derive(Clone, Copy, Debug, PartialEq, Eq, Structural)]
pub enum CharClass {
    /// Space, tab, carriage return, line feed.
    Blank,
    /// The ASCII letters.
    Letter,
    /// The ASCII digits.
    Digit,
    /// Everything but the line feed.
    InLine,
}

impl CharClass {
    /// `c` is of this class.
    pub open spec fn holds(self, c: char) -> bool {
        match self {
            CharClass::Blank => c == ' ' || c == '\t' || c == '\r' || c == '\n',
            CharClass::Letter => ('a' <= c && c <= 'z') || ('A' <= c && c <= 'Z'),
            CharClass::Digit => '0' <= c && c <= '9',
            CharClass::InLine => c != '\n',
        }
    }
}

/// The fixed texts of the grammar.
#[derive(Clone, Copy, Debug, PartialEq, Eq, PartialOrd, Ord, Hash, Structural)]
pub enum Text {
    /// `let`
    Let,
    /// `print`
    Print,
    /// `=`
    Assign,
    /// `;`
    Semicolon,
    /// `{`
    OpenBrace,
    /// `}`
    CloseBrace,
    /// `,`
    Comma,
    /// `..`
    Dots,
    /// `(`
    OpenParen,
    /// `)`
    CloseParen,
}

impl Text {
    /// The characters of the text.
    pub open spec fn chars(self) -> Seq<char> {
        match self {
            Text::Let => seq!['l', 'e', 't'],
            Text::Print => seq!['p', 'r', 'i', 'n', 't'],
            Text::Assign => seq!['='],
            Text::Semicolon => seq![';'],
            Text::OpenBrace => seq!['{'],
            Text::CloseBrace => seq!['}'],
            Text::Comma => seq![','],
            Text::Dots => seq!['.', '.'],
            Text::OpenParen => seq!['('],
            Text::CloseParen => seq![')'],
        }
    }
}

/// What the parser looks for at a position: a fixed text, or a match of a
/// rule without inner rules.
#[derive(Clone, Copy, Debug, PartialEq, Eq, PartialOrd, Ord, Hash, Structural)]
pub enum Expected {
    Text(Text),
    Rule(Rule),
}

/// How far an attempt got: the furthest position at which it looked for a
/// token, and what it looked for there, in the order in which it did.
pub struct Reach {
    pub far: int,
    pub wanted: Seq<Expected>,
}

/// The reach of looking for `what` at `pos`.
pub open spec fn looked(pos: int, what: Expected) -> Reach {
    Reach { far: pos, wanted: seq![what] }
}

/// The reach of looking for the text `text` at `pos`.
pub open spec fn sought(pos: int, text: Text) -> Reach {
    looked(pos, Expected::Text(text))
}

impl Reach {
    /// The reach of this attempt and of `later` together: that of the one
    /// that got further, and of both where they got equally far.
    #[verifier::opaque]
    pub open spec fn join(self, later: Reach) -> Reach {
        if self.far > later.far {
            self
        } else if self.far < later.far {
            later
        } else {
            Reach { far: self.far, wanted: self.wanted + later.wanted }
        }
    }
}

/// Joining reaches does not depend on how they are grouped.
pub broadcast proof fn lemma_join_grouping(a: Reach, b: Reach, c: Reach)
    ensures
        #[trigger] a.join(b).join(c) == a.join(b.join(c)),
{
    reveal(Reach::join);
    assert((a.wanted + b.wanted) + c.wanted =~= a.wanted + (b.wanted + c.wanted));
}

/// Two attempts together got as far as the one of them that got further.
pub broadcast proof fn lemma_join_far(a: Reach, b: Reach)
    ensures
        (#[trigger] a.join(b)).far == if a.far >= b.far {
            a.far
        } else {
            b.far
        },
{
    reveal(Reach::join);
}

/// Nothing looked for yet, at the start of a text, adds nothing to a reach.
pub proof fn lemma_join_start(a: Reach)
    requires
        a.far >= 0,
    ensures
        (Reach { far: 0, wanted: Seq::empty() }).join(a) == a,
{
    reveal(Reach::join);
    assert(Seq::<Expected>::empty() + a.wanted =~= a.wanted);
}

/// `to` lies after `from`, and not after the end of `s`.
pub open spec fn advances(s: Seq<char>, from: int, to: int) -> bool {
    from < to <= s.len()
}

/// `text` stands in `s` at `pos`.
pub open spec fn lit(s: Seq<char>, pos: int, text: Seq<char>) -> bool {
    &&& 0 <= pos
    &&& pos + text.len() <= s.len()
    &&& forall|i: int| 0 <= i < text.len() ==> s[pos + i] == text[i]
}

/// The end of the longest run of characters of `class` that starts at `pos`.
pub open spec fn run_end(s: Seq<char>, pos: int, class: CharClass) -> int
    decreases s.len() - pos,
{
    if 0 <= pos < s.len() && class.holds(s[pos]) {
        run_end(s, pos + 1, class)
    } else {
        pos
    }
}

/// What opens a comment.
pub open spec fn slashes() -> Seq<char> {
    seq!['/', '/']
}

/// The first position at or after `pos` that holds neither a blank nor a
/// part of a comment. A comment runs from `//` to the end of its line.
pub open spec fn skip(s: Seq<char>, pos: int) -> int
    decreases s.len() - pos,
{
    let p = run_end(s, pos, CharClass::Blank);
    if lit(s, p, slashes()) {
        let q = run_end(s, p + 2, CharClass::InLine);
        if advances(s, pos, q) {
            skip(s, q)
        } else {
            p
        }
    } else {
        p
    }
}

/// What one attempt to match a rule at a position comes to.
pub struct Attempt {
    /// How far the attempt got.
    pub reach: Reach,
    /// The match, if the rule matches.
    pub node: Option<Node>,
}

/// What a repetition comes to: it always matches, possibly nothing.
pub struct Items {
    /// How far the repetition got.
    pub reach: Reach,
    /// Where the last element ends.
    pub end: int,
    /// The matches of the elements, in order.
    pub nodes: Seq<Node>,
}

/// A match of `rule` from `start` to `end`.
pub open spec fn hit(reach: Reach, rule: Rule, start: int, end: int, inner: Seq<Node>) -> Attempt {
    Attempt { reach, node: Some(Node { rule, start, end, inner }) }
}

/// No match.
pub open spec fn miss(reach: Reach) -> Attempt {
    Attempt { reach, node: None }
}

/// A match of `rule` that consists of the one match `found`.
pub open spec fn wrap(reach: Reach, rule: Rule, found: Node) -> Attempt {
    hit(reach, rule, found.start, found.end, seq![found])
}

/// A repetition that stops at once.
pub open spec fn none(reach: Reach, end: int) -> Items {
    Items { reach, end, nodes: Seq::empty() }
}

/// The character that a one-character rule stands for.
pub open spec fn sign_of(rule: Rule) -> Option<char> {
    match rule {
        Rule::empty => Some('\u{2205}'),
        Rule::complement => Some('\''),
        Rule::union => Some('\u{222A}'),
        Rule::intersection => Some('\u{2229}'),
        Rule::difference => Some('\\'),
        Rule::symmetric_difference => Some('\u{25B3}'),
        _ => None,
    }
}

/// Where a match at `pos` of a rule without inner rules ends.
pub open spec fn leaf_end(s: Seq<char>, pos: int, rule: Rule) -> Option<int> {
    match rule {
        Rule::ident => {
            let end = run_end(s, pos, CharClass::Letter);
            if end > pos {
                Some(end)
            } else {
                None
            }
        },
        Rule::integer => {
            let end = run_end(s, pos, CharClass::Digit);
            if end > pos {
                Some(end)
            } else {
                None
            }
        },
        Rule::EOI => if pos == s.len() {
            Some(pos)
        } else {
            None
        },
        _ => match sign_of(rule) {
            Some(c) => if lit(s, pos, seq![c]) {
                Some(pos + 1)
            } else {
                None
            },
            None => None,
        },
    }
}

/// A rule without inner rules: a name, an integer, a sign, the end of input.
pub open spec fn m_leaf(s: Seq<char>, pos: int, rule: Rule) -> Attempt {
    let reach = looked(pos, Expected::Rule(rule));
    match leaf_end(s, pos, rule) {
        Some(end) => hit(reach, rule, pos, end, Seq::empty()),
        None => miss(reach),
    }
}

/// `("," integer)*`. The next comma is looked for at `at`; `end` is where the
/// repetition ends if there is none.
pub open spec fn m_more_integers(s: Seq<char>, at: int, end: int) -> Items
    decreases s.len() - at,
{
    let comma = sought(at, Text::Comma);
    if !lit(s, at, Text::Comma.chars()) {
        none(comma, end)
    } else {
        let a = m_leaf(s, skip(s, at + 1), Rule::integer);
        let reach = comma.join(a.reach);
        if a.node is Some && advances(s, at, skip(s, a.node->0.end)) {
            let n = a.node->0;
            let rest = m_more_integers(s, skip(s, n.end), n.end);
            Items { reach: reach.join(rest.reach), end: rest.end, nodes: seq![n] + rest.nodes }
        } else {
            none(reach, end)
        }
    }
}

/// `(integer ("," integer)*)?`, looked for at `at`.
pub open spec fn m_integers(s: Seq<char>, at: int) -> Items {
    let first = m_leaf(s, at, Rule::integer);
    match first.node {
        None => none(first.reach, at),
        Some(n) => {
            let next = skip(s, n.end);
            let rest = m_more_integers(s, next, next);
            Items {
                reach: first.reach.join(rest.reach),
                end: rest.end,
                nodes: seq![n] + rest.nodes,
            }
        },
    }
}

/// `set_literal = "{" (integer ("," integer)*)? "}"`
pub open spec fn m_set_literal(s: Seq<char>, pos: int) -> Attempt {
    let open = sought(pos, Text::OpenBrace);
    if !lit(s, pos, Text::OpenBrace.chars()) {
        miss(open)
    } else {
        let body = m_integers(s, skip(s, pos + 1));
        let close = skip(s, body.end);
        let reach = open.join(body.reach).join(sought(close, Text::CloseBrace));
        if lit(s, close, Text::CloseBrace.chars()) {
            hit(reach, Rule::set_literal, pos, close + 1, body.nodes)
        } else {
            miss(reach)
        }
    }
}

/// `range = "{" integer ".." integer "}"`
pub open spec fn m_range(s: Seq<char>, pos: int) -> Attempt {
    let open = sought(pos, Text::OpenBrace);
    if !lit(s, pos, Text::OpenBrace.chars()) {
        miss(open)
    } else {
        let low = m_leaf(s, skip(s, pos + 1), Rule::integer);
        let r1 = open.join(low.reach);
        match low.node {
            None => miss(r1),
            Some(a) => {
                let p2 = skip(s, a.end);
                let r2 = r1.join(sought(p2, Text::Dots));
                if !lit(s, p2, Text::Dots.chars()) {
                    miss(r2)
                } else {
                    let high = m_leaf(s, skip(s, p2 + 2), Rule::integer);
                    let r3 = r2.join(high.reach);
                    match high.node {
                        None => miss(r3),
                        Some(b) => {
                            let p4 = skip(s, b.end);
                            let r4 = r3.join(sought(p4, Text::CloseBrace));
                            if lit(s, p4, Text::CloseBrace.chars()) {
                                hit(r4, Rule::range, pos, p4 + 1, seq![a, b])
                            } else {
                                miss(r4)
                            }
                        },
                    }
                }
            },
        }
    }
}

/// `set = ident | empty | set_literal | range`
pub open spec fn m_set(s: Seq<char>, pos: int) -> Attempt {
    let name = m_leaf(s, pos, Rule::ident);
    let sign = m_leaf(s, pos, Rule::empty);
    let literal = m_set_literal(s, pos);
    let range = m_range(s, pos);
    let r1 = name.reach;
    let r2 = r1.join(sign.reach);
    let r3 = r2.join(literal.reach);
    let r4 = r3.join(range.reach);
    if name.node is Some {
        wrap(r1, Rule::set, name.node->0)
    } else if sign.node is Some {
        wrap(r2, Rule::set, sign.node->0)
    } else if literal.node is Some {
        wrap(r3, Rule::set, literal.node->0)
    } else if range.node is Some {
        wrap(r4, Rule::set, range.node->0)
    } else {
        miss(r4)
    }
}

/// The rule of the operands of `level`, which is `add` or `mul`.
pub open spec fn operand_of(level: Rule) -> Rule {
    if level == Rule::add {
        Rule::mul
    } else {
        Rule::postfix
    }
}

/// The operator that `level` tries first.
pub open spec fn first_sign(level: Rule) -> Rule {
    if level == Rule::add {
        Rule::union
    } else {
        Rule::intersection
    }
}

/// The operator that `level` tries second.
pub open spec fn second_sign(level: Rule) -> Rule {
    if level == Rule::add {
        Rule::symmetric_difference
    } else {
        Rule::difference
    }
}

/// The operator of `level` that stands at `at`, if one does.
pub open spec fn m_sign(s: Seq<char>, at: int, level: Rule) -> Attempt {
    let first = m_leaf(s, at, first_sign(level));
    let second = m_leaf(s, at, second_sign(level));
    if first.node is Some {
        first
    } else {
        Attempt { reach: first.reach.join(second.reach), node: second.node }
    }
}

/// `complement*`. The next mark is looked for at `at`; `end` is where the
/// repetition ends if there is none.
pub open spec fn m_marks(s: Seq<char>, at: int, end: int) -> Items
    decreases s.len() - at,
{
    let a = m_leaf(s, at, Rule::complement);
    if a.node is Some && advances(s, at, skip(s, a.node->0.end)) {
        let n = a.node->0;
        let rest = m_marks(s, skip(s, n.end), n.end);
        Items { reach: a.reach.join(rest.reach), end: rest.end, nodes: seq![n] + rest.nodes }
    } else {
        none(a.reach, end)
    }
}

/// `expr = add`
pub open spec fn m_expr(s: Seq<char>, pos: int) -> Attempt
    decreases s.len() - pos, 5nat,
{
    let a = m_chain(s, pos, Rule::add);
    match a.node {
        Some(n) => wrap(a.reach, Rule::expr, n),
        None => miss(a.reach),
    }
}

/// `add = mul ((union | symmetric_difference) mul)*` where `level` is `add`,
/// `mul = postfix ((intersection | difference) postfix)*` where it is `mul`.
pub open spec fn m_chain(s: Seq<char>, pos: int, level: Rule) -> Attempt
    decreases s.len() - pos, (if level == Rule::add { 4nat } else { 3nat }),
{
    let head = if level == Rule::add {
        m_chain(s, pos, Rule::mul)
    } else {
        m_postfix(s, pos)
    };
    if head.node is Some && advances(s, pos, skip(s, head.node->0.end)) {
        let n = head.node->0;
        let next = skip(s, n.end);
        let rest = m_chain_tail(s, next, next, level);
        hit(head.reach.join(rest.reach), level, pos, rest.end, seq![n] + rest.nodes)
    } else {
        miss(head.reach)
    }
}

/// The repetition of a chain: operators of `level`, each followed by an
/// operand. The next operator is looked for at `at`; `end` is where the
/// repetition ends if there is none, or if no operand follows it.
pub open spec fn m_chain_tail(s: Seq<char>, at: int, end: int, level: Rule) -> Items
    decreases s.len() - at, 0nat,
{
    let sign = m_sign(s, at, level);
    if sign.node is Some && advances(s, at, skip(s, sign.node->0.end)) {
        let p = skip(s, sign.node->0.end);
        let operand = if level == Rule::add {
            m_chain(s, p, Rule::mul)
        } else {
            m_postfix(s, p)
        };
        let reach = sign.reach.join(operand.reach);
        if operand.node is Some && advances(s, at, skip(s, operand.node->0.end)) {
            let n = operand.node->0;
            let rest = m_chain_tail(s, skip(s, n.end), n.end, level);
            Items {
                reach: reach.join(rest.reach),
                end: rest.end,
                nodes: seq![sign.node->0, n] + rest.nodes,
            }
        } else {
            none(reach, end)
        }
    } else {
        none(sign.reach, end)
    }
}

/// `postfix = primary complement*`
pub open spec fn m_postfix(s: Seq<char>, pos: int) -> Attempt
    decreases s.len() - pos, 2nat,
{
    let a = m_primary(s, pos);
    match a.node {
        None => miss(a.reach),
        Some(n) => {
            let next = skip(s, n.end);
            let marks = m_marks(s, next, next);
            hit(a.reach.join(marks.reach), Rule::postfix, pos, marks.end, seq![n] + marks.nodes)
        },
    }
}

/// `primary = set | "(" expr ")"`
pub open spec fn m_primary(s: Seq<char>, pos: int) -> Attempt
    decreases s.len() - pos, 1nat,
{
    let a = m_set(s, pos);
    let r1 = a.reach.join(sought(pos, Text::OpenParen));
    if a.node is Some {
        wrap(a.reach, Rule::primary, a.node->0)
    } else if lit(s, pos, Text::OpenParen.chars()) && advances(s, pos, skip(s, pos + 1)) {
        let e = m_expr(s, skip(s, pos + 1));
        let r2 = r1.join(e.reach);
        match e.node {
            None => miss(r2),
            Some(n) => {
                let close = skip(s, n.end);
                let r3 = r2.join(sought(close, Text::CloseParen));
                if lit(s, close, Text::CloseParen.chars()) {
                    hit(r3, Rule::primary, pos, close + 1, seq![n])
                } else {
                    miss(r3)
                }
            },
        }
    } else {
        miss(r1)
    }
}

/// `decl = "let" ident "=" expr ";"`
pub open spec fn m_decl(s: Seq<char>, pos: int) -> Attempt {
    let word = sought(pos, Text::Let);
    if !lit(s, pos, Text::Let.chars()) {
        miss(word)
    } else {
        let name = m_leaf(s, skip(s, pos + 3), Rule::ident);
        let r1 = word.join(name.reach);
        match name.node {
            None => miss(r1),
            Some(name) => {
                let p2 = skip(s, name.end);
                let r2 = r1.join(sought(p2, Text::Assign));
                if !lit(s, p2, Text::Assign.chars()) {
                    miss(r2)
                } else {
                    let e = m_expr(s, skip(s, p2 + 1));
                    let r3 = r2.join(e.reach);
                    match e.node {
                        None => miss(r3),
                        Some(value) => {
                            let p3 = skip(s, value.end);
                            let r4 = r3.join(sought(p3, Text::Semicolon));
                            if lit(s, p3, Text::Semicolon.chars()) {
                                hit(r4, Rule::decl, pos, p3 + 1, seq![name, value])
                            } else {
                                miss(r4)
                            }
                        },
                    }
                }
            },
        }
    }
}

/// `print_stmt = "print" expr ";"`
pub open spec fn m_print(s: Seq<char>, pos: int) -> Attempt {
    let word = sought(pos, Text::Print);
    if !lit(s, pos, Text::Print.chars()) {
        miss(word)
    } else {
        let e = m_expr(s, skip(s, pos + 5));
        let r1 = word.join(e.reach);
        match e.node {
            None => miss(r1),
            Some(value) => {
                let p = skip(s, value.end);
                let r2 = r1.join(sought(p, Text::Semicolon));
                if lit(s, p, Text::Semicolon.chars()) {
                    hit(r2, Rule::print_stmt, pos, p + 1, seq![value])
                } else {
                    miss(r2)
                }
            },
        }
    }
}

/// `stmt = decl | print_stmt`
pub open spec fn m_stmt(s: Seq<char>, pos: int) -> Attempt {
    let decl = m_decl(s, pos);
    let print = m_print(s, pos);
    let both = decl.reach.join(print.reach);
    if decl.node is Some {
        wrap(decl.reach, Rule::stmt, decl.node->0)
    } else if print.node is Some {
        wrap(both, Rule::stmt, print.node->0)
    } else {
        miss(both)
    }
}

/// `stmt*`. The next statement is looked for at `at`; `end` is where the
/// repetition ends if there is none.
pub open spec fn m_stmts(s: Seq<char>, at: int, end: int) -> Items
    decreases s.len() - at,
{
    let a = m_stmt(s, at);
    if a.node is Some && advances(s, at, skip(s, a.node->0.end)) {
        let n = a.node->0;
        let rest = m_stmts(s, skip(s, n.end), n.end);
        Items { reach: a.reach.join(rest.reach), end: rest.end, nodes: seq![n] + rest.nodes }
    } else {
        none(a.reach, end)
    }
}

/// `program = start-of-input stmt* end-of-input`. The start of input is
/// position 0, and nowhere else.
pub open spec fn m_program(s: Seq<char>, pos: int) -> Attempt {
    if pos != 0 {
        miss(looked(pos, Expected::Rule(Rule::program)))
    } else {
        let first = skip(s, 0);
        let body = m_stmts(s, first, first);
        let eoi = m_leaf(s, skip(s, body.end), Rule::EOI);
        let reach = body.reach.join(eoi.reach);
        match eoi.node {
            Some(end) => hit(reach, Rule::program, 0, end.end, body.nodes.push(end)),
            None => miss(reach),
        }
    }
}

/// The attempt to match `rule` at `pos`. The two rules for what is skipped,
/// `WHITESPACE` and `COMMENT`, leave no node behind and never match here; see
/// [`parse_result`].
pub open spec fn m_rule(s: Seq<char>, pos: int, rule: Rule) -> Attempt {
    match rule {
        Rule::program => m_program(s, pos),
        Rule::stmt => m_stmt(s, pos),
        Rule::decl => m_decl(s, pos),
        Rule::print_stmt => m_print(s, pos),
        Rule::expr => m_expr(s, pos),
        Rule::add => m_chain(s, pos, Rule::add),
        Rule::mul => m_chain(s, pos, Rule::mul),
        Rule::postfix => m_postfix(s, pos),
        Rule::primary => m_primary(s, pos),
        Rule::set => m_set(s, pos),
        Rule::set_literal => m_set_literal(s, pos),
        Rule::range => m_range(s, pos),
        Rule::WHITESPACE | Rule::COMMENT => miss(looked(pos, Expected::Rule(rule))),
        _ => m_leaf(s, pos, rule),
    }
}

/// `items` without what has stood in it before: of each value, the first
/// occurrence.
pub open spec fn distinct(items: Seq<Expected>) -> Seq<Expected>
    decreases items.len(),
{
    if items.len() == 0 {
        Seq::empty()
    } else {
        let before = distinct(items.drop_last());
        if before.contains(items.last()) {
            before
        } else {
            before.push(items.last())
        }
    }
}

/// Why a text does not follow the grammar.
pub struct Failure {
    /// The furthest position at which a token was looked for.
    pub pos: int,
    /// What was looked for there, each once, in the order in which it was.
    pub expected: Seq<Expected>,
    /// The character that stands there; none at the end of the text.
    pub found: Option<char>,
}

/// The failure of an attempt on `s` that got as far as `reach`.
pub open spec fn failure(s: Seq<char>, reach: Reach) -> Failure {
    Failure {
        pos: reach.far,
        expected: distinct(reach.wanted),
        found: if 0 <= reach.far < s.len() {
            Some(s[reach.far])
        } else {
            None
        },
    }
}

/// What parsing `s` by `rule` gives: the nodes matched at the start of `s`,
/// or where and why there is no match. A match need not reach the end of
/// `s`; only `program` asks for that. `WHITESPACE` and `COMMENT` match
/// without leaving a node.
pub open spec fn parse_result(rule: Rule, s: Seq<char>) -> Result<Seq<Node>, Failure> {
    let skipped = match rule {
        Rule::WHITESPACE => s.len() > 0 && CharClass::Blank.holds(s[0]),
        Rule::COMMENT => lit(s, 0, slashes()),
        _ => false,
    };
    let a = m_rule(s, 0, rule);
    if skipped {
        Ok(Seq::empty())
    } else {
        match a.node {
            Some(n) => Ok(seq![n]),
            None => Err(failure(s, a.reach)),
        }
    }
}

/// A run ends at or after its start, inside the source.
pub proof fn lemma_run_bounds(s: Seq<char>, pos: int, class: CharClass)
    requires
        0 <= pos <= s.len(),
    ensures
        pos <= run_end(s, pos, class) <= s.len(),
    decreases s.len() - pos,
{
    if pos < s.len() && class.holds(s[pos]) {
        lemma_run_bounds(s, pos + 1, class);
    }
}

/// Skipping moves forward, and stays inside the source.
pub proof fn lemma_skip_bounds(s: Seq<char>, pos: int)
    requires
        0 <= pos <= s.len(),
    ensures
        pos <= skip(s, pos) <= s.len(),
    decreases s.len() - pos,
{
    lemma_run_bounds(s, pos, CharClass::Blank);
    let p = run_end(s, pos, CharClass::Blank);
    if lit(s, p, slashes()) {
        lemma_run_bounds(s, p + 2, CharClass::InLine);
        let q = run_end(s, p + 2, CharClass::InLine);
        if advances(s, pos, q) {
            lemma_skip_bounds(s, q);
        }
    }
}

/// The attempt began at `pos` and stayed inside `s`; a match begins at
/// `pos`, is not empty, and ends inside `s`.
pub open spec fn bounded(a: Attempt, s: Seq<char>, pos: int) -> bool {
    &&& pos <= a.reach.far <= s.len()
    &&& a.node matches Some(n) ==> n.start == pos && pos < n.end <= s.len()
}

/// The repetition began at `at` and stayed inside `s`; it ends at `end` or
/// after it.
pub open spec fn items_bounded(items: Items, s: Seq<char>, at: int, end: int) -> bool {
    &&& at <= items.reach.far <= s.len()
    &&& end <= items.end <= s.len()
}

/// A match of a rule without inner rules begins where it was looked for and
/// ends inside the source; only the end of input matches nothing.
pub proof fn lemma_leaf_bounded(s: Seq<char>, pos: int, rule: Rule)
    requires
        0 <= pos <= s.len(),
    ensures
        m_leaf(s, pos, rule).reach.far == pos,
        m_leaf(s, pos, rule).node matches Some(n) ==> n.start == pos && pos <= n.end <= s.len()
            && (rule != Rule::EOI ==> pos < n.end),
{
    lemma_run_bounds(s, pos, CharClass::Letter);
    lemma_run_bounds(s, pos, CharClass::Digit);
}

/// The repetition of integers stays inside the source.
pub proof fn lemma_more_integers_bounded(s: Seq<char>, at: int, end: int)
    requires
        0 <= end <= at <= s.len(),
    ensures
        items_bounded(m_more_integers(s, at, end), s, at, end),
    decreases s.len() - at,
{
    broadcast use lemma_join_far;

    if lit(s, at, Text::Comma.chars()) {
        lemma_skip_bounds(s, at + 1);
        let p = skip(s, at + 1);
        lemma_leaf_bounded(s, p, Rule::integer);
        let a = m_leaf(s, p, Rule::integer);
        if a.node is Some {
            lemma_skip_bounds(s, a.node->0.end);
            lemma_more_integers_bounded(s, skip(s, a.node->0.end), a.node->0.end);
        }
    }
}

/// An attempt at a set, a set literal or a range stays inside the source, and so does what it matches.
proof fn lemma_set_bounded(s: Seq<char>, pos: int)
    requires
        0 <= pos <= s.len(),
    ensures
        bounded(m_set(s, pos), s, pos),
        bounded(m_set_literal(s, pos), s, pos),
        bounded(m_range(s, pos), s, pos),
{
    broadcast use lemma_join_far;

    lemma_leaf_bounded(s, pos, Rule::ident);
    lemma_leaf_bounded(s, pos, Rule::empty);
    if lit(s, pos, Text::OpenBrace.chars()) {
        lemma_skip_bounds(s, pos + 1);
        let p1 = skip(s, pos + 1);
        lemma_leaf_bounded(s, p1, Rule::integer);
        let first = m_leaf(s, p1, Rule::integer);
        if first.node is Some {
            let a = first.node->0;
            lemma_skip_bounds(s, a.end);
            let p2 = skip(s, a.end);
            lemma_more_integers_bounded(s, p2, p2);
            if lit(s, p2, Text::Dots.chars()) {
                lemma_skip_bounds(s, p2 + 2);
                let p3 = skip(s, p2 + 2);
                lemma_leaf_bounded(s, p3, Rule::integer);
                let second = m_leaf(s, p3, Rule::integer);
                if second.node is Some {
                    lemma_skip_bounds(s, second.node->0.end);
                }
            }
        }
        lemma_skip_bounds(s, m_integers(s, p1).end);
    }
}

/// An attempt at complement marks stays inside the source, and so does what it matches.
proof fn lemma_marks_bounded(s: Seq<char>, at: int, end: int)
    requires
        0 <= end <= at <= s.len(),
    ensures
        items_bounded(m_marks(s, at, end), s, at, end),
    decreases s.len() - at,
{
    broadcast use lemma_join_far;

    lemma_leaf_bounded(s, at, Rule::complement);
    let a = m_leaf(s, at, Rule::complement);
    if a.node is Some {
        lemma_skip_bounds(s, a.node->0.end);
        lemma_marks_bounded(s, skip(s, a.node->0.end), a.node->0.end);
    }
}

/// Every match of an expression begins where it was looked for, is not
/// empty and ends inside the source.
pub proof fn lemma_expr_bounded(s: Seq<char>, pos: int)
    requires
        0 <= pos <= s.len(),
    ensures
        bounded(m_expr(s, pos), s, pos),
    decreases s.len() - pos, 5nat,
{
    lemma_chain_bounded(s, pos, Rule::add);
}

/// Every match of a chain begins where it was looked for, is not empty and
/// ends inside the source; and a chain matches wherever its first operand
/// does. So the tests with [`advances`] in the grammar never fail: they are
/// there for the definitions to be well founded, and leave no match out.
pub proof fn lemma_chain_bounded(s: Seq<char>, pos: int, level: Rule)
    requires
        0 <= pos <= s.len(),
    ensures
        bounded(m_chain(s, pos, level), s, pos),
        m_chain(s, pos, level).node is Some <==> (if level == Rule::add {
            m_chain(s, pos, Rule::mul)
        } else {
            m_postfix(s, pos)
        }).node is Some,
    decreases s.len() - pos,
        (if level == Rule::add {
            4nat
        } else {
            3nat
        }),
{
    broadcast use lemma_join_far;

    let head = if level == Rule::add {
        m_chain(s, pos, Rule::mul)
    } else {
        m_postfix(s, pos)
    };
    if level == Rule::add {
        lemma_chain_bounded(s, pos, Rule::mul);
    } else {
        lemma_postfix_bounded(s, pos);
    }
    if head.node is Some {
        lemma_skip_bounds(s, head.node->0.end);
        let next = skip(s, head.node->0.end);
        lemma_chain_tail_bounded(s, next, next, level);
    }
}

/// An attempt at the operators of a chain with their operands stays inside the source, and so does what it matches.
proof fn lemma_chain_tail_bounded(s: Seq<char>, at: int, end: int, level: Rule)
    requires
        0 <= end <= at <= s.len(),
    ensures
        items_bounded(m_chain_tail(s, at, end, level), s, at, end),
    decreases s.len() - at, 0nat,
{
    broadcast use lemma_join_far;

    lemma_leaf_bounded(s, at, first_sign(level));
    lemma_leaf_bounded(s, at, second_sign(level));
    let sign = m_sign(s, at, level);
    if sign.node is Some {
        lemma_skip_bounds(s, sign.node->0.end);
        let p = skip(s, sign.node->0.end);
        let operand = if level == Rule::add {
            m_chain(s, p, Rule::mul)
        } else {
            m_postfix(s, p)
        };
        if level == Rule::add {
            lemma_chain_bounded(s, p, Rule::mul);
        } else {
            lemma_postfix_bounded(s, p);
        }
        if operand.node is Some {
            let n = operand.node->0;
            lemma_skip_bounds(s, n.end);
            lemma_chain_tail_bounded(s, skip(s, n.end), n.end, level);
        }
    }
}

/// An attempt at `postfix` stays inside the source, and so does what it matches.
pub proof fn lemma_postfix_bounded(s: Seq<char>, pos: int)
    requires
        0 <= pos <= s.len(),
    ensures
        bounded(m_postfix(s, pos), s, pos),
    decreases s.len() - pos, 2nat,
{
    broadcast use lemma_join_far;

    lemma_primary_bounded(s, pos);
    let a = m_primary(s, pos);
    if a.node is Some {
        lemma_skip_bounds(s, a.node->0.end);
        let next = skip(s, a.node->0.end);
        lemma_marks_bounded(s, next, next);
    }
}

/// An attempt at `primary` stays inside the source, and so does what it matches.
pub proof fn lemma_primary_bounded(s: Seq<char>, pos: int)
    requires
        0 <= pos <= s.len(),
    ensures
        bounded(m_primary(s, pos), s, pos),
    decreases s.len() - pos, 1nat,
{
    broadcast use lemma_join_far;

    lemma_set_bounded(s, pos);
    if m_set(s, pos).node is None && lit(s, pos, Text::OpenParen.chars()) {
        lemma_skip_bounds(s, pos + 1);
        let e = m_expr(s, skip(s, pos + 1));
        lemma_expr_bounded(s, skip(s, pos + 1));
        if e.node is Some {
            lemma_skip_bounds(s, e.node->0.end);
        }
    }
}

/// An attempt at `decl` stays inside the source, and so does what it matches.
proof fn lemma_decl_bounded(s: Seq<char>, pos: int)
    requires
        0 <= pos <= s.len(),
    ensures
        bounded(m_decl(s, pos), s, pos),
{
    broadcast use lemma_join_far;

    if lit(s, pos, Text::Let.chars()) {
        lemma_skip_bounds(s, pos + 3);
        let p1 = skip(s, pos + 3);
        lemma_leaf_bounded(s, p1, Rule::ident);
        let name = m_leaf(s, p1, Rule::ident);
        if name.node is Some {
            lemma_skip_bounds(s, name.node->0.end);
            let p2 = skip(s, name.node->0.end);
            if lit(s, p2, Text::Assign.chars()) {
                lemma_skip_bounds(s, p2 + 1);
                lemma_expr_bounded(s, skip(s, p2 + 1));
                let e = m_expr(s, skip(s, p2 + 1));
                if e.node is Some {
                    lemma_skip_bounds(s, e.node->0.end);
                }
            }
        }
    }
}

/// An attempt at `print_stmt` stays inside the source, and so does what it matches.
proof fn lemma_print_bounded(s: Seq<char>, pos: int)
    requires
        0 <= pos <= s.len(),
    ensures
        bounded(m_print(s, pos), s, pos),
{
    broadcast use lemma_join_far;

    if lit(s, pos, Text::Print.chars()) {
        lemma_skip_bounds(s, pos + 5);
        lemma_expr_bounded(s, skip(s, pos + 5));
        let e = m_expr(s, skip(s, pos + 5));
        if e.node is Some {
            lemma_skip_bounds(s, e.node->0.end);
        }
    }
}

/// An attempt at `stmt` stays inside the source, and so does what it matches.
pub proof fn lemma_stmt_bounded(s: Seq<char>, pos: int)
    requires
        0 <= pos <= s.len(),
    ensures
        bounded(m_stmt(s, pos), s, pos),
{
    broadcast use lemma_join_far;

    lemma_decl_bounded(s, pos);
    lemma_print_bounded(s, pos);
}

/// An attempt at a list of statements stays inside the source, and so does what it matches.
pub proof fn lemma_stmts_bounded(s: Seq<char>, at: int, end: int)
    requires
        0 <= end <= at <= s.len(),
    ensures
        items_bounded(m_stmts(s, at, end), s, at, end),
    decreases s.len() - at,
{
    broadcast use lemma_join_far;

    lemma_stmt_bounded(s, at);
    let a = m_stmt(s, at);
    if a.node is Some {
        lemma_skip_bounds(s, a.node->0.end);
        lemma_stmts_bounded(s, skip(s, a.node->0.end), a.node->0.end);
    }
}

/// An attempt at the start of a text never looks before the text nor after
/// its end.
pub proof fn lemma_rule_reach(rule: Rule, s: Seq<char>)
    ensures
        0 <= m_rule(s, 0, rule).reach.far <= s.len(),
{
    broadcast use lemma_join_far;

    lemma_leaf_bounded(s, 0, rule);
    lemma_stmt_bounded(s, 0);
    lemma_decl_bounded(s, 0);
    lemma_print_bounded(s, 0);
    lemma_expr_bounded(s, 0);
    lemma_chain_bounded(s, 0, Rule::add);
    lemma_chain_bounded(s, 0, Rule::mul);
    lemma_postfix_bounded(s, 0);
    lemma_primary_bounded(s, 0);
    lemma_set_bounded(s, 0);
    if rule == Rule::program {
        lemma_skip_bounds(s, 0);
        let first = skip(s, 0);
        lemma_stmts_bounded(s, first, first);
        let end = m_stmts(s, first, first).end;
        lemma_skip_bounds(s, end);
        lemma_leaf_bounded(s, skip(s, end), Rule::EOI);
    }
}

/// Where a parse fails, the position that it reports lies in the text or at
/// its end.
pub proof fn lemma_error_position(rule: Rule, s: Seq<char>)
    ensures
        parse_result(rule, s) matches Err(e) ==> 0 <= e.pos <= s.len(),
{
    lemma_rule_reach(rule, s);
}

} // verus!
