//! A text for every program, and the proof that the parser reads it back.
//!
//! [`written`] writes an expression out with every operand in parentheses
//! and without blanks; [`program_text`] does so for a program.
//! [`law_round_trip`] shows that parsing the text of a program gives the
//! program: the grammar leaves no program without a text, and the parser
//! understands each text as it was meant.

use crate::ast::{ExprView, ProgramView, StmtView};
use crate::format::{decimal_nat, digit_char};
use crate::grammar::{
    advances, first_sign, leaf_end, lit, m_chain, m_chain_tail, m_decl, m_expr, m_integers,
    m_leaf, m_marks, m_more_integers, m_postfix, m_primary, m_print, m_program, m_range,
    m_set, m_set_literal, m_sign, m_stmt, m_stmts, parse_result, run_end, second_sign,
    sign_of, skip, slashes, CharClass, Failure, Text,
};
use crate::parse::{
    chain_of, chain_upto, complemented, decimal_value, expr_of, is_number, joined, links,
    operand_in, parsed, postfix_of, primary_of, range_of, set_of, stmt_of, stmts_of, text_of,
    value_of, values_of, ParseErrorView,
};
use crate::tree::{Node, Rule};
use vstd::prelude::*;

verus! {

/// `c` is neither a blank nor the beginning of a comment.
pub open spec fn solid(c: char) -> bool {
    !CharClass::Blank.holds(c) && c != '/'
}

/// `p` is the end of `s` or holds a character that is not skipped.
pub open spec fn stays(s: Seq<char>, p: int) -> bool {
    0 <= p <= s.len() && (p < s.len() ==> solid(s[p]))
}

/// `c` stands in `s` at `p`.
pub open spec fn has_char(s: Seq<char>, p: int, c: char) -> bool {
    0 <= p < s.len() && s[p] == c
}

/// Nothing is skipped at a position that holds a solid character.
proof fn lemma_skip_stays(s: Seq<char>, p: int)
    requires
        stays(s, p),
    ensures
        skip(s, p) == p,
{
    assert(run_end(s, p, CharClass::Blank) == p);
    if lit(s, p, slashes()) {
        assert(s[p + 0] == slashes()[0]);
    }
}

/// One character stands at a position as a text of that one character does.
proof fn lemma_lit_one(s: Seq<char>, p: int, c: char)
    ensures
        lit(s, p, seq![c]) <==> has_char(s, p, c),
{
    if lit(s, p, seq![c]) {
        assert(s[p + 0] == seq![c][0]);
    }
}

/// A text of two parts stands where its first part stands and its second
/// part follows.
proof fn lemma_lit_parts(s: Seq<char>, p: int, a: Seq<char>, b: Seq<char>)
    requires
        0 <= p,
    ensures
        lit(s, p, a + b) <==> lit(s, p, a) && lit(s, p + a.len(), b),
{
    let ab = a + b;
    if lit(s, p, ab) {
        assert forall|i: int| 0 <= i < a.len() implies s[p + i] == a[i] by {
            assert(ab[i] == a[i]);
        }
        assert forall|i: int| 0 <= i < b.len() implies s[p + a.len() + i] == b[i] by {
            assert(ab[a.len() + i] == b[i]);
            assert(s[p + (a.len() + i)] == ab[a.len() + i]);
        }
    }
    if lit(s, p, a) && lit(s, p + a.len(), b) {
        assert forall|i: int| 0 <= i < ab.len() implies s[p + i] == ab[i] by {
            if i >= a.len() {
                assert(s[p + a.len() + (i - a.len())] == b[i - a.len()]);
            }
        }
    }
}

/// A run of `n` characters of a class, with none of the class after it, ends
/// after those `n`.
proof fn lemma_run_exact(s: Seq<char>, pos: int, n: int, class: CharClass)
    requires
        0 <= pos,
        0 <= n,
        pos + n <= s.len(),
        forall|i: int| 0 <= i < n ==> class.holds(#[trigger] s[pos + i]),
        pos + n < s.len() ==> !class.holds(s[pos + n]),
    ensures
        run_end(s, pos, class) == pos + n,
    decreases n,
{
    if n > 0 {
        assert(class.holds(s[pos + 0]));
        assert forall|i: int| 0 <= i < n - 1 implies class.holds(#[trigger] s[pos + 1 + i]) by {
            assert(class.holds(s[pos + (i + 1)]));
        }
        lemma_run_exact(s, pos + 1, n - 1, class);
    }
}

/// `name` can be the name of a variable: one or more ASCII letters.
pub open spec fn is_name(name: Seq<char>) -> bool {
    name.len() > 0 && forall|i: int| 0 <= i < name.len() ==> CharClass::Letter.holds(name[i])
}

/// Where `name` stands and no letter follows it, `ident` matches it.
proof fn lemma_reads_name(s: Seq<char>, pos: int, name: Seq<char>)
    requires
        is_name(name),
        lit(s, pos, name),
        pos + name.len() < s.len() ==> !CharClass::Letter.holds(s[pos + name.len()]),
    ensures
        leaf_end(s, pos, Rule::ident) == Some(pos + name.len()),
        text_of(s, m_leaf(s, pos, Rule::ident).node->0) == name,
{
    assert forall|i: int| 0 <= i < name.len() implies CharClass::Letter.holds(
        #[trigger] s[pos + i],
    ) by {
        assert(s[pos + i] == name[i]);
    }
    lemma_run_exact(s, pos, name.len() as int, CharClass::Letter);
    assert(s.subrange(pos, pos + name.len()) =~= name);
}

/// The digits of a number are digits, and there is at least one.
proof fn lemma_decimal_is_number(n: nat)
    ensures
        is_number(decimal_nat(n)),
    decreases n,
{
    if n >= 10 {
        lemma_decimal_is_number(n / 10);
        let d = decimal_nat(n);
        assert forall|i: int| 0 <= i < d.len() implies CharClass::Digit.holds(d[i]) by {
            if i < d.len() - 1 {
                assert(d[i] == decimal_nat(n / 10)[i]);
            }
        }
    }
}

/// The digits of a number stand for that number.
pub proof fn lemma_decimal_value(n: nat)
    ensures
        decimal_value(decimal_nat(n)) == n,
    decreases n,
{
    if n < 10 {
        let d = decimal_nat(n);
        assert(d.drop_last() =~= Seq::<char>::empty());
        assert(decimal_value(d.drop_last()) == 0);
        assert(d.last() == digit_char(n as int));
    } else {
        lemma_decimal_value(n / 10);
        let d = decimal_nat(n);
        assert(d.drop_last() =~= decimal_nat(n / 10));
        assert(d.last() == digit_char((n % 10) as int));
    }
}

/// Where the digits of `v` stand and no digit follows them, `integer`
/// matches them, and their value is `v`.
proof fn lemma_reads_number(s: Seq<char>, pos: int, v: i32)
    requires
        0 <= v,
        lit(s, pos, decimal_nat(v as nat)),
        pos + decimal_nat(v as nat).len() < s.len() ==> !CharClass::Digit.holds(
            s[pos + decimal_nat(v as nat).len()],
        ),
    ensures
        leaf_end(s, pos, Rule::integer) == Some(pos + decimal_nat(v as nat).len()),
        value_of(m_leaf(s, pos, Rule::integer).node->0, s) == Ok::<i32, ParseErrorView>(v),
{
    let digits = decimal_nat(v as nat);
    lemma_decimal_is_number(v as nat);
    lemma_decimal_value(v as nat);
    assert forall|i: int| 0 <= i < digits.len() implies CharClass::Digit.holds(
        #[trigger] s[pos + i],
    ) by {
        assert(s[pos + i] == digits[i]);
    }
    lemma_run_exact(s, pos, digits.len() as int, CharClass::Digit);
    assert(s.subrange(pos, pos + digits.len()) =~= digits);
}

/// `v` in decimal. Only a number that is not negative can be written.
pub open spec fn number(v: i32) -> Seq<char> {
    decimal_nat(v as nat)
}

/// A comma and a number for each of `vs`.
pub open spec fn more_numbers(vs: Seq<i32>) -> Seq<char>
    decreases vs.len(),
{
    if vs.len() == 0 {
        Seq::empty()
    } else {
        seq![','] + number(vs[0]) + more_numbers(vs.drop_first())
    }
}

/// The numbers `vs` with commas between them.
pub open spec fn numbers(vs: Seq<i32>) -> Seq<char> {
    if vs.len() == 0 {
        Seq::empty()
    } else {
        number(vs[0]) + more_numbers(vs.drop_first())
    }
}

/// None of `vs` is negative.
pub open spec fn all_natural(vs: Seq<i32>) -> bool {
    forall|i: int| 0 <= i < vs.len() ==> 0 <= vs[i]
}

/// `nodes` are matches of `integer` with the values `vs`.
pub open spec fn are_numbers(nodes: Seq<Node>, s: Seq<char>, vs: Seq<i32>) -> bool {
    &&& nodes.len() == vs.len()
    &&& forall|i: int|
        0 <= i < nodes.len() ==> (#[trigger] nodes[i]).rule == Rule::integer && value_of(
            nodes[i],
            s,
        ) == Ok::<i32, ParseErrorView>(vs[i])
}

/// The values of matches of `integer` are their values, in order.
proof fn lemma_values_of_numbers(nodes: Seq<Node>, s: Seq<char>, vs: Seq<i32>)
    requires
        are_numbers(nodes, s, vs),
    ensures
        values_of(nodes, s) == Ok::<Seq<i32>, ParseErrorView>(vs),
    decreases nodes.len(),
{
    if nodes.len() == 0 {
        assert(vs =~= Seq::<i32>::empty());
    } else {
        let front = nodes.drop_last();
        assert forall|i: int| 0 <= i < front.len() implies (#[trigger] front[i]).rule
            == Rule::integer && value_of(front[i], s) == Ok::<i32, ParseErrorView>(
            vs.drop_last()[i],
        ) by {
            assert(front[i] == nodes[i]);
        }
        lemma_values_of_numbers(front, s, vs.drop_last());
        assert(nodes.last() == nodes[nodes.len() - 1]);
        assert(vs.drop_last().push(vs.last()) =~= vs);
    }
}

/// After a number in a list comes a comma or the closing brace, which is no
/// digit.
proof fn lemma_more_numbers_start(s: Seq<char>, at: int, vs: Seq<i32>)
    requires
        0 <= at,
        lit(s, at, more_numbers(vs)),
        has_char(s, at + more_numbers(vs).len(), '}'),
    ensures
        at < s.len(),
        solid(s[at]),
        !CharClass::Digit.holds(s[at]),
        vs.len() == 0 ==> s[at] == '}',
        vs.len() > 0 ==> s[at] == ',',
{
    if vs.len() > 0 {
        let first = seq![','] + number(vs[0]);
        lemma_lit_parts(s, at, first, more_numbers(vs.drop_first()));
        lemma_lit_parts(s, at, seq![','], number(vs[0]));
        lemma_lit_one(s, at, ',');
    }
}

/// `("," integer)*` reads a list of numbers that a closing brace follows.
proof fn lemma_reads_more_numbers(s: Seq<char>, at: int, end: int, vs: Seq<i32>)
    requires
        0 <= at,
        all_natural(vs),
        lit(s, at, more_numbers(vs)),
        has_char(s, at + more_numbers(vs).len(), '}'),
    ensures
        are_numbers(m_more_integers(s, at, end).nodes, s, vs),
        vs.len() > 0 ==> m_more_integers(s, at, end).end == at + more_numbers(vs).len(),
        vs.len() == 0 ==> m_more_integers(s, at, end).end == end,
    decreases vs.len(),
{
    lemma_more_numbers_start(s, at, vs);
    lemma_lit_one(s, at, ',');
    if vs.len() > 0 {
        let v = vs[0];
        let rest = vs.drop_first();
        let first = seq![','] + number(v);
        lemma_lit_parts(s, at, first, more_numbers(rest));
        lemma_lit_parts(s, at, seq![','], number(v));
        lemma_decimal_is_number(v as nat);
        let p = at + 1;
        assert(s[p + 0] == number(v)[0]);
        lemma_skip_stays(s, p);
        let after = p + number(v).len();
        assert(after == at + first.len());
        assert(all_natural(rest)) by {
            assert forall|i: int| 0 <= i < rest.len() implies 0 <= rest[i] by {
                assert(rest[i] == vs[i + 1]);
            }
        }
        assert(has_char(s, after + more_numbers(rest).len(), '}'));
        lemma_more_numbers_start(s, after, rest);
        lemma_reads_number(s, p, v);
        lemma_skip_stays(s, after);
        let a = m_leaf(s, p, Rule::integer);
        let n = a.node->0;
        assert(n.end == after);
        assert(advances(s, at, skip(s, n.end)));
        lemma_reads_more_numbers(s, after, after, rest);
        let tail = m_more_integers(s, after, after);
        let all = m_more_integers(s, at, end);
        assert(all.nodes == seq![n] + tail.nodes);
        assert forall|i: int| 0 <= i < all.nodes.len() implies (#[trigger] all.nodes[i]).rule
            == Rule::integer && value_of(all.nodes[i], s) == Ok::<i32, ParseErrorView>(vs[i]) by {
            if i > 0 {
                assert(all.nodes[i] == tail.nodes[i - 1]);
                assert(vs[i] == rest[i - 1]);
            }
        }
    }
}

/// `(integer ("," integer)*)?` reads a list of numbers that a closing brace
/// follows.
proof fn lemma_reads_numbers(s: Seq<char>, at: int, vs: Seq<i32>)
    requires
        0 <= at,
        all_natural(vs),
        lit(s, at, numbers(vs)),
        has_char(s, at + numbers(vs).len(), '}'),
    ensures
        are_numbers(m_integers(s, at).nodes, s, vs),
        m_integers(s, at).end == at + numbers(vs).len(),
{
    if vs.len() == 0 {
        assert(!CharClass::Digit.holds(s[at]));
        assert(run_end(s, at, CharClass::Digit) == at);
    } else {
        let v = vs[0];
        let rest = vs.drop_first();
        lemma_lit_parts(s, at, number(v), more_numbers(rest));
        let after = at + number(v).len();
        assert(all_natural(rest)) by {
            assert forall|i: int| 0 <= i < rest.len() implies 0 <= rest[i] by {
                assert(rest[i] == vs[i + 1]);
            }
        }
        lemma_more_numbers_start(s, after, rest);
        lemma_reads_number(s, at, v);
        lemma_skip_stays(s, after);
        lemma_reads_more_numbers(s, after, after, rest);
        let n = m_leaf(s, at, Rule::integer).node->0;
        let tail = m_more_integers(s, after, after);
        let all = m_integers(s, at);
        assert(all.nodes == seq![n] + tail.nodes);
        assert forall|i: int| 0 <= i < all.nodes.len() implies (#[trigger] all.nodes[i]).rule
            == Rule::integer && value_of(all.nodes[i], s) == Ok::<i32, ParseErrorView>(vs[i]) by {
            if i > 0 {
                assert(all.nodes[i] == tail.nodes[i - 1]);
                assert(vs[i] == rest[i - 1]);
            }
        }
    }
}

/// The text of a set literal: the numbers between braces.
pub open spec fn literal_text(vs: Seq<i32>) -> Seq<char> {
    seq!['{'] + numbers(vs) + seq!['}']
}

/// The text of a range: the bounds between braces, with two dots between
/// them.
pub open spec fn range_text(a: i32, b: i32) -> Seq<char> {
    seq!['{'] + number(a) + seq!['.', '.'] + number(b) + seq!['}']
}

/// `m_set` matches at `pos` up to `end`, and the builder makes `e` of the
/// match.
pub open spec fn set_reads(s: Seq<char>, pos: int, e: ExprView, end: int) -> bool {
    &&& m_set(s, pos).node matches Some(n)
    &&& n.rule == Rule::set
    &&& n.start == pos
    &&& n.end == end
    &&& set_of(n, s) == Ok::<ExprView, ParseErrorView>(e)
}

/// A name is read as a name.
proof fn lemma_reads_ident(s: Seq<char>, pos: int, name: Seq<char>)
    requires
        0 <= pos,
        is_name(name),
        lit(s, pos, name),
        pos + name.len() < s.len() ==> !CharClass::Letter.holds(s[pos + name.len()]),
    ensures
        set_reads(s, pos, ExprView::Ident(name), pos + name.len()),
{
    lemma_reads_name(s, pos, name);
}

/// The empty-set sign is read as the empty set.
proof fn lemma_reads_empty(s: Seq<char>, pos: int)
    requires
        has_char(s, pos, '\u{2205}'),
    ensures
        set_reads(s, pos, ExprView::Empty, pos + 1),
{
    lemma_lit_one(s, pos, '\u{2205}');
    assert(run_end(s, pos, CharClass::Letter) == pos);
}

/// A set literal is read as a set literal.
proof fn lemma_reads_literal(s: Seq<char>, pos: int, vs: Seq<i32>)
    requires
        0 <= pos,
        all_natural(vs),
        lit(s, pos, literal_text(vs)),
    ensures
        set_reads(s, pos, ExprView::SetLiteral(vs), pos + literal_text(vs).len()),
{
    let open = seq!['{'] + numbers(vs);
    lemma_lit_parts(s, pos, open, seq!['}']);
    lemma_lit_parts(s, pos, seq!['{'], numbers(vs));
    lemma_lit_one(s, pos, '{');
    lemma_lit_one(s, pos, '\u{2205}');
    let close = pos + open.len();
    lemma_lit_one(s, close, '}');
    assert(run_end(s, pos, CharClass::Letter) == pos);
    let start = pos + 1;
    if vs.len() == 0 {
        assert(s[start] == '}');
    } else {
        lemma_decimal_is_number(vs[0] as nat);
        lemma_lit_parts(s, start, number(vs[0]), more_numbers(vs.drop_first()));
        assert(s[start + 0] == number(vs[0])[0]);
    }
    lemma_skip_stays(s, start);
    lemma_reads_numbers(s, start, vs);
    let body = m_integers(s, start);
    assert(body.end == close);
    lemma_skip_stays(s, close);
    lemma_values_of_numbers(body.nodes, s, vs);
    assert(lit(s, pos, Text::OpenBrace.chars()));
    assert(lit(s, close, Text::CloseBrace.chars()));
    let found = m_set_literal(s, pos).node->0;
    assert(found.inner == body.nodes);
}

/// A range is read as a range.
proof fn lemma_reads_range(s: Seq<char>, pos: int, a: i32, b: i32)
    requires
        0 <= pos,
        0 <= a,
        0 <= b,
        lit(s, pos, range_text(a, b)),
    ensures
        set_reads(s, pos, ExprView::Range(a, b), pos + range_text(a, b).len()),
{
    let t1 = seq!['{'] + number(a);
    let t2 = t1 + seq!['.', '.'];
    let t3 = t2 + number(b);
    lemma_lit_parts(s, pos, t3, seq!['}']);
    lemma_lit_parts(s, pos, t2, number(b));
    lemma_lit_parts(s, pos, t1, seq!['.', '.']);
    lemma_lit_parts(s, pos, seq!['{'], number(a));
    lemma_lit_one(s, pos, '{');
    lemma_lit_one(s, pos, '\u{2205}');
    assert(run_end(s, pos, CharClass::Letter) == pos);
    lemma_decimal_is_number(a as nat);
    lemma_decimal_is_number(b as nat);
    let p1 = pos + 1;
    assert(s[p1 + 0] == number(a)[0]);
    lemma_skip_stays(s, p1);
    let p2 = pos + t1.len();
    assert(s[p2 + 0] == seq!['.', '.'][0]);
    assert(s[p2 + 1] == seq!['.', '.'][1]);
    lemma_reads_number(s, p1, a);
    lemma_skip_stays(s, p2);
    let p3 = pos + t2.len();
    assert(s[p3 + 0] == number(b)[0]);
    lemma_skip_stays(s, p3);
    let p4 = pos + t3.len();
    lemma_lit_one(s, p4, '}');
    lemma_reads_number(s, p3, b);
    lemma_skip_stays(s, p4);
    assert(lit(s, pos, Text::OpenBrace.chars()));
    assert(lit(s, p2, Text::Dots.chars()));
    assert(lit(s, p4, Text::CloseBrace.chars()));
    // The set literal reads the first number, then finds a dot where it
    // wants a comma or the closing brace.
    lemma_lit_one(s, p2, ',');
    lemma_lit_one(s, p2, '}');
    assert(m_more_integers(s, p2, p2).end == p2);
    assert(m_integers(s, p1).end == p2);
    assert(!lit(s, p2, Text::CloseBrace.chars()));
    assert(m_set_literal(s, pos).node is None);
    let low = m_leaf(s, p1, Rule::integer).node->0;
    let high = m_leaf(s, p3, Rule::integer).node->0;
    let found = m_range(s, pos).node->0;
    assert(found.inner == seq![low, high]);
    assert(range_of(found, s) == Ok::<ExprView, ParseErrorView>(ExprView::Range(a, b)));
}

/// `e` can be written: its names are names and its numbers are not negative.
pub open spec fn writable(e: ExprView) -> bool
    decreases e,
{
    match e {
        ExprView::Ident(name) => is_name(name),
        ExprView::Empty => true,
        ExprView::SetLiteral(vs) => all_natural(vs),
        ExprView::Range(a, b) => 0 <= a && 0 <= b,
        ExprView::Complement(x) => writable(*x),
        ExprView::Union(l, r) => writable(*l) && writable(*r),
        ExprView::Intersect(l, r) => writable(*l) && writable(*r),
        ExprView::Diff(l, r) => writable(*l) && writable(*r),
        ExprView::SymDiff(l, r) => writable(*l) && writable(*r),
    }
}

/// `text` in parentheses.
pub open spec fn between(text: Seq<char>) -> Seq<char> {
    seq!['('] + text + seq![')']
}

/// The text of `e`: every operand of an operator stands in parentheses, and
/// there are no blanks.
pub open spec fn written(e: ExprView) -> Seq<char>
    decreases e,
{
    match e {
        ExprView::Ident(name) => name,
        ExprView::Empty => seq!['\u{2205}'],
        ExprView::SetLiteral(vs) => literal_text(vs),
        ExprView::Range(a, b) => range_text(a, b),
        ExprView::Complement(x) => between(written(*x)) + seq!['\''],
        ExprView::Union(l, r) => between(written(*l)) + seq!['\u{222A}'] + between(written(*r)),
        ExprView::Intersect(l, r) => between(written(*l)) + seq!['\u{2229}'] + between(
            written(*r),
        ),
        ExprView::Diff(l, r) => between(written(*l)) + seq!['\\'] + between(written(*r)),
        ExprView::SymDiff(l, r) => between(written(*l)) + seq!['\u{25B3}'] + between(
            written(*r),
        ),
    }
}

/// A text begins with a character that is not skipped.
proof fn lemma_written_start(e: ExprView)
    requires
        writable(e),
    ensures
        written(e).len() > 0,
        solid(written(e)[0]),
{
    match e {
        ExprView::SetLiteral(vs) => {
            assert(literal_text(vs)[0] == '{');
        },
        ExprView::Range(a, b) => {
            assert(range_text(a, b)[0] == '{');
        },
        ExprView::Complement(x) => {
            assert(written(e)[0] == '(');
        },
        ExprView::Union(l, r) => {
            assert(written(e)[0] == '(');
        },
        ExprView::Intersect(l, r) => {
            assert(written(e)[0] == '(');
        },
        ExprView::Diff(l, r) => {
            assert(written(e)[0] == '(');
        },
        ExprView::SymDiff(l, r) => {
            assert(written(e)[0] == '(');
        },
        _ => {},
    }
}

/// A closing parenthesis or a semicolon stands at `p`.
pub open spec fn closing(s: Seq<char>, p: int) -> bool {
    has_char(s, p, ')') || has_char(s, p, ';')
}

/// No complement mark stands at `p`, and nothing is skipped there.
pub open spec fn no_mark(s: Seq<char>, p: int) -> bool {
    stays(s, p) && !has_char(s, p, '\'')
}

/// No operator of `level` stands at `p`, and nothing is skipped there.
pub open spec fn no_sign(s: Seq<char>, p: int, level: Rule) -> bool {
    &&& stays(s, p)
    &&& sign_of(first_sign(level)) matches Some(c) ==> !has_char(s, p, c)
    &&& sign_of(second_sign(level)) matches Some(c) ==> !has_char(s, p, c)
}

/// `m_primary` matches at `pos` up to `end`, and the builder makes `e` of
/// the match.
pub open spec fn primary_reads(s: Seq<char>, pos: int, e: ExprView, end: int) -> bool {
    &&& 0 <= pos < end <= s.len()
    &&& m_primary(s, pos).node matches Some(n)
    &&& n.rule == Rule::primary
    &&& n.start == pos
    &&& n.end == end
    &&& primary_of(n, s) == Ok::<ExprView, ParseErrorView>(e)
}

/// `m_postfix` matches at `pos` up to `end`, and the builder makes `e` of
/// the match.
pub open spec fn postfix_reads(s: Seq<char>, pos: int, e: ExprView, end: int) -> bool {
    &&& 0 <= pos < end <= s.len()
    &&& m_postfix(s, pos).node matches Some(n)
    &&& n.rule == Rule::postfix
    &&& n.start == pos
    &&& n.end == end
    &&& postfix_of(n, s) == Ok::<ExprView, ParseErrorView>(e)
}

/// `m_chain` of `level` matches at `pos` up to `end`, and the builder makes
/// `e` of the match.
pub open spec fn chain_reads(s: Seq<char>, pos: int, level: Rule, e: ExprView, end: int) -> bool {
    &&& 0 <= pos < end <= s.len()
    &&& m_chain(s, pos, level).node matches Some(n)
    &&& n.rule == level
    &&& n.start == pos
    &&& n.end == end
    &&& chain_of(n, s, level) == Ok::<ExprView, ParseErrorView>(e)
}

/// The operand of a chain of `level` matches at `pos` up to `end`, and the
/// builder makes `e` of the match.
pub open spec fn operand_reads(s: Seq<char>, pos: int, level: Rule, e: ExprView, end: int) -> bool {
    if level == Rule::add {
        chain_reads(s, pos, Rule::mul, e, end)
    } else {
        postfix_reads(s, pos, e, end)
    }
}

/// `m_expr` matches at `pos` up to `end`, and the builder makes `e` of the
/// match.
pub open spec fn expr_reads(s: Seq<char>, pos: int, e: ExprView, end: int) -> bool {
    &&& 0 <= pos < end <= s.len()
    &&& m_expr(s, pos).node matches Some(n)
    &&& n.rule == Rule::expr
    &&& n.start == pos
    &&& n.end == end
    &&& expr_of(n, s) == Ok::<ExprView, ParseErrorView>(e)
}

/// What is read as a set is read as a primary.
proof fn lemma_primary_of_set(s: Seq<char>, pos: int, e: ExprView, end: int)
    requires
        0 <= pos < end <= s.len(),
        set_reads(s, pos, e, end),
    ensures
        primary_reads(s, pos, e, end),
{
    let n = m_primary(s, pos).node->0;
    assert(n.inner[0] == m_set(s, pos).node->0);
}

/// An expression in parentheses is read as a primary.
proof fn lemma_primary_of_group(s: Seq<char>, pos: int, e: ExprView, end: int)
    requires
        has_char(s, pos, '('),
        stays(s, pos + 1),
        expr_reads(s, pos + 1, e, end),
        has_char(s, end, ')'),
    ensures
        primary_reads(s, pos, e, end + 1),
{
    lemma_lit_one(s, pos, '(');
    lemma_lit_one(s, pos, '{');
    lemma_lit_one(s, pos, '\u{2205}');
    lemma_lit_one(s, end, ')');
    assert(run_end(s, pos, CharClass::Letter) == pos);
    assert(lit(s, pos, Text::OpenParen.chars()));
    assert(!lit(s, pos, Text::OpenBrace.chars()));
    assert(lit(s, end, Text::CloseParen.chars()));
    assert(m_set(s, pos).node is None);
    lemma_skip_stays(s, pos + 1);
    lemma_skip_stays(s, end);
    let inner = m_expr(s, pos + 1).node->0;
    let n = m_primary(s, pos).node->0;
    assert(n.inner == seq![inner]);
    assert(n.inner[0] == inner);
}

/// A primary that no complement mark follows is read as a postfix.
proof fn lemma_postfix_plain(s: Seq<char>, pos: int, e: ExprView, end: int)
    requires
        primary_reads(s, pos, e, end),
        no_mark(s, end),
    ensures
        postfix_reads(s, pos, e, end),
{
    lemma_skip_stays(s, end);
    lemma_lit_one(s, end, '\'');
    let p = m_primary(s, pos).node->0;
    assert(m_marks(s, end, end).nodes == Seq::<Node>::empty());
    let n = m_postfix(s, pos).node->0;
    assert(n.inner =~= seq![p]);
    assert(n.inner[0] == p);
    assert(complemented(e, 0) == e);
}

/// A primary with one complement mark is read as the complement.
proof fn lemma_postfix_marked(s: Seq<char>, pos: int, e: ExprView, end: int)
    requires
        primary_reads(s, pos, e, end),
        has_char(s, end, '\''),
        no_mark(s, end + 1),
    ensures
        postfix_reads(s, pos, ExprView::Complement(Box::new(e)), end + 1),
{
    lemma_skip_stays(s, end);
    lemma_skip_stays(s, end + 1);
    lemma_lit_one(s, end, '\'');
    lemma_lit_one(s, end + 1, '\'');
    let p = m_primary(s, pos).node->0;
    let mark = m_leaf(s, end, Rule::complement).node->0;
    assert(mark.end == end + 1);
    assert(advances(s, end, skip(s, mark.end)));
    assert(m_marks(s, end + 1, end + 1).nodes == Seq::<Node>::empty());
    assert(m_marks(s, end, end).nodes =~= seq![mark]);
    let n = m_postfix(s, pos).node->0;
    assert(n.inner =~= seq![p, mark]);
    assert(n.inner[0] == p);
    assert(complemented(e, 0) == e);
    assert(complemented(e, 1) == ExprView::Complement(Box::new(complemented(e, 0))));
}

/// The node that the operand of a chain of `level` matches at `pos`.
pub open spec fn operand_node(s: Seq<char>, pos: int, level: Rule) -> Option<Node> {
    if level == Rule::add {
        m_chain(s, pos, Rule::mul).node
    } else {
        m_postfix(s, pos).node
    }
}

/// An operand that no operator of the level follows is read as a chain.
proof fn lemma_chain_single(s: Seq<char>, pos: int, level: Rule, e: ExprView, end: int)
    requires
        level == Rule::add || level == Rule::mul,
        operand_reads(s, pos, level, e, end),
        no_sign(s, end, level),
    ensures
        chain_reads(s, pos, level, e, end),
{
    lemma_skip_stays(s, end);
    let c1 = sign_of(first_sign(level))->0;
    let c2 = sign_of(second_sign(level))->0;
    lemma_lit_one(s, end, c1);
    lemma_lit_one(s, end, c2);
    let head = operand_node(s, pos, level)->0;
    assert(m_sign(s, end, level).node is None);
    assert(m_chain_tail(s, end, end, level).nodes == Seq::<Node>::empty());
    assert(m_chain_tail(s, end, end, level).end == end);
    let n = m_chain(s, pos, level).node->0;
    assert(n.inner =~= seq![head]);
    assert(n.inner[0] == head);
    assert(links(1) == 0);
    assert(chain_upto(n, s, level, 0) == operand_in(n, s, level, 0));
}

/// Two operands with an operator of the level between them, and none after
/// them, are matched as a chain of the three.
proof fn lemma_chain_pair_nodes(
    s: Seq<char>,
    pos: int,
    level: Rule,
    sign: Rule,
    mid: int,
    end: int,
)
    requires
        level == Rule::add || level == Rule::mul,
        sign == first_sign(level) || sign == second_sign(level),
        0 <= pos < mid,
        mid + 1 < end <= s.len(),
        operand_node(s, pos, level) matches Some(head) && head.end == mid,
        has_char(s, mid, sign_of(sign)->0),
        stays(s, mid + 1),
        operand_node(s, mid + 1, level) matches Some(second) && second.end == end,
        no_sign(s, end, level),
    ensures
        m_chain(s, pos, level).node matches Some(n) && n.rule == level && n.start == pos && n.end
            == end && n.inner.len() == 3 && n.inner[0] == operand_node(s, pos, level)->0
            && n.inner[1].rule == sign && n.inner[2] == operand_node(s, mid + 1, level)->0,
{
    lemma_skip_stays(s, mid);
    lemma_skip_stays(s, mid + 1);
    lemma_skip_stays(s, end);
    let c1 = sign_of(first_sign(level))->0;
    let c2 = sign_of(second_sign(level))->0;
    lemma_lit_one(s, mid, c1);
    lemma_lit_one(s, mid, c2);
    lemma_lit_one(s, end, c1);
    lemma_lit_one(s, end, c2);
    let head = operand_node(s, pos, level)->0;
    let second = operand_node(s, mid + 1, level)->0;
    let found = m_sign(s, mid, level);
    assert(found.node is Some && found.node->0.rule == sign && found.node->0.end == mid + 1) by {
        if sign == first_sign(level) {
            assert(leaf_end(s, mid, first_sign(level)) == Some(mid + 1));
        } else {
            assert(leaf_end(s, mid, first_sign(level)) is None);
            assert(leaf_end(s, mid, second_sign(level)) == Some(mid + 1));
        }
    }
    let op = found.node->0;
    assert(skip(s, op.end) == mid + 1);
    assert(skip(s, second.end) == end);
    assert(m_sign(s, end, level).node is None) by {
        assert(leaf_end(s, end, first_sign(level)) is None);
        assert(leaf_end(s, end, second_sign(level)) is None);
    }
    let last = m_chain_tail(s, end, end, level);
    assert(last.nodes == Seq::<Node>::empty() && last.end == end);
    let tail = m_chain_tail(s, mid, mid, level);
    assert(tail.nodes == seq![op, second] + last.nodes && tail.end == last.end);
    assert(tail.nodes =~= seq![op, second]);
    let n = m_chain(s, pos, level).node->0;
    assert(n.inner == seq![head] + tail.nodes);
    assert(n.inner =~= seq![head, op, second]);
}

/// Two operands with an operator of the level between them, and none after
/// them, are read as the two joined.
proof fn lemma_chain_pair(
    s: Seq<char>,
    pos: int,
    level: Rule,
    sign: Rule,
    l: ExprView,
    mid: int,
    r: ExprView,
    end: int,
)
    requires
        level == Rule::add || level == Rule::mul,
        sign == first_sign(level) || sign == second_sign(level),
        operand_reads(s, pos, level, l, mid),
        has_char(s, mid, sign_of(sign)->0),
        stays(s, mid + 1),
        operand_reads(s, mid + 1, level, r, end),
        no_sign(s, end, level),
    ensures
        joined(l, sign, r, level) is Ok,
        chain_reads(s, pos, level, joined(l, sign, r, level)->Ok_0, end),
{
    lemma_chain_pair_nodes(s, pos, level, sign, mid, end);
    let n = m_chain(s, pos, level).node->0;
    assert(links(3) == 1);
    assert(operand_in(n, s, level, 0) == Ok::<ExprView, ParseErrorView>(l));
    assert(operand_in(n, s, level, 2) == Ok::<ExprView, ParseErrorView>(r));
    assert(chain_upto(n, s, level, 0) == operand_in(n, s, level, 0));
    assert(chain_upto(n, s, level, 1) == joined(l, n.inner[1].rule, r, level));
    assert(chain_of(n, s, level) == chain_upto(n, s, level, 1));
}

/// A chain of `add` is read as an expression.
proof fn lemma_expr_of_chain(s: Seq<char>, pos: int, e: ExprView, end: int)
    requires
        chain_reads(s, pos, Rule::add, e, end),
    ensures
        expr_reads(s, pos, e, end),
{
    let inner = m_chain(s, pos, Rule::add).node->0;
    let n = m_expr(s, pos).node->0;
    assert(n.inner =~= seq![inner]);
    assert(n.inner[0] == inner);
    assert(expr_of(inner, s) == chain_of(inner, s, Rule::add));
}

/// A closing parenthesis or a semicolon ends an expression at every level.
proof fn lemma_closing_stops(s: Seq<char>, p: int)
    requires
        closing(s, p),
    ensures
        no_mark(s, p),
        no_sign(s, p, Rule::mul),
        no_sign(s, p, Rule::add),
{
}

/// A primary that a closing parenthesis or a semicolon follows is read as
/// an expression.
proof fn lemma_expr_of_primary(s: Seq<char>, pos: int, e: ExprView, end: int)
    requires
        primary_reads(s, pos, e, end),
        closing(s, end),
    ensures
        expr_reads(s, pos, e, end),
{
    lemma_closing_stops(s, end);
    lemma_postfix_plain(s, pos, e, end);
    lemma_chain_single(s, pos, Rule::mul, e, end);
    lemma_chain_single(s, pos, Rule::add, e, end);
    lemma_expr_of_chain(s, pos, e, end);
}

/// The sign between the operands of `e`, and the level at which it joins.
pub open spec fn sign_in(e: ExprView) -> Option<(Rule, Rule)> {
    match e {
        ExprView::Union(_, _) => Some((Rule::union, Rule::add)),
        ExprView::SymDiff(_, _) => Some((Rule::symmetric_difference, Rule::add)),
        ExprView::Intersect(_, _) => Some((Rule::intersection, Rule::mul)),
        ExprView::Diff(_, _) => Some((Rule::difference, Rule::mul)),
        _ => None,
    }
}

/// The text of an expression, wherever it stands with a closing parenthesis
/// or a semicolon after it, is read as that expression.
pub proof fn lemma_reads_expr(e: ExprView, s: Seq<char>, pos: int)
    requires
        writable(e),
        0 <= pos,
        lit(s, pos, written(e)),
        closing(s, pos + written(e).len()),
    ensures
        expr_reads(s, pos, e, pos + written(e).len()),
    decreases e, 2nat,
{
    let end = pos + written(e).len();
    lemma_closing_stops(s, end);
    match e {
        ExprView::Ident(name) => {
            lemma_reads_ident(s, pos, name);
            lemma_primary_of_set(s, pos, e, end);
            lemma_expr_of_primary(s, pos, e, end);
        },
        ExprView::Empty => {
            lemma_lit_one(s, pos, '\u{2205}');
            lemma_reads_empty(s, pos);
            lemma_primary_of_set(s, pos, e, end);
            lemma_expr_of_primary(s, pos, e, end);
        },
        ExprView::SetLiteral(vs) => {
            lemma_reads_literal(s, pos, vs);
            lemma_primary_of_set(s, pos, e, end);
            lemma_expr_of_primary(s, pos, e, end);
        },
        ExprView::Range(a, b) => {
            lemma_reads_range(s, pos, a, b);
            lemma_primary_of_set(s, pos, e, end);
            lemma_expr_of_primary(s, pos, e, end);
        },
        ExprView::Complement(x) => {
            let group = between(written(*x));
            lemma_lit_parts(s, pos, group, seq!['\'']);
            lemma_reads_group(*x, s, pos);
            let mark = pos + group.len();
            lemma_lit_one(s, mark, '\'');
            lemma_postfix_marked(s, pos, *x, mark);
            lemma_chain_single(s, pos, Rule::mul, e, end);
            lemma_chain_single(s, pos, Rule::add, e, end);
            lemma_expr_of_chain(s, pos, e, end);
        },
        ExprView::Union(l, r) => {
            lemma_reads_joined(e, *l, *r, s, pos);
        },
        ExprView::SymDiff(l, r) => {
            lemma_reads_joined(e, *l, *r, s, pos);
        },
        ExprView::Intersect(l, r) => {
            lemma_reads_joined(e, *l, *r, s, pos);
        },
        ExprView::Diff(l, r) => {
            lemma_reads_joined(e, *l, *r, s, pos);
        },
    }
}

/// The text of an expression in parentheses is read as a primary.
proof fn lemma_reads_group(e: ExprView, s: Seq<char>, pos: int)
    requires
        writable(e),
        0 <= pos,
        lit(s, pos, between(written(e))),
    ensures
        primary_reads(s, pos, e, pos + between(written(e)).len()),
    decreases e, 3nat,
{
    let text = written(e);
    let open = seq!['('] + text;
    lemma_lit_parts(s, pos, open, seq![')']);
    lemma_lit_parts(s, pos, seq!['('], text);
    lemma_lit_one(s, pos, '(');
    let close = pos + open.len();
    lemma_lit_one(s, close, ')');
    lemma_written_start(e);
    assert(s[pos + 1 + 0] == text[0]);
    lemma_reads_expr(e, s, pos + 1);
    lemma_primary_of_group(s, pos, e, close);
}

/// The text of two operands with a sign between them is read as the two
/// joined.
proof fn lemma_reads_joined(e: ExprView, l: ExprView, r: ExprView, s: Seq<char>, pos: int)
    requires
        sign_in(e) matches Some((sign, level)) && joined(l, sign, r, level) == Ok::<
            ExprView,
            ParseErrorView,
        >(e) && written(e) == between(written(l)) + seq![sign_of(sign)->0] + between(written(r)),
        writable(l),
        writable(r),
        0 <= pos,
        lit(s, pos, written(e)),
        closing(s, pos + written(e).len()),
        decreases_to!(e => l),
        decreases_to!(e => r),
    ensures
        expr_reads(s, pos, e, pos + written(e).len()),
    decreases e, 1nat,
{
    let (sign, level) = sign_in(e)->0;
    let c = sign_of(sign)->0;
    let left = between(written(l));
    let right = between(written(r));
    let end = pos + written(e).len();
    lemma_closing_stops(s, end);
    lemma_lit_parts(s, pos, left + seq![c], right);
    lemma_lit_parts(s, pos, left, seq![c]);
    let mid = pos + left.len();
    lemma_lit_one(s, mid, c);
    lemma_lit_parts(s, mid + 1, seq!['('], written(r) + seq![')']);
    assert(right =~= seq!['('] + (written(r) + seq![')']));
    lemma_lit_one(s, mid + 1, '(');
    lemma_reads_group(l, s, pos);
    lemma_reads_group(r, s, mid + 1);
    lemma_postfix_plain(s, pos, l, mid);
    lemma_postfix_plain(s, mid + 1, r, end);
    if level == Rule::add {
        lemma_chain_single(s, pos, Rule::mul, l, mid);
        lemma_chain_single(s, mid + 1, Rule::mul, r, end);
        lemma_chain_pair(s, pos, Rule::add, sign, l, mid, r, end);
    } else {
        lemma_chain_pair(s, pos, Rule::mul, sign, l, mid, r, end);
        lemma_chain_single(s, pos, Rule::add, e, end);
    }
    lemma_expr_of_chain(s, pos, e, end);
}

/// `st` can be written: its name is a name and its expression can be
/// written.
pub open spec fn writable_stmt(st: StmtView) -> bool {
    match st {
        StmtView::Let { name, value } => is_name(name) && writable(value),
        StmtView::Print(e) => writable(e),
    }
}

/// The text of a statement, without blanks.
pub open spec fn stmt_text(st: StmtView) -> Seq<char> {
    match st {
        StmtView::Let { name, value } => Text::Let.chars() + name + seq!['='] + written(value)
            + seq![';'],
        StmtView::Print(e) => Text::Print.chars() + written(e) + seq![';'],
    }
}

/// `m_stmt` matches at `pos` up to `end`, and the builder makes `st` of the
/// match.
pub open spec fn stmt_reads(s: Seq<char>, pos: int, st: StmtView, end: int) -> bool {
    &&& 0 <= pos < end <= s.len()
    &&& m_stmt(s, pos).node matches Some(n)
    &&& n.rule == Rule::stmt
    &&& n.end == end
    &&& stmt_of(n, s) == Ok::<StmtView, ParseErrorView>(st)
}

/// The text of a declaration is read as that declaration.
proof fn lemma_reads_decl(name: Seq<char>, value: ExprView, s: Seq<char>, pos: int)
    requires
        is_name(name),
        writable(value),
        0 <= pos,
        lit(s, pos, stmt_text(StmtView::Let { name, value })),
    ensures
        stmt_reads(
            s,
            pos,
            StmtView::Let { name, value },
            pos + stmt_text(StmtView::Let { name, value }).len(),
        ),
{
    let word = Text::Let.chars();
    let t1 = word + name;
    let t2 = t1 + seq!['='];
    let t3 = t2 + written(value);
    lemma_lit_parts(s, pos, t3, seq![';']);
    lemma_lit_parts(s, pos, t2, written(value));
    lemma_lit_parts(s, pos, t1, seq!['=']);
    lemma_lit_parts(s, pos, word, name);
    let p1 = pos + 3;
    let p2 = pos + t1.len();
    let p3 = pos + t2.len();
    let p4 = pos + t3.len();
    lemma_lit_one(s, p2, '=');
    lemma_lit_one(s, p4, ';');
    assert(s[p1 + 0] == name[0]);
    lemma_skip_stays(s, p1);
    lemma_reads_name(s, p1, name);
    lemma_skip_stays(s, p2);
    lemma_written_start(value);
    assert(s[p3 + 0] == written(value)[0]);
    lemma_skip_stays(s, p3);
    lemma_reads_expr(value, s, p3);
    lemma_skip_stays(s, p4);
    assert(lit(s, p2, Text::Assign.chars()));
    assert(lit(s, p4, Text::Semicolon.chars()));
    let id = m_leaf(s, p1, Rule::ident).node->0;
    let e = m_expr(s, p3).node->0;
    let decl = m_decl(s, pos).node->0;
    assert(decl.inner =~= seq![id, e]);
    assert(decl.inner[0] == id);
    assert(decl.inner[1] == e);
    let n = m_stmt(s, pos).node->0;
    assert(n.inner =~= seq![decl]);
    assert(n.inner[0] == decl);
}

/// The text of a print statement is read as that statement.
proof fn lemma_reads_print(e: ExprView, s: Seq<char>, pos: int)
    requires
        writable(e),
        0 <= pos,
        lit(s, pos, stmt_text(StmtView::Print(e))),
    ensures
        stmt_reads(s, pos, StmtView::Print(e), pos + stmt_text(StmtView::Print(e)).len()),
{
    let word = Text::Print.chars();
    let t1 = word + written(e);
    lemma_lit_parts(s, pos, t1, seq![';']);
    lemma_lit_parts(s, pos, word, written(e));
    let p1 = pos + 5;
    let p2 = pos + t1.len();
    lemma_lit_one(s, p2, ';');
    lemma_written_start(e);
    assert(s[p1 + 0] == written(e)[0]);
    lemma_skip_stays(s, p1);
    lemma_reads_expr(e, s, p1);
    lemma_skip_stays(s, p2);
    assert(lit(s, p2, Text::Semicolon.chars()));
    // A text that begins with `print` does not begin with `let`.
    assert(s[pos + 0] == word[0]);
    assert(!lit(s, pos, Text::Let.chars())) by {
        if lit(s, pos, Text::Let.chars()) {
            assert(s[pos + 0] == Text::Let.chars()[0]);
        }
    }
    assert(m_decl(s, pos).node is None);
    let value = m_expr(s, p1).node->0;
    let print = m_print(s, pos).node->0;
    assert(print.inner =~= seq![value]);
    assert(print.inner[0] == value);
    let n = m_stmt(s, pos).node->0;
    assert(n.inner =~= seq![print]);
    assert(n.inner[0] == print);
}

/// The text of a statement is read as that statement.
pub proof fn lemma_reads_stmt(st: StmtView, s: Seq<char>, pos: int)
    requires
        writable_stmt(st),
        0 <= pos,
        lit(s, pos, stmt_text(st)),
    ensures
        stmt_reads(s, pos, st, pos + stmt_text(st).len()),
{
    match st {
        StmtView::Let { name, value } => lemma_reads_decl(name, value, s, pos),
        StmtView::Print(e) => lemma_reads_print(e, s, pos),
    }
}

/// The texts of the statements, one after the other.
pub open spec fn program_text(stmts: Seq<StmtView>) -> Seq<char>
    decreases stmts.len(),
{
    if stmts.len() == 0 {
        Seq::empty()
    } else {
        stmt_text(stmts[0]) + program_text(stmts.drop_first())
    }
}

/// Every statement can be written.
pub open spec fn all_writable(stmts: Seq<StmtView>) -> bool {
    forall|i: int| 0 <= i < stmts.len() ==> writable_stmt(stmts[i])
}

/// The text of a program begins with a character that is not skipped.
proof fn lemma_program_text_start(stmts: Seq<StmtView>)
    requires
        stmts.len() > 0,
    ensures
        program_text(stmts).len() > 0,
        solid(program_text(stmts)[0]),
{
    let first = stmt_text(stmts[0]);
    match stmts[0] {
        StmtView::Let { name, value } => {
            assert(first[0] == Text::Let.chars()[0]);
        },
        StmtView::Print(e) => {
            assert(first[0] == Text::Print.chars()[0]);
        },
    }
    assert(program_text(stmts)[0] == first[0]);
}

/// `nodes` are matches of `stmt` that the builder makes `stmts` of.
pub open spec fn are_stmts(nodes: Seq<Node>, s: Seq<char>, stmts: Seq<StmtView>) -> bool {
    &&& nodes.len() == stmts.len()
    &&& forall|i: int|
        0 <= i < nodes.len() ==> (#[trigger] nodes[i]).rule == Rule::stmt && stmt_of(nodes[i], s)
            == Ok::<StmtView, ParseErrorView>(stmts[i])
}

/// The statements of matches of `stmt` are their statements, in order.
proof fn lemma_stmts_of_nodes(nodes: Seq<Node>, s: Seq<char>, stmts: Seq<StmtView>)
    requires
        are_stmts(nodes, s, stmts),
    ensures
        stmts_of(nodes, s) == Ok::<Seq<StmtView>, ParseErrorView>(stmts),
    decreases nodes.len(),
{
    if nodes.len() == 0 {
        assert(stmts =~= Seq::<StmtView>::empty());
    } else {
        let front = nodes.drop_last();
        assert forall|i: int| 0 <= i < front.len() implies (#[trigger] front[i]).rule
            == Rule::stmt && stmt_of(front[i], s) == Ok::<StmtView, ParseErrorView>(
            stmts.drop_last()[i],
        ) by {
            assert(front[i] == nodes[i]);
        }
        lemma_stmts_of_nodes(front, s, stmts.drop_last());
        assert(nodes.last() == nodes[nodes.len() - 1]);
        assert(stmts.drop_last().push(stmts.last()) =~= stmts);
    }
}

/// `stmt*` reads the text of a list of statements that ends the source.
proof fn lemma_reads_stmts(stmts: Seq<StmtView>, s: Seq<char>, at: int, end: int)
    requires
        all_writable(stmts),
        0 <= at,
        lit(s, at, program_text(stmts)),
        at + program_text(stmts).len() == s.len(),
    ensures
        are_stmts(m_stmts(s, at, end).nodes, s, stmts),
        stmts.len() > 0 ==> m_stmts(s, at, end).end == s.len(),
        stmts.len() == 0 ==> m_stmts(s, at, end).end == end,
    decreases stmts.len(),
{
    if stmts.len() == 0 {
        assert(at == s.len());
        assert(!lit(s, at, Text::Let.chars()));
        assert(!lit(s, at, Text::Print.chars()));
        assert(m_stmt(s, at).node is None);
    } else {
        let first = stmts[0];
        let rest = stmts.drop_first();
        lemma_lit_parts(s, at, stmt_text(first), program_text(rest));
        lemma_reads_stmt(first, s, at);
        let next = at + stmt_text(first).len();
        if rest.len() > 0 {
            lemma_program_text_start(rest);
            assert(s[next + 0] == program_text(rest)[0]);
        }
        lemma_skip_stays(s, next);
        assert(all_writable(rest)) by {
            assert forall|i: int| 0 <= i < rest.len() implies writable_stmt(rest[i]) by {
                assert(rest[i] == stmts[i + 1]);
            }
        }
        lemma_reads_stmts(rest, s, next, next);
        let n = m_stmt(s, at).node->0;
        let tail = m_stmts(s, next, next);
        let all = m_stmts(s, at, end);
        assert(advances(s, at, skip(s, n.end)));
        assert(all.nodes == seq![n] + tail.nodes);
        assert forall|i: int| 0 <= i < all.nodes.len() implies (#[trigger] all.nodes[i]).rule
            == Rule::stmt && stmt_of(all.nodes[i], s) == Ok::<StmtView, ParseErrorView>(
            stmts[i],
        ) by {
            if i > 0 {
                assert(all.nodes[i] == tail.nodes[i - 1]);
                assert(stmts[i] == rest[i - 1]);
            }
        }
    }
}

/// Every program that can be written has a text, and parsing that text
/// gives the program: its statements in their order, each operator with its
/// operands, each name and number as it was.
pub proof fn law_round_trip(p: ProgramView)
    requires
        all_writable(p.stmts),
    ensures
        parsed(program_text(p.stmts)) == Ok::<ProgramView, ParseErrorView>(p),
{
    let s = program_text(p.stmts);
    if p.stmts.len() > 0 {
        lemma_program_text_start(p.stmts);
    }
    lemma_skip_stays(s, 0);
    assert(lit(s, 0, s));
    lemma_reads_stmts(p.stmts, s, 0, 0);
    let body = m_stmts(s, 0, 0);
    assert(body.end == s.len());
    lemma_skip_stays(s, s.len() as int);
    let eoi = m_leaf(s, s.len() as int, Rule::EOI).node->0;
    let n = m_program(s, 0).node->0;
    assert(n.inner == body.nodes.push(eoi));
    assert(n.inner.drop_last() =~= body.nodes);
    assert(n.inner.last() == eoi);
    lemma_stmts_of_nodes(body.nodes, s, p.stmts);
    assert(stmts_of(n.inner, s) == stmts_of(body.nodes, s));
    assert(parse_result(Rule::program, s) == Ok::<Seq<Node>, Failure>(seq![n]));
}

} // verus!
