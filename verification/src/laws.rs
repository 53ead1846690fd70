//! Laws of the set language, proved of the spec functions that the
//! evaluator's contracts are stated in.

use crate::ast::{ExprView, StmtView};
use crate::eval::{bind, eval, run, EnvView};
use vstd::prelude::*;

verus! {

/// How many of the first `n` statements are `print` statements.
pub open spec fn prints(stmts: Seq<StmtView>, n: nat) -> nat
    decreases n,
{
    if n == 0 {
        0
    } else if stmts[n - 1] is Print {
        prints(stmts, (n - 1) as nat) + 1
    } else {
        prints(stmts, (n - 1) as nat)
    }
}

/// A program that runs to its end prints one value for each of its `print`
/// statements.
pub proof fn law_one_value_per_print(stmts: Seq<StmtView>, env: EnvView, n: nat)
    requires
        n <= stmts.len(),
    ensures
        run(stmts, env, n).result matches Ok(printed) ==> printed.len() == prints(stmts, n),
    decreases n,
{
    if n > 0 {
        law_one_value_per_print(stmts, env, (n - 1) as nat);
    }
}

/// A program in which no statement is a `print` prints nothing: if it runs
/// to its end, its output is empty.
pub proof fn law_no_print_no_output(stmts: Seq<StmtView>, env: EnvView, n: nat)
    requires
        n <= stmts.len(),
        forall|i: int| 0 <= i < n ==> stmts[i] is Let,
    ensures
        run(stmts, env, n).result matches Ok(printed) ==> printed.len() == 0,
    decreases n,
{
    if n > 0 {
        law_no_print_no_output(stmts, env, (n - 1) as nat);
        assert(stmts[n - 1] is Let);
    }
}

/// A range has the same value whichever of its bounds is written first.
pub proof fn law_range_is_symmetric(a: i32, b: i32, env: EnvView)
    ensures
        eval(ExprView::Range(a, b), env) == eval(ExprView::Range(b, a), env),
{
    assert(crate::sets::interval(a, b) =~= crate::sets::interval(b, a));
}

/// The complement of the complement of `e` is the part of the value of `e`
/// that lies in the universe.
pub proof fn law_double_complement(e: ExprView, env: EnvView)
    requires
        env.universe is Some,
        eval(e, env) is Ok,
    ensures
        eval(ExprView::Complement(Box::new(ExprView::Complement(Box::new(e)))), env) == Ok::<
            Set<i32>,
            crate::eval::EvalErrorView,
        >(eval(e, env)->Ok_0.intersect(env.universe->Some_0)),
{
    let u = env.universe->Some_0;
    let s = eval(e, env)->Ok_0;
    let once = ExprView::Complement(Box::new(e));
    assert(eval(once, env) == Ok::<Set<i32>, crate::eval::EvalErrorView>(u.difference(s)));
    assert(u.difference(u.difference(s)) =~= s.intersect(u));
}

/// Union, intersection and symmetric difference do not depend on the order
/// of their operands.
pub proof fn law_commutative(l: ExprView, r: ExprView, env: EnvView)
    requires
        eval(l, env) is Ok,
        eval(r, env) is Ok,
    ensures
        eval(ExprView::Union(Box::new(l), Box::new(r)), env) == eval(
            ExprView::Union(Box::new(r), Box::new(l)),
            env,
        ),
        eval(ExprView::Intersect(Box::new(l), Box::new(r)), env) == eval(
            ExprView::Intersect(Box::new(r), Box::new(l)),
            env,
        ),
        eval(ExprView::SymDiff(Box::new(l), Box::new(r)), env) == eval(
            ExprView::SymDiff(Box::new(r), Box::new(l)),
            env,
        ),
{
    let a = eval(l, env)->Ok_0;
    let b = eval(r, env)->Ok_0;
    assert(a.union(b) =~= b.union(a));
    assert(a.intersect(b) =~= b.intersect(a));
    assert(crate::sets::sym_diff(a, b) =~= crate::sets::sym_diff(b, a));
}

/// Difference depends on the order of its operands: swapping them gives the
/// same value only where the two operands have the same value.
pub proof fn law_difference_is_not_commutative(l: ExprView, r: ExprView, env: EnvView)
    requires
        eval(l, env) is Ok,
        eval(r, env) is Ok,
    ensures
        eval(ExprView::Diff(Box::new(l), Box::new(r)), env) == eval(
            ExprView::Diff(Box::new(r), Box::new(l)),
            env,
        ) <==> eval(l, env) == eval(r, env),
{
    let a = eval(l, env)->Ok_0;
    let b = eval(r, env)->Ok_0;
    if a.difference(b) == b.difference(a) {
        assert forall|x: i32| a.contains(x) <==> b.contains(x) by {
            assert(a.difference(b).contains(x) == b.difference(a).contains(x));
        }
        assert(a =~= b);
    }
}

/// Binding a name a second time leaves nothing of the first binding.
pub proof fn law_rebinding_replaces(
    env: EnvView,
    name: Seq<char>,
    first: Set<i32>,
    second: Set<i32>,
)
    ensures
        bind(bind(env, name, first), name, second) == bind(env, name, second),
        eval(ExprView::Ident(name), bind(bind(env, name, first), name, second)) == Ok::<
            Set<i32>,
            crate::eval::EvalErrorView,
        >(second),
{
    assert(bind(bind(env, name, first), name, second).vars =~= bind(env, name, second).vars);
}

/// After a `let` has run, a read of its name gives the value that its
/// expression had, whatever the name was bound to before.
pub proof fn law_read_after_let(stmts: Seq<StmtView>, env: EnvView, n: nat)
    requires
        0 < n <= stmts.len(),
        stmts[n - 1] is Let,
        run(stmts, env, n).result is Ok,
    ensures
        eval(ExprView::Ident(stmts[n - 1]->name), run(stmts, env, n).env) == eval(
            stmts[n - 1]->value,
            run(stmts, env, (n - 1) as nat).env,
        ),
{
}

} // verus!
