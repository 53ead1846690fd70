//! The evaluator: what an expression denotes in an environment, and what a
//! program prints.
//!
//! The meaning of the language is given by the spec functions [`eval`] and
//! [`run`]; [`Env::eval_expr`] and [`Env::eval_program`] are proved to compute
//! them.

use crate::ast::{Expr, ExprView, Program, Stmt, StmtView};
use crate::format::{push_decimal, render, render_items};
use crate::sets::{
    ascending, elements, from_values, interval, range_set, set_difference, set_intersection,
    set_symmetric_difference, set_union, sym_diff, SetValue,
};
use std::collections::BTreeSet;
use vstd::hash_map::StringHashMap;
use vstd::prelude::*;

verus! {

/// The variables bound so far, and the universe that complement is taken in.
pub struct Env {
    pub vars: StringHashMap<SetValue>,
    pub universe: Option<SetValue>,
}

/// Why an evaluation stopped.
#[derive(Debug)]
pub enum EvalError {
    /// The named variable is read before any `let` has bound it.
    Undefined(String),
    /// A complement is taken before `universe` has been bound.
    NoUniverse,
}

/// Ghost counterpart of [`Env`].
pub struct EnvView {
    pub vars: Map<Seq<char>, Set<i32>>,
    pub universe: Option<Set<i32>>,
}

/// Ghost counterpart of [`EvalError`].
pub enum EvalErrorView {
    Undefined(Seq<char>),
    NoUniverse,
}

impl View for Env {
    type V = EnvView;

    open spec fn view(&self) -> EnvView {
        EnvView {
            vars: self.vars@.map_values(|s: SetValue| s@),
            universe: match self.universe {
                Some(u) => Some(u@),
                None => None,
            },
        }
    }
}

impl View for EvalError {
    type V = EvalErrorView;

    open spec fn view(&self) -> EvalErrorView {
        match self {
            EvalError::Undefined(name) => EvalErrorView::Undefined(name@),
            EvalError::NoUniverse => EvalErrorView::NoUniverse,
        }
    }
}

/// The variable whose binding is also the universe.
pub open spec fn universe_name() -> Seq<char> {
    seq!['u', 'n', 'i', 'v', 'e', 'r', 's', 'e']
}

/// The environment in which nothing is bound.
pub open spec fn empty_env() -> EnvView {
    EnvView { vars: Map::empty(), universe: None }
}

/// `env` after `name` has been bound to `value`. An earlier binding of `name`
/// is gone; binding `universe` also sets the universe.
pub open spec fn bind(env: EnvView, name: Seq<char>, value: Set<i32>) -> EnvView {
    EnvView {
        vars: env.vars.insert(name, value),
        universe: if name == universe_name() {
            Some(value)
        } else {
            env.universe
        },
    }
}

/// Both operands' values, or the error of the first operand that has one.
pub open spec fn both(
    l: Result<Set<i32>, EvalErrorView>,
    r: Result<Set<i32>, EvalErrorView>,
) -> Result<(Set<i32>, Set<i32>), EvalErrorView> {
    match l {
        Err(e) => Err(e),
        Ok(a) => match r {
            Err(e) => Err(e),
            Ok(b) => Ok((a, b)),
        },
    }
}

/// What `e` denotes in `env`.
pub open spec fn eval(e: ExprView, env: EnvView) -> Result<Set<i32>, EvalErrorView>
    decreases e,
{
    match e {
        ExprView::Ident(name) => if env.vars.contains_key(name) {
            Ok(env.vars[name])
        } else {
            Err(EvalErrorView::Undefined(name))
        },
        ExprView::Empty => Ok(Set::empty()),
        ExprView::SetLiteral(values) => Ok(values.to_set()),
        ExprView::Range(a, b) => Ok(interval(a, b)),
        ExprView::Complement(inner) => match env.universe {
            None => Err(EvalErrorView::NoUniverse),
            Some(u) => match eval(*inner, env) {
                Err(e) => Err(e),
                Ok(s) => Ok(u.difference(s)),
            },
        },
        ExprView::Union(l, r) => match both(eval(*l, env), eval(*r, env)) {
            Err(e) => Err(e),
            Ok((a, b)) => Ok(a.union(b)),
        },
        ExprView::Intersect(l, r) => match both(eval(*l, env), eval(*r, env)) {
            Err(e) => Err(e),
            Ok((a, b)) => Ok(a.intersect(b)),
        },
        ExprView::Diff(l, r) => match both(eval(*l, env), eval(*r, env)) {
            Err(e) => Err(e),
            Ok((a, b)) => Ok(a.difference(b)),
        },
        ExprView::SymDiff(l, r) => match both(eval(*l, env), eval(*r, env)) {
            Err(e) => Err(e),
            Ok((a, b)) => Ok(sym_diff(a, b)),
        },
    }
}

/// Where a run stands: the environment reached, and what has been printed or
/// the error that stopped it.
pub struct Run {
    pub env: EnvView,
    pub result: Result<Seq<Set<i32>>, EvalErrorView>,
}

/// One more statement after `before`. Nothing happens after an error; a
/// statement whose expression fails leaves the environment as it was.
pub open spec fn step(before: Run, stmt: StmtView) -> Run {
    match before.result {
        Err(_) => before,
        Ok(printed) => match stmt {
            StmtView::Let { name, value } => match eval(value, before.env) {
                Ok(v) => Run { env: bind(before.env, name, v), result: Ok(printed) },
                Err(e) => Run { env: before.env, result: Err(e) },
            },
            StmtView::Print(e) => match eval(e, before.env) {
                Ok(v) => Run { env: before.env, result: Ok(printed.push(v)) },
                Err(err) => Run { env: before.env, result: Err(err) },
            },
        },
    }
}

/// The first `n` statements of `stmts`, run in order from `env`.
pub open spec fn run(stmts: Seq<StmtView>, env: EnvView, n: nat) -> Run
    decreases n,
{
    if n == 0 {
        Run { env, result: Ok(Seq::empty()) }
    } else {
        step(run(stmts, env, (n - 1) as nat), stmts[n - 1])
    }
}

/// `r` is the executable form of `expected`.
pub open spec fn is_value(
    r: Result<SetValue, EvalError>,
    expected: Result<Set<i32>, EvalErrorView>,
) -> bool {
    match (r, expected) {
        (Ok(s), Ok(t)) => s@ == t,
        (Err(e), Err(f)) => e@ == f,
        _ => false,
    }
}

/// `r` is the executable form of `expected`.
pub open spec fn is_output(
    r: Result<Vec<SetValue>, EvalError>,
    expected: Result<Seq<Set<i32>>, EvalErrorView>,
) -> bool {
    match (r, expected) {
        (Ok(v), Ok(t)) => v@.len() == t.len() && forall|i: int|
            0 <= i < t.len() ==> (#[trigger] v@[i])@ == t[i],
        (Err(e), Err(f)) => e@ == f,
        _ => false,
    }
}

/// A run that has failed stays as it is, whatever follows.
pub proof fn lemma_run_stops(stmts: Seq<StmtView>, env: EnvView, k: nat, n: nat)
    requires
        k <= n,
        run(stmts, env, k).result is Err,
    ensures
        run(stmts, env, n) == run(stmts, env, k),
    decreases n,
{
    if k < n {
        lemma_run_stops(stmts, env, k, (n - 1) as nat);
    }
}

impl Default for Env {
    fn default() -> (env: Self)
        ensures
            env@ == empty_env(),
    {
        let env = Env { vars: StringHashMap::new(), universe: None };
        assert(env@.vars =~= Map::empty());
        env
    }
}

impl Env {
    /// The value of `e` in this environment, or the first error met when the
    /// operands are evaluated from left to right.
    pub fn eval_expr(&self, e: &Expr) -> (r: Result<SetValue, EvalError>)
        ensures
            is_value(r, eval(e@, self@)),
        decreases e,
    {
        match e {
            Expr::Ident(name) => match self.vars.get(name.as_str()) {
                Some(value) => Ok(value.clone()),
                None => Err(EvalError::Undefined(name.clone())),
            },
            Expr::Empty => Ok(BTreeSet::new()),
            Expr::SetLiteral(values) => Ok(from_values(values)),
            Expr::Range(a, b) => Ok(range_set(*a, *b)),
            Expr::Complement(inner) => match &self.universe {
                None => Err(EvalError::NoUniverse),
                Some(u) => match self.eval_expr(inner) {
                    Err(err) => Err(err),
                    Ok(s) => Ok(set_difference(u, &s)),
                },
            },
            Expr::Union(l, r) => {
                let a = self.eval_expr(l)?;
                let b = self.eval_expr(r)?;
                Ok(set_union(&a, &b))
            },
            Expr::Intersect(l, r) => {
                let a = self.eval_expr(l)?;
                let b = self.eval_expr(r)?;
                Ok(set_intersection(&a, &b))
            },
            Expr::Diff(l, r) => {
                let a = self.eval_expr(l)?;
                let b = self.eval_expr(r)?;
                Ok(set_difference(&a, &b))
            },
            Expr::SymDiff(l, r) => {
                let a = self.eval_expr(l)?;
                let b = self.eval_expr(r)?;
                Ok(set_symmetric_difference(&a, &b))
            },
        }
    }

    /// Runs the statements of `p` in order, from this environment. Gives what
    /// the `print` statements printed, in order, or the error of the first
    /// statement that fails; nothing is printed in part. The environment is
    /// left as the statements before the failing one made it.
    pub fn eval_program(&mut self, p: &Program) -> (r: Result<Vec<SetValue>, EvalError>)
        ensures
            is_output(r, run(p@.stmts, old(self)@, p@.stmts.len()).result),
            final(self)@ == run(p@.stmts, old(self)@, p@.stmts.len()).env,
    {
        let ghost stmts = p@.stmts;
        let ghost start = self@;
        let reserved: String = "universe".to_owned();
        proof {
            reveal_strlit("universe");
            assert(reserved@ =~= universe_name());
        }
        let mut prints: Vec<SetValue> = Vec::new();
        let mut i: usize = 0;
        while i < p.stmts.len()
            invariant
                i <= p.stmts.len(),
                stmts == p@.stmts,
                stmts.len() == p.stmts.len(),
                reserved@ == universe_name(),
                start == old(self)@,
                self@ == run(stmts, start, i as nat).env,
                is_output(Ok::<Vec<SetValue>, EvalError>(prints), run(stmts, start, i as nat).result),
            decreases p.stmts.len() - i,
        {
            let ghost before = run(stmts, start, i as nat);
            assert(stmts[i as int] == p.stmts[i as int]@);
            assert(run(stmts, start, (i + 1) as nat) == step(before, stmts[i as int]));
            match &p.stmts[i] {
                Stmt::Let { name, value } => {
                    match self.eval_expr(value) {
                        Err(err) => {
                            proof {
                                lemma_run_stops(stmts, start, (i + 1) as nat, stmts.len());
                            }
                            return Err(err);
                        },
                        Ok(set) => {
                            if *name == reserved {
                                self.universe = Some(set.clone());
                            }
                            self.vars.insert(name.clone(), set);
                            assert(self@.vars =~= bind(before.env, name@, set@).vars);
                        },
                    }
                },
                Stmt::Print(e) => {
                    match self.eval_expr(e) {
                        Err(err) => {
                            proof {
                                lemma_run_stops(stmts, start, (i + 1) as nat, stmts.len());
                            }
                            return Err(err);
                        },
                        Ok(set) => {
                            prints.push(set);
                        },
                    }
                },
            }
            i = i + 1;
        }
        Ok(prints)
    }

    /// The set written out: its members in ascending order, in decimal,
    /// separated by a comma and a space, between braces.
    pub fn format_set(s: &SetValue) -> (text: String)
        ensures
            text@ == render(ascending(s@)),
    {
        let values = elements(s);
        let mut text = String::new();
        text.push('{');
        let mut i: usize = 0;
        while i < values.len()
            invariant
                i <= values.len(),
                text@ == seq!['{'] + render_items(values@.take(i as int)),
            decreases values.len() - i,
        {
            if i > 0 {
                text.push(',');
                text.push(' ');
            }
            push_decimal(&mut text, values[i]);
            proof {
                let next = values@.take(i + 1);
                assert(next.drop_last() =~= values@.take(i as int));
                assert(next.last() == values@[i as int]);
                assert(text@ =~= seq!['{'] + render_items(next));
            }
            i = i + 1;
        }
        text.push('}');
        assert(values@.take(values@.len() as int) =~= values@);
        text
    }
}

/// Runs `p` from an environment in which nothing is bound, and gives what
/// it prints or the error that stops it.
pub fn evaluate(p: &Program) -> (r: Result<Vec<SetValue>, EvalError>)
    ensures
        is_output(r, run(p@.stmts, empty_env(), p@.stmts.len()).result),
{
    let mut env = Env::default();
    env.eval_program(p)
}

} // verus!
