//! That models lose nothing: values with equal models are alike in every part.

use vstd::prelude::*;

use crate::ast::{
    branch_models, command_models, expr_models, fact_models, group_models, names, Action, Command,
    Expr, Fact, Literal, Rule,
};
use crate::commands::outcome_of;
use crate::error::{Error, TypeError};

verus! {

/// Literals with equal models are alike in every part.
pub proof fn law_literal_models_are_faithful(a: Literal, b: Literal)
    requires
        a@ == b@,
    ensures
        match (a, b) {
            (Literal::Int(x), Literal::Int(y)) => x == y,
            (Literal::Float(x), Literal::Float(y)) => x == y,
            (Literal::String(x), Literal::String(y)) => x@ == y@,
            (Literal::Bool(x), Literal::Bool(y)) => x == y,
            (Literal::Unit, Literal::Unit) => true,
            _ => false,
        },
{
}

/// Expressions with equal models are alike in every part.
pub proof fn law_expr_models_are_faithful(a: Expr, b: Expr)
    requires
        a@ == b@,
    ensures
        match (a, b) {
            (Expr::Lit(s, x), Expr::Lit(t, y)) => s == t && x@ == y@,
            (Expr::Var(s, x), Expr::Var(t, y)) => s == t && x@ == y@,
            (Expr::Call(s, f, x), Expr::Call(t, g, y)) => s == t && f@ == g@ && x@.len()
                == y@.len() && forall|i: int| 0 <= i < x@.len() ==> (#[trigger] x@[i])@ == y@[i]@,
            _ => false,
        },
{
    broadcast use group_models;

    if let (Expr::Call(_, _, x), Expr::Call(_, _, y)) = (a, b) {
        lemma_expr_lists(x, y);
    }
}

proof fn lemma_expr_lists(x: Vec<Expr>, y: Vec<Expr>)
    requires
        expr_models(x@) == expr_models(y@),
    ensures
        x@.len() == y@.len(),
        forall|i: int| 0 <= i < x@.len() ==> (#[trigger] x@[i])@ == y@[i]@,
{
    broadcast use group_models;

    assert(x@.len() == expr_models(x@).len());
    assert(y@.len() == expr_models(y@).len());
    assert forall|i: int| 0 <= i < x@.len() implies (#[trigger] x@[i])@ == y@[i]@ by {
        assert(expr_models(x@)[i] == x@[i]@);
        assert(expr_models(y@)[i] == y@[i]@);
    }
}

/// Conjunctions with equal models are alike, fact by fact.
pub proof fn law_conjunction_models_are_faithful(x: Vec<Fact>, y: Vec<Fact>)
    requires
        fact_models(x@) == fact_models(y@),
    ensures
        x@.len() == y@.len(),
        forall|i: int| 0 <= i < x@.len() ==> (#[trigger] x@[i])@ == y@[i]@,
{
    broadcast use group_models;

    assert(x@.len() == fact_models(x@).len());
    assert(y@.len() == fact_models(y@).len());
    assert forall|i: int| 0 <= i < x@.len() implies (#[trigger] x@[i])@ == y@[i]@ by {
        assert(fact_models(x@)[i] == x@[i]@);
        assert(fact_models(y@)[i] == y@[i]@);
    }
}

/// Facts with equal models are alike in every part.
pub proof fn law_fact_models_are_faithful(a: Fact, b: Fact)
    requires
        a@ == b@,
    ensures
        match (a, b) {
            (Fact::Eq(s, x1, x2), Fact::Eq(t, y1, y2)) => s == t && x1@ == y1@ && x2@ == y2@,
            (Fact::Fact(x), Fact::Fact(y)) => x@ == y@,
            (Fact::Or(s, x), Fact::Or(t, y)) => s == t && x@.len() == y@.len() && forall|
                i: int,
            | 0 <= i < x@.len() ==> fact_models((#[trigger] x@[i])@) == fact_models(y@[i]@),
            _ => false,
        },
{
    broadcast use group_models;

    if let (Fact::Or(_, x), Fact::Or(_, y)) = (a, b) {
        let left = branch_models(x@);
        let right = branch_models(y@);
        assert(left == right);
        assert(x@.len() == left.len() && y@.len() == right.len());
        assert forall|i: int| 0 <= i < x@.len() implies fact_models((#[trigger] x@[i])@)
            == fact_models(y@[i]@) by {
            assert(left[i] == fact_models(x@[i]@));
            assert(right[i] == fact_models(y@[i]@));
        }
    }
}

/// Actions with equal models are alike in every part.
pub proof fn law_action_models_are_faithful(a: Action, b: Action)
    requires
        a@ == b@,
    ensures
        match (a, b) {
            (Action::Let(s, f, x), Action::Let(t, g, y)) => s == t && f@ == g@ && x@ == y@,
            (Action::Assign(s, f, xs, x), Action::Assign(t, g, ys, y)) => s == t && f@ == g@ && x@
                == y@ && xs@.len() == ys@.len() && forall|i: int|
                0 <= i < xs@.len() ==> (#[trigger] xs@[i])@ == ys@[i]@,
            (Action::Change(s, c, f, xs), Action::Change(t, d, g, ys)) => s == t && c == d && f@
                == g@ && xs@.len() == ys@.len() && forall|i: int|
                0 <= i < xs@.len() ==> (#[trigger] xs@[i])@ == ys@[i]@,
            (Action::Union(s, x1, x2), Action::Union(t, y1, y2)) => s == t && x1@ == y1@ && x2@
                == y2@,
            (Action::Panic(s, x), Action::Panic(t, y)) => s == t && x@ == y@,
            (Action::Expr(s, x), Action::Expr(t, y)) => s == t && x@ == y@,
            _ => false,
        },
{
    match (a, b) {
        (Action::Assign(_, _, xs, _), Action::Assign(_, _, ys, _)) => lemma_expr_lists(xs, ys),
        (Action::Change(_, _, _, xs), Action::Change(_, _, _, ys)) => lemma_expr_lists(xs, ys),
        _ => {},
    }
}

/// Rules with equal models are alike in every part.
pub proof fn law_rule_models_are_faithful(a: Rule, b: Rule)
    requires
        a@ == b@,
    ensures
        a.span == b.span,
        a.name@ == b.name@,
        a.ruleset@ == b.ruleset@,
        a.eval_mode == b.eval_mode,
        a.no_decomp == b.no_decomp,
        a.include_subsumed == b.include_subsumed,
        a.head.0@.len() == b.head.0@.len(),
        forall|i: int| 0 <= i < a.head.0@.len() ==> (#[trigger] a.head.0@[i])@ == b.head.0@[i]@,
        a.body@.len() == b.body@.len(),
        forall|i: int| 0 <= i < a.body@.len() ==> (#[trigger] a.body@[i])@ == b.body@[i]@,
{
    law_conjunction_models_are_faithful(a.body, b.body);
    assert(a@.head.len() == a.head.0@.len());
    assert(b@.head.len() == b.head.0@.len());
    assert forall|i: int| 0 <= i < a.head.0@.len() implies (#[trigger] a.head.0@[i])@
        == b.head.0@[i]@ by {
        assert(a@.head[i] == a.head.0@[i]@);
        assert(b@.head[i] == b.head.0@[i]@);
    }
}

/// Commands with equal models are alike in every part.
pub proof fn law_command_models_are_faithful(a: Command, b: Command)
    requires
        a@ == b@,
    ensures
        match (a, b) {
            (
                Command::Relation { span: s, name: f, inputs: x },
                Command::Relation { span: t, name: g, inputs: y },
            ) => s == t && f@ == g@ && x@.len() == y@.len() && forall|i: int|
                0 <= i < x@.len() ==> (#[trigger] x@[i])@ == y@[i]@,
            (Command::Ruleset(s, x), Command::Ruleset(t, y)) => s == t && x@ == y@,
            (Command::Rule { rule: x }, Command::Rule { rule: y }) => x@ == y@,
            (Command::Action(x), Command::Action(y)) => x@ == y@,
            (Command::Check(s, x), Command::Check(t, y)) => s == t && x@.len() == y@.len()
                && forall|i: int| 0 <= i < x@.len() ==> (#[trigger] x@[i])@ == y@[i]@,
            (Command::Query(s, x), Command::Query(t, y)) => s == t && x@.len() == y@.len()
                && forall|i: int| 0 <= i < x@.len() ==> (#[trigger] x@[i])@ == y@[i]@,
            (Command::Fail(s, x), Command::Fail(t, y)) => s == t && (*x)@ == (*y)@,
            _ => false,
        },
{
    match (a, b) {
        (Command::Relation { inputs: x, .. }, Command::Relation { inputs: y, .. }) => {
            let left = names(x@);
            let right = names(y@);
            assert(left == right);
            assert(left.len() == x@.len() && right.len() == y@.len());
            assert forall|i: int| 0 <= i < x@.len() implies (#[trigger] x@[i])@ == y@[i]@ by {
                assert(left[i] == x@[i]@);
                assert(right[i] == y@[i]@);
            }
        },
        (Command::Check(_, x), Command::Check(_, y)) => law_conjunction_models_are_faithful(x, y),
        (Command::Query(_, x), Command::Query(_, y)) => law_conjunction_models_are_faithful(x, y),
        _ => {},
    }
}

/// Errors with equal models are alike in every part.
pub proof fn law_error_models_are_faithful(a: TypeError, b: TypeError)
    requires
        a@ == b@,
    ensures
        match (a, b) {
            (TypeError::EmptyOrBranch(s), TypeError::EmptyOrBranch(t)) => s == t,
            (TypeError::OrWithoutBranches(s), TypeError::OrWithoutBranches(t)) => s == t,
            (TypeError::OrBranchLocalEscapes(v, s), TypeError::OrBranchLocalEscapes(w, t)) => v@
                == w@ && s == t,
            (TypeError::OrOutsideRule(s), TypeError::OrOutsideRule(t)) => s == t,
            (TypeError::UntypedVariable(v, s), TypeError::UntypedVariable(w, t)) => v@ == w@ && s
                == t,
            (TypeError::Rejected(v), TypeError::Rejected(w)) => v@ == w@,
            _ => false,
        },
        Error::TypeError(a)@ == a@,
{
}

/// A result is modelled by the models of its commands, one for one, or by that of its error.
pub proof fn law_result_models_are_faithful(
    a: Result<Vec<Command>, Error>,
    b: Result<Vec<Command>, Error>,
)
    requires
        outcome_of(a) == outcome_of(b),
    ensures
        match (a, b) {
            (Ok(x), Ok(y)) => x@.len() == y@.len() && forall|i: int|
                0 <= i < x@.len() ==> (#[trigger] x@[i])@ == y@[i]@,
            (Err(x), Err(y)) => x@ == y@,
            _ => false,
        },
{
    if let (Ok(x), Ok(y)) = (a, b) {
        let left = command_models(x@);
        let right = command_models(y@);
        assert(left == right);
        assert(left.len() == x@.len() && right.len() == y@.len());
        assert forall|i: int| 0 <= i < x@.len() implies (#[trigger] x@[i])@ == y@[i]@ by {
            assert(left[i] == x@[i]@);
            assert(right[i] == y@[i]@);
        }
    }
}

} // verus!
