//! Which variables the syntax of facts and actions mentions, and where.

use vstd::prelude::*;

use crate::ast::{ActionModel, Change, ExprModel, FactModel, Name, Span};
use crate::lowered_vars::{lemma_branches_occurrences_contains, lemma_facts_occurrences_contains};
use crate::vars::{
    action_expr_models, actions_occurrences, branches_occurrences, expr_occurrences,
    exprs_occurrences, fact_occurrences, facts_occurrences, is_global_name, lemma_add_contains,
};

verus! {

/// A variable or global stands in an expression, at any depth.
pub open spec fn expr_mentions(e: ExprModel, v: Name) -> bool
    decreases e,
{
    match e {
        ExprModel::Lit(_, _) => false,
        ExprModel::Var(_, w) => w == v,
        ExprModel::Call(_, _, args) => some_mentions(args, v),
    }
}

/// It stands in one of some expressions.
pub open spec fn some_mentions(es: Seq<ExprModel>, v: Name) -> bool
    decreases es,
{
    exists|i: int| 0 <= i < es.len() && expr_mentions(#[trigger] es[i], v)
}

/// It stands in a fact; in a disjunction, in a fact of some branch.
pub open spec fn fact_mentions(f: FactModel, v: Name) -> bool
    decreases f,
{
    match f {
        FactModel::Eq(_, left, right) => expr_mentions(left, v) || expr_mentions(right, v),
        FactModel::Fact(e) => expr_mentions(e, v),
        FactModel::Or(_, branches) => exists|i: int|
            0 <= i < branches.len() && facts_mention(#[trigger] branches[i], v),
    }
}

/// It stands in a fact of a conjunction.
pub open spec fn facts_mention(fs: Seq<FactModel>, v: Name) -> bool
    decreases fs,
{
    exists|i: int| 0 <= i < fs.len() && fact_mentions(#[trigger] fs[i], v)
}

/// It stands in an argument of an action: in the value that a `let` or a `set` gives, in an
/// argument of the row that is set, deleted or subsumed, on either side of a `union`, or in
/// an expression. The name that a `let` gives is no argument.
pub open spec fn action_mentions(a: ActionModel, v: Name) -> bool {
    match a {
        ActionModel::Let(_, _, given) => expr_mentions(given, v),
        ActionModel::Assign(_, _, row, given) => some_mentions(row, v) || expr_mentions(given, v),
        ActionModel::Change(_, _, _, row) => some_mentions(row, v),
        ActionModel::Union(_, left, right) => expr_mentions(left, v) || expr_mentions(right, v),
        ActionModel::Panic(_, _) => false,
        ActionModel::Expr(_, e) => expr_mentions(e, v),
    }
}

/// The variables of an expression are what it mentions, globals aside.
pub proof fn law_expr_vars_are_mentioned(e: ExprModel, v: Name)
    ensures
        expr_occurrences(e).contains(v) <==> expr_mentions(e, v) && !is_global_name(v),
    decreases e,
{
    match e {
        ExprModel::Lit(_, _) => {},
        ExprModel::Var(_, w) => {
            assert(seq![w][0] == w);
        },
        ExprModel::Call(_, _, args) => law_exprs_vars_are_mentioned(args, v),
    }
}

/// The same of a list of expressions.
pub proof fn law_exprs_vars_are_mentioned(es: Seq<ExprModel>, v: Name)
    ensures
        exprs_occurrences(es).contains(v) <==> some_mentions(es, v) && !is_global_name(v),
    decreases es,
{
    if es.len() > 0 {
        let front = es.drop_last();
        law_exprs_vars_are_mentioned(front, v);
        law_expr_vars_are_mentioned(es.last(), v);
        lemma_add_contains(exprs_occurrences(front), expr_occurrences(es.last()), v);
        if some_mentions(front, v) {
            let i = choose|i: int| 0 <= i < front.len() && expr_mentions(#[trigger] front[i], v);
            assert(es[i] == front[i]);
        }
        if some_mentions(es, v) {
            let i = choose|i: int| 0 <= i < es.len() && expr_mentions(#[trigger] es[i], v);
            if i < front.len() {
                assert(front[i] == es[i]);
            }
        }
    }
}

/// The variables of a fact are what it mentions, globals aside.
pub proof fn law_fact_vars_are_mentioned(f: FactModel, v: Name)
    ensures
        fact_occurrences(f).contains(v) <==> fact_mentions(f, v) && !is_global_name(v),
    decreases f,
{
    match f {
        FactModel::Eq(_, left, right) => {
            law_expr_vars_are_mentioned(left, v);
            law_expr_vars_are_mentioned(right, v);
            lemma_add_contains(expr_occurrences(left), expr_occurrences(right), v);
        },
        FactModel::Fact(e) => law_expr_vars_are_mentioned(e, v),
        FactModel::Or(_, branches) => {
            lemma_branches_occurrences_contains(branches, v);
            assert forall|i: int| 0 <= i < branches.len() implies (facts_occurrences(
                #[trigger] branches[i],
            ).contains(v) <==> facts_mention(branches[i], v) && !is_global_name(v)) by {
                law_facts_vars_are_mentioned(branches[i], v);
            }
        },
    }
}

/// The variables of a conjunction are what it mentions, globals aside.
pub proof fn law_facts_vars_are_mentioned(fs: Seq<FactModel>, v: Name)
    ensures
        facts_occurrences(fs).contains(v) <==> facts_mention(fs, v) && !is_global_name(v),
    decreases fs,
{
    lemma_facts_occurrences_contains(fs, v);
    assert forall|i: int| 0 <= i < fs.len() implies (fact_occurrences(#[trigger] fs[i]).contains(v)
        <==> fact_mentions(fs[i], v) && !is_global_name(v)) by {
        law_fact_vars_are_mentioned(fs[i], v);
    }
}

proof fn lemma_action_vars(a: ActionModel, v: Name)
    ensures
        actions_occurrences(seq![a]).contains(v) <==> action_mentions(a, v) && !is_global_name(v),
{
    let one = seq![a];
    assert(one.drop_last() =~= Seq::<ActionModel>::empty());
    assert(one.last() == a);
    match a {
        ActionModel::Let(_, _, e) => {
            lemma_one_expr(e, v);
        },
        ActionModel::Assign(_, _, row, e) => {
            let all = row.push(e);
            law_exprs_vars_are_mentioned(all, v);
            lemma_mentions_push(row, e, v);
        },
        ActionModel::Change(_, _, _, row) => law_exprs_vars_are_mentioned(row, v),
        ActionModel::Union(_, left, right) => {
            let both = seq![left, right];
            law_exprs_vars_are_mentioned(both, v);
            assert(both[0] == left && both[1] == right);
        },
        ActionModel::Panic(_, _) => law_exprs_vars_are_mentioned(seq![], v),
        ActionModel::Expr(_, e) => {
            lemma_one_expr(e, v);
        },
    }
    assert(actions_occurrences(one) =~= actions_occurrences(one.drop_last()) + exprs_occurrences(
        action_expr_models(a),
    ));
    assert(actions_occurrences(one) =~= exprs_occurrences(action_expr_models(a)));
}

proof fn lemma_one_expr(e: ExprModel, v: Name)
    ensures
        exprs_occurrences(seq![e]).contains(v) <==> expr_mentions(e, v) && !is_global_name(v),
{
    law_exprs_vars_are_mentioned(seq![e], v);
    assert(seq![e][0] == e);
}

proof fn lemma_mentions_push(es: Seq<ExprModel>, e: ExprModel, v: Name)
    ensures
        some_mentions(es.push(e), v) <==> some_mentions(es, v) || expr_mentions(e, v),
{
    let all = es.push(e);
    if some_mentions(es, v) {
        let i = choose|i: int| 0 <= i < es.len() && expr_mentions(#[trigger] es[i], v);
        assert(all[i] == es[i]);
    }
    if expr_mentions(e, v) {
        assert(all[es.len() as int] == e);
    }
    if some_mentions(all, v) {
        let i = choose|i: int| 0 <= i < all.len() && expr_mentions(#[trigger] all[i], v);
        if i < es.len() {
            assert(es[i] == all[i]);
        }
    }
}

/// The variables of a head are what the arguments of its actions mention, globals aside.
pub proof fn law_head_vars_are_mentioned(head: Seq<ActionModel>, v: Name)
    ensures
        actions_occurrences(head).contains(v) <==> !is_global_name(v) && exists|i: int|
            0 <= i < head.len() && action_mentions(#[trigger] head[i], v),
    decreases head.len(),
{
    if head.len() > 0 {
        let front = head.drop_last();
        let last = seq![head.last()];
        law_head_vars_are_mentioned(front, v);
        lemma_action_vars(head.last(), v);
        assert(last.drop_last() =~= Seq::<ActionModel>::empty());
        assert(actions_occurrences(last.drop_last()) =~= Seq::<Name>::empty());
        assert(actions_occurrences(head) =~= actions_occurrences(front) + actions_occurrences(last));
        lemma_add_contains(actions_occurrences(front), actions_occurrences(last), v);
        if exists|i: int| 0 <= i < front.len() && action_mentions(#[trigger] front[i], v) {
            let i = choose|i: int| 0 <= i < front.len() && action_mentions(#[trigger] front[i], v);
            assert(head[i] == front[i]);
        }
        if exists|i: int| 0 <= i < head.len() && action_mentions(#[trigger] head[i], v) {
            let i = choose|i: int| 0 <= i < head.len() && action_mentions(#[trigger] head[i], v);
            if i < front.len() {
                assert(front[i] == head[i]);
            }
        }
    }
}

/// Globals are the names that start with `$`.
pub proof fn law_globals_start_with_a_dollar(rest: Name, v: Name)
    ensures
        is_global_name(seq!['$'] + rest),
        is_global_name(v) ==> v == seq!['$'] + v.skip(1),
{
    if is_global_name(v) {
        assert(v =~= seq!['$'] + v.skip(1));
    }
}

/// The variables of expressions are listed in the order in which they are written, as often
/// as they are written.
pub proof fn law_expr_vars_are_in_order(
    span: Span,
    f: Name,
    v: Name,
    a: Seq<ExprModel>,
    b: Seq<ExprModel>,
    e: ExprModel,
)
    ensures
        exprs_occurrences(a + b) == exprs_occurrences(a) + exprs_occurrences(b),
        exprs_occurrences(seq![e]) == expr_occurrences(e),
        expr_occurrences(ExprModel::Call(span, f, a)) == exprs_occurrences(a),
        !is_global_name(v) ==> expr_occurrences(ExprModel::Var(span, v)) == seq![v],
    decreases b.len(),
{
    assert(seq![e].drop_last() =~= Seq::<ExprModel>::empty());
    assert(exprs_occurrences(seq![e].drop_last()) =~= Seq::<Name>::empty());
    assert(exprs_occurrences(seq![e]) =~= expr_occurrences(e));
    if b.len() == 0 {
        assert(a + b =~= a);
        assert(exprs_occurrences(a + b) =~= exprs_occurrences(a) + exprs_occurrences(b));
    } else {
        assert((a + b).drop_last() =~= a + b.drop_last());
        law_expr_vars_are_in_order(span, f, v, a, b.drop_last(), e);
        assert(exprs_occurrences(a + b) =~= exprs_occurrences(a) + exprs_occurrences(b));
    }
}

/// The same of facts.
pub proof fn law_fact_vars_are_in_order(
    span: Span,
    left: ExprModel,
    right: ExprModel,
    a: Seq<FactModel>,
    b: Seq<FactModel>,
    f: FactModel,
)
    ensures
        fact_occurrences(FactModel::Fact(left)) == expr_occurrences(left),
        fact_occurrences(FactModel::Eq(span, left, right)) == expr_occurrences(left)
            + expr_occurrences(right),
        facts_occurrences(a + b) == facts_occurrences(a) + facts_occurrences(b),
        facts_occurrences(seq![f]) == fact_occurrences(f),
    decreases b.len(),
{
    assert(seq![f].drop_last() =~= Seq::<FactModel>::empty());
    assert(facts_occurrences(seq![f].drop_last()) =~= Seq::<Name>::empty());
    assert(facts_occurrences(seq![f]) =~= fact_occurrences(f));
    if b.len() == 0 {
        assert(a + b =~= a);
        assert(facts_occurrences(a + b) =~= facts_occurrences(a) + facts_occurrences(b));
    } else {
        assert((a + b).drop_last() =~= a + b.drop_last());
        law_fact_vars_are_in_order(span, left, right, a, b.drop_last(), f);
        assert(facts_occurrences(a + b) =~= facts_occurrences(a) + facts_occurrences(b));
    }
}

/// The same of disjunctions, branch by branch.
pub proof fn law_or_vars_are_in_order(
    span: Span,
    a: Seq<Seq<FactModel>>,
    b: Seq<Seq<FactModel>>,
    branch: Seq<FactModel>,
)
    ensures
        fact_occurrences(FactModel::Or(span, a + b)) == fact_occurrences(FactModel::Or(span, a))
            + fact_occurrences(FactModel::Or(span, b)),
        fact_occurrences(FactModel::Or(span, seq![branch])) == facts_occurrences(branch),
    decreases b.len(),
{
    assert(seq![branch].drop_last() =~= Seq::<Seq<FactModel>>::empty());
    assert(branches_occurrences(seq![branch].drop_last()) =~= Seq::<Name>::empty());
    assert(branches_occurrences(seq![branch]) =~= facts_occurrences(branch));
    if b.len() == 0 {
        assert(a + b =~= a);
        assert(branches_occurrences(a + b) =~= branches_occurrences(a) + branches_occurrences(b));
    } else {
        assert((a + b).drop_last() =~= a + b.drop_last());
        law_or_vars_are_in_order(span, a, b.drop_last(), branch);
        assert(branches_occurrences(a + b) =~= branches_occurrences(a) + branches_occurrences(b));
    }
}

/// The expressions of an action are its arguments, as they are written. The value that a `set`
/// gives comes after the arguments of the row.
pub proof fn law_action_exprs_are_in_order(
    span: Span,
    name: Name,
    change: Change,
    row: Seq<ExprModel>,
    left: ExprModel,
    right: ExprModel,
)
    ensures
        action_expr_models(ActionModel::Let(span, name, left)) == seq![left],
        action_expr_models(ActionModel::Assign(span, name, row, left)) == row + seq![left],
        action_expr_models(ActionModel::Change(span, change, name, row)) == row,
        action_expr_models(ActionModel::Union(span, left, right)) == seq![left] + seq![right],
        action_expr_models(ActionModel::Panic(span, name)).len() == 0,
        action_expr_models(ActionModel::Expr(span, left)) == seq![left],
{
    assert(row.push(left) =~= row + seq![left]);
    assert(seq![left, right] =~= seq![left] + seq![right]);
}

} // verus!
