//! Which sorts the answer of a type environment gives.

use vstd::prelude::*;

use crate::ast::{ExprModel, FactModel, Name, RuleModel, Span};
use crate::commands::{lowered_rule, typing_of, typing_query};
use crate::error::{TypeError, TypeErrorModel};
use crate::mentions::{expr_mentions, fact_mentions, law_facts_vars_are_mentioned, some_mentions};
use crate::success::{all_sorted, law_lowering_succeeds, well_scoped};
use crate::typing::{
    first_sorts, lemma_first_sorts_add, resolved_facts_occurrences, resolved_list_occurrences,
    resolved_occurrences, ResolvedExpr, ResolvedFact,
};
use crate::vars::{actions_occurrences, facts_occurrences, is_global_name, lemma_add_contains};

verus! {

/// A variable stands in a resolved expression with a sort, at any depth.
pub open spec fn has_sorted(e: ResolvedExpr, v: Name, sort: Name) -> bool
    decreases e,
{
    match e {
        ResolvedExpr::Lit(_, _) => false,
        ResolvedExpr::Var(_, w) => w.name@ == v && w.sort.name@ == sort,
        ResolvedExpr::Call(_, _, args) => list_has_sorted(args@, v, sort),
    }
}

/// It stands in one of some resolved expressions.
pub open spec fn list_has_sorted(es: Seq<ResolvedExpr>, v: Name, sort: Name) -> bool
    decreases es,
{
    exists|i: int| 0 <= i < es.len() && has_sorted(#[trigger] es[i], v, sort)
}

/// It stands in a resolved fact.
pub open spec fn fact_has_sorted(f: ResolvedFact, v: Name, sort: Name) -> bool {
    match f {
        ResolvedFact::Eq(_, left, right) => has_sorted(left, v, sort) || has_sorted(right, v, sort),
        ResolvedFact::Fact(e) => has_sorted(e, v, sort),
    }
}

/// It stands in one of some resolved facts.
pub open spec fn answer_has_sorted(fs: Seq<ResolvedFact>, v: Name, sort: Name) -> bool {
    exists|i: int| 0 <= i < fs.len() && fact_has_sorted(#[trigger] fs[i], v, sort)
}

/// What a resolved expression lists is what stands in it.
pub proof fn lemma_resolved_occurrences(e: ResolvedExpr, v: Name, sort: Name)
    ensures
        resolved_occurrences(e).contains((v, sort)) <==> has_sorted(e, v, sort),
    decreases e,
{
    match e {
        ResolvedExpr::Lit(_, _) => {},
        ResolvedExpr::Var(_, w) => {
            assert(seq![(w.name@, w.sort.name@)][0] == (w.name@, w.sort.name@));
        },
        ResolvedExpr::Call(_, _, args) => lemma_resolved_list_occurrences(args@, v, sort),
    }
}

proof fn lemma_resolved_list_occurrences(es: Seq<ResolvedExpr>, v: Name, sort: Name)
    ensures
        resolved_list_occurrences(es).contains((v, sort)) <==> list_has_sorted(es, v, sort),
    decreases es,
{
    if es.len() > 0 {
        let front = es.drop_last();
        lemma_resolved_list_occurrences(front, v, sort);
        lemma_resolved_occurrences(es.last(), v, sort);
        lemma_add_contains(
            resolved_list_occurrences(front),
            resolved_occurrences(es.last()),
            (v, sort),
        );
        if list_has_sorted(front, v, sort) {
            let i = choose|i: int| 0 <= i < front.len() && has_sorted(#[trigger] front[i], v, sort);
            assert(es[i] == front[i]);
        }
        if list_has_sorted(es, v, sort) {
            let i = choose|i: int| 0 <= i < es.len() && has_sorted(#[trigger] es[i], v, sort);
            if i < front.len() {
                assert(front[i] == es[i]);
            }
        }
    }
}

pub proof fn lemma_resolved_facts_occurrences(fs: Seq<ResolvedFact>, v: Name, sort: Name)
    ensures
        resolved_facts_occurrences(fs).contains((v, sort)) <==> answer_has_sorted(fs, v, sort),
    decreases fs.len(),
{
    if fs.len() > 0 {
        let front = fs.drop_last();
        let last = match fs.last() {
            ResolvedFact::Eq(_, e1, e2) => resolved_occurrences(e1) + resolved_occurrences(e2),
            ResolvedFact::Fact(e) => resolved_occurrences(e),
        };
        lemma_resolved_facts_occurrences(front, v, sort);
        match fs.last() {
            ResolvedFact::Eq(_, e1, e2) => {
                lemma_resolved_occurrences(e1, v, sort);
                lemma_resolved_occurrences(e2, v, sort);
                lemma_add_contains(
                    resolved_occurrences(e1),
                    resolved_occurrences(e2),
                    (v, sort),
                );
            },
            ResolvedFact::Fact(e) => lemma_resolved_occurrences(e, v, sort),
        }
        lemma_add_contains(resolved_facts_occurrences(front), last, (v, sort));
        if answer_has_sorted(front, v, sort) {
            let i = choose|i: int|
                0 <= i < front.len() && fact_has_sorted(#[trigger] front[i], v, sort);
            assert(fs[i] == front[i]);
        }
        if answer_has_sorted(fs, v, sort) {
            let i = choose|i: int| 0 <= i < fs.len() && fact_has_sorted(#[trigger] fs[i], v, sort);
            if i < front.len() {
                assert(front[i] == fs[i]);
            }
        }
    }
}

/// The sorts that a list of occurrences adds to a map: those of the variables that had none,
/// each as it occurs in the list.
pub proof fn lemma_first_sorts(sorts: Map<Name, Name>, seen: Seq<(Name, Name)>, v: Name)
    ensures
        sorts.contains_key(v) ==> first_sorts(sorts, seen).contains_key(v) && first_sorts(
            sorts,
            seen,
        )[v] == sorts[v],
        !sorts.contains_key(v) && first_sorts(sorts, seen).contains_key(v) ==> seen.contains(
            (v, first_sorts(sorts, seen)[v]),
        ),
        forall|sort: Name| #[trigger]
            seen.contains((v, sort)) ==> first_sorts(sorts, seen).contains_key(v),
    decreases seen.len(),
{
    if seen.len() > 0 {
        let front = seen.drop_last();
        lemma_first_sorts(sorts, front, v);
        let before = first_sorts(sorts, front);
        assert(seen.contains(seen.last())) by {
            assert(seen[seen.len() - 1] == seen.last());
        }
        assert forall|x: (Name, Name)| #[trigger] front.contains(x) implies seen.contains(x) by {
            let i = choose|i: int| 0 <= i < front.len() && front[i] == x;
            assert(seen[i] == x);
        }
        assert forall|sort: Name| #[trigger] seen.contains((v, sort)) implies first_sorts(
            sorts,
            seen,
        ).contains_key(v) by {
            let i = choose|i: int| 0 <= i < seen.len() && seen[i] == (v, sort);
            if i < front.len() {
                assert(front[i] == (v, sort));
                assert(front.contains((v, sort)));
            }
        }
    }
}

/// A variable has a sort if and only if it stands somewhere in the answer, at whatever depth,
/// and that sort is one that it stands there with.
pub proof fn law_every_variable_of_an_answer_has_a_sort(answer: Seq<ResolvedFact>, v: Name)
    ensures
        first_sorts(Map::empty(), resolved_facts_occurrences(answer)).contains_key(v) <==> exists|
            sort: Name,
        | #[trigger] answer_has_sorted(answer, v, sort),
        first_sorts(Map::empty(), resolved_facts_occurrences(answer)).contains_key(v)
            ==> answer_has_sorted(
            answer,
            v,
            first_sorts(Map::empty(), resolved_facts_occurrences(answer))[v],
        ),
{
    let seen = resolved_facts_occurrences(answer);
    let sorts = first_sorts(Map::empty(), seen);
    lemma_first_sorts(Map::empty(), seen, v);
    if sorts.contains_key(v) {
        lemma_resolved_facts_occurrences(answer, v, sorts[v]);
    }
    if exists|sort: Name| #[trigger] answer_has_sorted(answer, v, sort) {
        let sort = choose|sort: Name| #[trigger] answer_has_sorted(answer, v, sort);
        lemma_resolved_facts_occurrences(answer, v, sort);
        assert(seen.contains((v, sort)));
    }
}

/// What follows in an answer does not change the sort that a variable has: the first one
/// counts.
pub proof fn law_the_first_sort_counts(first: Seq<ResolvedFact>, more: Seq<ResolvedFact>, v: Name)
    requires
        first_sorts(Map::empty(), resolved_facts_occurrences(first)).contains_key(v),
    ensures
        first_sorts(Map::empty(), resolved_facts_occurrences(first + more)).contains_key(v),
        first_sorts(Map::empty(), resolved_facts_occurrences(first + more))[v] == first_sorts(
            Map::empty(),
            resolved_facts_occurrences(first),
        )[v],
    decreases more.len(),
{
    if more.len() == 0 {
        assert(first + more =~= first);
    } else {
        let all = first + more;
        assert(all.drop_last() =~= first + more.drop_last());
        law_the_first_sort_counts(first, more.drop_last(), v);
        let before = resolved_facts_occurrences(all.drop_last());
        let last = match all.last() {
            ResolvedFact::Eq(_, e1, e2) => resolved_occurrences(e1) + resolved_occurrences(e2),
            ResolvedFact::Fact(e) => resolved_occurrences(e),
        };
        lemma_first_sorts_add(Map::empty(), before, last);
        lemma_first_sorts(first_sorts(Map::empty(), before), last, v);
    }
}

/// So it is inside a fact: the left side of an equation comes before the right one, and
/// arguments come in their order.
pub proof fn law_sorts_are_read_left_to_right(
    sorts: Map<Name, Name>,
    span: Span,
    left: ResolvedExpr,
    right: ResolvedExpr,
    a: Seq<ResolvedExpr>,
    b: Seq<ResolvedExpr>,
)
    ensures
        first_sorts(
            sorts,
            resolved_facts_occurrences(seq![ResolvedFact::Eq(span, left, right)]),
        ) == first_sorts(first_sorts(sorts, resolved_occurrences(left)), resolved_occurrences(right)),
        first_sorts(sorts, resolved_list_occurrences(a + b)) == first_sorts(
            first_sorts(sorts, resolved_list_occurrences(a)),
            resolved_list_occurrences(b),
        ),
    decreases b.len(),
{
    let fact = seq![ResolvedFact::Eq(span, left, right)];
    assert(fact.drop_last() =~= Seq::<ResolvedFact>::empty());
    assert(resolved_facts_occurrences(fact.drop_last()) =~= Seq::<(Name, Name)>::empty());
    assert(resolved_facts_occurrences(fact) =~= resolved_occurrences(left) + resolved_occurrences(
        right,
    ));
    lemma_first_sorts_add(sorts, resolved_occurrences(left), resolved_occurrences(right));
    if b.len() == 0 {
        assert(a + b =~= a);
    } else {
        assert((a + b).drop_last() =~= a + b.drop_last());
        law_sorts_are_read_left_to_right(sorts, span, left, right, a, b.drop_last());
        let first = resolved_list_occurrences(a + b.drop_last());
        let second = resolved_list_occurrences(b.drop_last());
        let last = resolved_occurrences(b.last());
        lemma_first_sorts_add(sorts, first, last);
        lemma_first_sorts_add(
            first_sorts(sorts, resolved_list_occurrences(a)),
            second,
            last,
        );
    }
}

/// A resolved expression is an expression with sorts for its variables.
pub open spec fn resolves(r: ResolvedExpr, e: ExprModel) -> bool
    decreases e,
{
    match e {
        ExprModel::Lit(_, _) => r is Lit,
        ExprModel::Var(_, v) => r matches ResolvedExpr::Var(_, w) && w.name@ == v,
        ExprModel::Call(_, f, es) => r matches ResolvedExpr::Call(_, g, rs) && g@ == f && rs@.len()
            == es.len() && forall|i: int| 0 <= i < es.len() ==> resolves(rs@[i], #[trigger] es[i]),
    }
}

/// A resolved fact is a plain fact with sorts for its variables.
pub open spec fn fact_resolves(r: ResolvedFact, f: FactModel) -> bool {
    match f {
        FactModel::Eq(_, e1, e2) => r matches ResolvedFact::Eq(_, r1, r2) && resolves(r1, e1)
            && resolves(r2, e2),
        FactModel::Fact(e) => r matches ResolvedFact::Fact(r1) && resolves(r1, e),
        FactModel::Or(_, _) => false,
    }
}

/// An answer has the shape of a query: it resolves the query's facts one for one.
pub open spec fn answers(answer: Seq<ResolvedFact>, query: Seq<FactModel>) -> bool {
    &&& answer.len() == query.len()
    &&& forall|i: int| 0 <= i < query.len() ==> fact_resolves(answer[i], #[trigger] query[i])
}

proof fn lemma_resolves_mentions(r: ResolvedExpr, e: ExprModel, v: Name)
    requires
        resolves(r, e),
        expr_mentions(e, v),
    ensures
        exists|sort: Name| #[trigger] has_sorted(r, v, sort),
    decreases e,
{
    match e {
        ExprModel::Lit(_, _) => {},
        ExprModel::Var(_, _) => {
            assert(has_sorted(r, v, r->Var_1.sort.name@));
        },
        ExprModel::Call(_, _, es) => {
            assert(some_mentions(es, v));
            let rs = r->Call_2@;
            let i = choose|i: int| 0 <= i < es.len() && expr_mentions(#[trigger] es[i], v);
            lemma_resolves_mentions(rs[i], es[i], v);
            let sort = choose|sort: Name| #[trigger] has_sorted(rs[i], v, sort);
            assert(list_has_sorted(rs, v, sort));
            assert(has_sorted(r, v, sort));
        },
    }
}

/// Where the answer has the shape of the query, every variable of the query has a sort.
pub proof fn law_an_answer_sorts_its_query(answer: Seq<ResolvedFact>, query: Seq<FactModel>)
    requires
        answers(answer, query),
    ensures
        all_sorted(query, first_sorts(Map::empty(), resolved_facts_occurrences(answer))),
{
    let sorts = first_sorts(Map::empty(), resolved_facts_occurrences(answer));
    assert forall|v: Name| #[trigger] facts_occurrences(query).contains(v) implies sorts.contains_key(
        v,
    ) by {
        law_facts_vars_are_mentioned(query, v);
        let i = choose|i: int| 0 <= i < query.len() && fact_mentions(#[trigger] query[i], v);
        let r = answer[i];
        assert(fact_resolves(r, query[i]));
        match query[i] {
            FactModel::Eq(_, e1, e2) => {
                if expr_mentions(e1, v) {
                    lemma_resolves_mentions(r->Eq_1, e1, v);
                    let sort = choose|sort: Name| #[trigger] has_sorted(r->Eq_1, v, sort);
                    assert(fact_has_sorted(r, v, sort));
                    assert(answer_has_sorted(answer, v, sort));
                } else {
                    lemma_resolves_mentions(r->Eq_2, e2, v);
                    let sort = choose|sort: Name| #[trigger] has_sorted(r->Eq_2, v, sort);
                    assert(fact_has_sorted(r, v, sort));
                    assert(answer_has_sorted(answer, v, sort));
                }
            },
            FactModel::Fact(e) => {
                lemma_resolves_mentions(r->Fact_0, e, v);
                let sort = choose|sort: Name| #[trigger] has_sorted(r->Fact_0, v, sort);
                assert(fact_has_sorted(r, v, sort));
                assert(answer_has_sorted(answer, v, sort));
            },
            FactModel::Or(_, _) => {},
        }
        law_every_variable_of_an_answer_has_a_sort(answer, v);
    }
}

/// A rule is lowered, whatever sorts the type environment found, if the answer has the shape
/// of the query and the rule's disjunctions are well scoped; no key variable goes without a
/// sort.
///
/// The reserved prefix must not make names of globals.
pub proof fn law_answered_rules_are_lowered(
    rule: RuleModel,
    answer: Seq<ResolvedFact>,
    reserved: Name,
    queried: nat,
    n: nat,
)
    requires
        !is_global_name(reserved),
        answers(answer, typing_query(rule.body, reserved, queried).0),
    ensures
        lowered_rule(
            rule,
            first_sorts(Map::empty(), resolved_facts_occurrences(answer)),
            reserved,
            queried,
            n,
        ).0 is Ok <==> well_scoped(
            rule.body,
            Set::empty(),
            actions_occurrences(rule.head).to_set(),
        ),
{
    let sorts = first_sorts(Map::empty(), resolved_facts_occurrences(answer));
    law_an_answer_sorts_its_query(answer, typing_query(rule.body, reserved, queried).0);
    law_lowering_succeeds(rule, sorts, reserved, queried, n);
}

/// What a type environment answers is read off as the sorts that stand in it, or as its error.
pub proof fn law_answers_are_read(answer: Result<Vec<ResolvedFact>, TypeError>, v: Name)
    ensures
        match answer {
            Ok(facts) => typing_of(answer) matches Ok(sorts) && (sorts.contains_key(v)
                <==> exists|sort: Name| #[trigger] answer_has_sorted(facts@, v, sort)) && (
            sorts.contains_key(v) ==> answer_has_sorted(facts@, v, sorts[v])),
            Err(e) => typing_of(answer) == Err::<Map<Name, Name>, TypeErrorModel>(e@),
        },
{
    if let Ok(facts) = answer {
        law_every_variable_of_an_answer_has_a_sort(facts@, v);
    }
}

} // verus!
