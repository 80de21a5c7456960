//! The variables of lowered facts.

use vstd::prelude::*;

use crate::ast::{ExprModel, FactModel, Name, Span};
use crate::lowering::{branch_env, lowered_branches, lowered_facts, lowered_or, surroundings_of};
use crate::materialize::{branch_var_sets, key_atom, key_of, relation_hint, Env};
use crate::scope::{all_plain, lemma_visible_or, scope, visible, visible_in};
use crate::symbol_gen::nth_name;
use crate::vars::{
    branches_occurrences, expr_occurrences, exprs_occurrences, fact_occurrences, facts_occurrences,
    is_global_name, key_var, lemma_add_contains, lemma_with_all_contains, with_all,
};

verus! {

pub proof fn lemma_facts_occurrences_contains(fs: Seq<FactModel>, v: Name)
    ensures
        facts_occurrences(fs).contains(v) <==> exists|i: int|
            0 <= i < fs.len() && fact_occurrences(#[trigger] fs[i]).contains(v),
    decreases fs.len(),
{
    if fs.len() > 0 {
        let front = fs.drop_last();
        lemma_facts_occurrences_contains(front, v);
        lemma_add_contains(facts_occurrences(front), fact_occurrences(fs.last()), v);
        if facts_occurrences(front).contains(v) {
            let i = choose|i: int|
                0 <= i < front.len() && fact_occurrences(#[trigger] front[i]).contains(v);
            assert(fs[i] == front[i]);
        }
        if exists|i: int| 0 <= i < fs.len() && fact_occurrences(#[trigger] fs[i]).contains(v) {
            let i = choose|i: int|
                0 <= i < fs.len() && fact_occurrences(#[trigger] fs[i]).contains(v);
            if i < front.len() {
                assert(front[i] == fs[i]);
            }
        }
    }
}

pub proof fn lemma_branches_occurrences_contains(bs: Seq<Seq<FactModel>>, v: Name)
    ensures
        branches_occurrences(bs).contains(v) <==> exists|i: int|
            0 <= i < bs.len() && facts_occurrences(#[trigger] bs[i]).contains(v),
    decreases bs.len(),
{
    if bs.len() > 0 {
        let front = bs.drop_last();
        lemma_branches_occurrences_contains(front, v);
        lemma_add_contains(branches_occurrences(front), facts_occurrences(bs.last()), v);
        if branches_occurrences(front).contains(v) {
            let i = choose|i: int|
                0 <= i < front.len() && facts_occurrences(#[trigger] front[i]).contains(v);
            assert(bs[i] == front[i]);
        }
        if exists|i: int| 0 <= i < bs.len() && facts_occurrences(#[trigger] bs[i]).contains(v) {
            let i = choose|i: int|
                0 <= i < bs.len() && facts_occurrences(#[trigger] bs[i]).contains(v);
            if i < front.len() {
                assert(front[i] == bs[i]);
            }
        }
    }
}

pub proof fn lemma_expr_no_globals(e: ExprModel, v: Name)
    requires
        expr_occurrences(e).contains(v),
    ensures
        !is_global_name(v),
    decreases e,
{
    match e {
        ExprModel::Call(_, _, args) => lemma_exprs_no_globals(args, v),
        _ => {},
    }
}

pub proof fn lemma_exprs_no_globals(es: Seq<ExprModel>, v: Name)
    requires
        exprs_occurrences(es).contains(v),
    ensures
        !is_global_name(v),
    decreases es,
{
    if es.len() > 0 {
        lemma_add_contains(exprs_occurrences(es.drop_last()), expr_occurrences(es.last()), v);
        if expr_occurrences(es.last()).contains(v) {
            lemma_expr_no_globals(es.last(), v);
        } else {
            lemma_exprs_no_globals(es.drop_last(), v);
        }
    }
}

/// Globals are always in scope and never count as a variable of a fact.
pub proof fn law_globals_are_no_variables(f: FactModel, v: Name)
    requires
        fact_occurrences(f).contains(v),
    ensures
        !is_global_name(v),
    decreases f,
{
    match f {
        FactModel::Eq(_, e1, e2) => {
            lemma_add_contains(expr_occurrences(e1), expr_occurrences(e2), v);
            if expr_occurrences(e1).contains(v) {
                lemma_expr_no_globals(e1, v);
            } else {
                lemma_expr_no_globals(e2, v);
            }
        },
        FactModel::Fact(e) => lemma_expr_no_globals(e, v),
        FactModel::Or(_, branches) => {
            lemma_branches_occurrences_contains(branches, v);
            let i = choose|i: int|
                0 <= i < branches.len() && facts_occurrences(#[trigger] branches[i]).contains(v);
            lemma_facts_occurrences_contains(branches[i], v);
            let j = choose|j: int|
                0 <= j < branches[i].len() && fact_occurrences(#[trigger] branches[i][j]).contains(
                    v,
                );
            law_globals_are_no_variables(branches[i][j], v);
        },
    }
}

pub proof fn lemma_branches_no_globals(bs: Seq<Seq<FactModel>>, v: Name)
    requires
        branches_occurrences(bs).contains(v),
    ensures
        !is_global_name(v),
{
    lemma_branches_occurrences_contains(bs, v);
    let i = choose|i: int|
        0 <= i < bs.len() && facts_occurrences(#[trigger] bs[i]).contains(v);
    lemma_facts_occurrences_contains(bs[i], v);
    let j = choose|j: int|
        0 <= j < bs[i].len() && fact_occurrences(#[trigger] bs[i][j]).contains(v);
    law_globals_are_no_variables(bs[i][j], v);
}

pub proof fn lemma_key_contains(bs: Seq<Seq<FactModel>>, bound: Set<Name>, v: Name)
    ensures
        key_of(bs, bound).contains(v) <==> {
            &&& exists|i: int| 0 <= i < bs.len() && facts_occurrences(#[trigger] bs[i]).contains(v)
            &&& bound.contains(v) || forall|i: int|
                0 <= i < bs.len() ==> facts_occurrences(#[trigger] bs[i]).contains(v)
        },
{
    let all = with_all(seq![], branches_occurrences(bs));
    let p = |w: Name| key_var(w, bound, branch_var_sets(bs));
    lemma_with_all_contains(seq![], branches_occurrences(bs), v);
    lemma_branches_occurrences_contains(bs, v);
    if all.filter(p).contains(v) {
        all.lemma_filter_contains_rev(p, v);
        let k = choose|k: int| 0 <= k < all.filter(p).len() && all.filter(p)[k] == v;
        all.lemma_filter_pred(p, k);
    }
    if all.contains(v) && p(v) {
        let k = choose|k: int| 0 <= k < all.len() && all[k] == v;
        all.lemma_filter_contains(p, k);
    }
    let sets = branch_var_sets(bs);
    if p(v) && !bound.contains(v) {
        assert forall|i: int| 0 <= i < bs.len() implies facts_occurrences(
            #[trigger] bs[i],
        ).contains(v) by {
            assert(sets[i].contains(v));
        }
    }
    if forall|i: int| 0 <= i < bs.len() ==> facts_occurrences(#[trigger] bs[i]).contains(v) {
        assert forall|i: int| 0 <= i < sets.len() implies (#[trigger] sets[i]).contains(v) by {
            assert(facts_occurrences(bs[i]).contains(v));
        }
    }
}

pub proof fn lemma_key_atom_occurrences(span: Span, relation: Name, key: Seq<Name>)
    requires
        forall|i: int| 0 <= i < key.len() ==> !is_global_name(#[trigger] key[i]),
    ensures
        expr_occurrences(key_atom(span, relation, key)) == key,
    decreases key.len(),
{
    let args = Seq::new(key.len(), |i: int| ExprModel::Var(span, key[i]));
    if key.len() > 0 {
        let front = key.drop_last();
        lemma_key_atom_occurrences(span, relation, front);
        assert(args.drop_last() =~= Seq::new(front.len(), |i: int| ExprModel::Var(span, front[i])));
        assert(exprs_occurrences(args.drop_last()) == front);
        assert(expr_occurrences(args.last()) =~= seq![key.last()]);
        assert(exprs_occurrences(args) =~= key);
    } else {
        assert(exprs_occurrences(args) =~= key);
    }
}

/// What a lowered disjunction-free list has to do with the list it stands for.
pub proof fn lemma_lowered_vars(fs: Seq<FactModel>, k: nat, env: Env, n: nat)
    requires
        k <= fs.len(),
        lowered_facts(fs, k, env, n).result is Ok,
    ensures
        lowered_facts(fs, k, env, n).result->Ok_0.len() == k,
        all_plain(lowered_facts(fs, k, env, n).result->Ok_0),
        forall|j: int, v: Name|
            #![trigger fact_occurrences(lowered_facts(fs, k, env, n).result->Ok_0[j]).contains(v)]
            0 <= j < k ==> (fact_occurrences(
                lowered_facts(fs, k, env, n).result->Ok_0[j],
            ).contains(v) <==> visible(fs[j], scope(env.bound, fs), v)),
    decreases fs, k,
{
    if k > 0 {
        let before = lowered_facts(fs, (k - 1) as nat, env, n);
        lemma_lowered_vars(fs, (k - 1) as nat, env, n);
        let done = before.result->Ok_0;
        let all = lowered_facts(fs, k, env, n).result->Ok_0;
        let b = scope(env.bound, fs);
        match fs[k - 1] {
            FactModel::Or(span, branches) => {
                lemma_lowered_or_vars(span, branches, surroundings_of(fs, k - 1, env), before.next);
            },
            _ => {},
        }
        assert forall|j: int, v: Name|
            #![trigger fact_occurrences(all[j]).contains(v)]
            0 <= j < k implies (fact_occurrences(all[j]).contains(v) <==> visible(fs[j], b, v)) by {
            if j < k - 1 {
                assert(all[j] == done[j]);
                assert(fact_occurrences(done[j]).contains(v) <==> visible(fs[j], b, v));
            }
        }
    }
}

pub proof fn lemma_lowered_branches_vars(
    span: Span,
    bs: Seq<Seq<FactModel>>,
    k: nat,
    env: Env,
    n: nat,
)
    requires
        k <= bs.len(),
        lowered_branches(span, bs, k, env, n).result is Ok,
    ensures
        lowered_branches(span, bs, k, env, n).result->Ok_0.len() == k,
        forall|i: int|
            0 <= i < k ==> all_plain(
                #[trigger] lowered_branches(span, bs, k, env, n).result->Ok_0[i],
            ),
        forall|i: int, v: Name|
            #![trigger facts_occurrences(
                lowered_branches(span, bs, k, env, n).result->Ok_0[i],
            ).contains(v)]
            0 <= i < k ==> (facts_occurrences(
                lowered_branches(span, bs, k, env, n).result->Ok_0[i],
            ).contains(v) <==> visible_in(bs[i], env.bound, v)),
    decreases bs, k,
{
    if k > 0 {
        let before = lowered_branches(span, bs, (k - 1) as nat, env, n);
        lemma_lowered_branches_vars(span, bs, (k - 1) as nat, env, n);
        let done = before.result->Ok_0;
        let all = lowered_branches(span, bs, k, env, n).result->Ok_0;
        let fs = bs[k - 1];
        let inner = branch_env(span, bs, k - 1, env);
        lemma_lowered_vars(fs, fs.len(), inner, before.next);
        let new = lowered_facts(fs, fs.len(), inner, before.next).result->Ok_0;
        let b = scope(env.bound, fs);
        assert forall|i: int, v: Name|
            #![trigger facts_occurrences(all[i]).contains(v)]
            0 <= i < k implies (facts_occurrences(all[i]).contains(v) <==> visible_in(
            bs[i],
            env.bound,
            v,
        )) by {
            if i < k - 1 {
                assert(all[i] == done[i]);
                assert(facts_occurrences(done[i]).contains(v) <==> visible_in(bs[i], env.bound, v));
            } else {
                lemma_facts_occurrences_contains(new, v);
                if facts_occurrences(new).contains(v) {
                    let j = choose|j: int|
                        0 <= j < new.len() && fact_occurrences(#[trigger] new[j]).contains(v);
                    assert(visible(fs[j], b, v));
                }
                if visible_in(fs, env.bound, v) {
                    let j = choose|j: int| 0 <= j < fs.len() && visible(#[trigger] fs[j], b, v);
                    assert(fact_occurrences(new[j]).contains(v));
                }
            }
        }
        assert forall|i: int| 0 <= i < k implies all_plain(#[trigger] all[i]) by {
            if i < k - 1 {
                assert(all[i] == done[i]);
            }
        }
    }
}

pub proof fn lemma_lowered_or_vars(span: Span, bs: Seq<Seq<FactModel>>, env: Env, n: nat)
    requires
        lowered_or(span, bs, env, n).result is Ok,
    ensures
        lowered_or(span, bs, env, n).result->Ok_0 is Fact,
        forall|v: Name| #[trigger]
            fact_occurrences(lowered_or(span, bs, env, n).result->Ok_0).contains(v) <==> visible(
                FactModel::Or(span, bs),
                env.bound,
                v,
            ),
    decreases bs, bs.len() + 1,
{
    let inner = lowered_branches(span, bs, bs.len(), env, n);
    let done = inner.result->Ok_0;
    lemma_lowered_branches_vars(span, bs, bs.len(), env, n);
    let key = key_of(done, env.bound);
    let relation = nth_name(env.reserved, inner.next, relation_hint());
    lemma_key_not_global(done, env.bound);
    lemma_key_atom_occurrences(span, relation, key);
    assert forall|v: Name| #[trigger]
        fact_occurrences(lowered_or(span, bs, env, n).result->Ok_0).contains(v) <==> visible(
            FactModel::Or(span, bs),
            env.bound,
            v,
        ) by {
        lemma_key_visible(span, bs, done, env.bound, v);
    }
}

pub proof fn lemma_key_not_global(bs: Seq<Seq<FactModel>>, bound: Set<Name>)
    ensures
        forall|i: int|
            0 <= i < key_of(bs, bound).len() ==> !is_global_name(#[trigger] key_of(bs, bound)[i]),
{
    let key = key_of(bs, bound);
    assert forall|i: int| 0 <= i < key.len() implies !is_global_name(#[trigger] key[i]) by {
        assert(key.contains(key[i]));
        lemma_key_contains(bs, bound, key[i]);
        lemma_branches_occurrences_contains(bs, key[i]);
        lemma_branches_no_globals(bs, key[i]);
    }
}

/// The key of a disjunction's lowered branches is what can be seen outside it.
pub proof fn lemma_key_visible(
    span: Span,
    bs: Seq<Seq<FactModel>>,
    done: Seq<Seq<FactModel>>,
    bound: Set<Name>,
    v: Name,
)
    requires
        done.len() == bs.len(),
        forall|i: int|
            0 <= i < done.len() ==> (facts_occurrences(#[trigger] done[i]).contains(v)
                <==> visible_in(bs[i], bound, v)),
    ensures
        key_of(done, bound).contains(v) <==> visible(FactModel::Or(span, bs), bound, v),
{
    lemma_key_contains(done, bound, v);
    let some_done = exists|i: int|
        0 <= i < done.len() && facts_occurrences(#[trigger] done[i]).contains(v);
    let some_seen = exists|i: int| 0 <= i < bs.len() && visible_in(#[trigger] bs[i], bound, v);
    let all_done = forall|i: int|
        0 <= i < done.len() ==> facts_occurrences(#[trigger] done[i]).contains(v);
    let all_seen = forall|i: int|
        0 <= i < bs.len() ==> visible_in(#[trigger] bs[i], bound, v);
    if some_done {
        let i = choose|i: int|
            0 <= i < done.len() && facts_occurrences(#[trigger] done[i]).contains(v);
        assert(visible_in(bs[i], bound, v));
    }
    if some_seen {
        let i = choose|i: int| 0 <= i < bs.len() && visible_in(#[trigger] bs[i], bound, v);
        assert(facts_occurrences(done[i]).contains(v));
    }
    if all_done {
        assert forall|i: int| 0 <= i < bs.len() implies visible_in(#[trigger] bs[i], bound, v) by {
            assert(facts_occurrences(done[i]).contains(v));
        }
    }
    if all_seen {
        assert forall|i: int| 0 <= i < done.len() implies facts_occurrences(
            #[trigger] done[i],
        ).contains(v) by {
            assert(visible_in(bs[i], bound, v));
        }
    }
    lemma_visible_or(span, bs, bound, v);
}

} // verus!
