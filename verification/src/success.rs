//! Which rules can be lowered.

use vstd::prelude::*;

use crate::ast::{FactModel, Name, RuleModel, Span};
use crate::commands::{lowered_rule, rule_env, typing_query};
use crate::error::TypeErrorModel;
use crate::flatten::{flattened, flattened_branches, renamed_fact, renamed_var};
use crate::lowered_vars::{
    lemma_branches_occurrences_contains, lemma_key_visible, lemma_lowered_branches_vars,
};
use crate::lowering::{
    branch_env, lowered_branches, lowered_facts, lowered_or, outside_of, surroundings_of,
};
use crate::materialize::{first_escape, first_untyped, key_of, lemma_first_such_none, Env};
use crate::query::{
    flattened_branch, lemma_facts_occurrences_add, lemma_fresh_renames_vars,
    lemma_query_has_visible_or, renames_vars,
};
use crate::scope::{scope, visible, visible_in};
use crate::vars::{actions_occurrences, branches_occurrences, facts_occurrences, is_global_name};

verus! {

/// Whether the disjunctions of a fact have branches, none of them is empty, and no variable
/// that is local to a branch is used outside its disjunction. `bound` holds the variables
/// bound inside the conjunction that the fact belongs to, `outside` those used outside the
/// fact.
pub open spec fn fact_well_scoped(f: FactModel, bound: Set<Name>, outside: Set<Name>) -> bool
    decreases f,
{
    match f {
        FactModel::Or(_, branches) => {
            &&& branches.len() > 0
            &&& forall|i: int|
                0 <= i < branches.len() ==> (#[trigger] branches[i]).len() > 0 && well_scoped(
                    branches[i],
                    bound,
                    outside,
                )
            &&& forall|i: int, v: Name|
                #![trigger visible_in(branches[i], bound, v)]
                0 <= i < branches.len() && visible_in(branches[i], bound, v) && outside.contains(v)
                    ==> visible(f, bound, v)
        },
        _ => true,
    }
}

/// The same of a conjunction, where `bound` holds the variables bound around it and
/// `outside` those used outside it.
pub open spec fn well_scoped(fs: Seq<FactModel>, bound: Set<Name>, outside: Set<Name>) -> bool
    decreases fs,
{
    forall|j: int|
        0 <= j < fs.len() ==> fact_well_scoped(
            #[trigger] fs[j],
            scope(bound, fs),
            outside_of(fs, j, bound, outside),
        )
}

pub proof fn lemma_or_well_scoped(
    span: Span,
    bs: Seq<Seq<FactModel>>,
    bound: Set<Name>,
    outside: Set<Name>,
)
    ensures
        fact_well_scoped(FactModel::Or(span, bs), bound, outside) <==> {
            &&& bs.len() > 0
            &&& forall|i: int|
                0 <= i < bs.len() ==> (#[trigger] bs[i]).len() > 0 && well_scoped(
                    bs[i],
                    bound,
                    outside,
                )
            &&& forall|i: int, v: Name|
                #![trigger visible_in(bs[i], bound, v)]
                0 <= i < bs.len() && visible_in(bs[i], bound, v) && outside.contains(v)
                    ==> visible(FactModel::Or(span, bs), bound, v)
        },
{
    let f = FactModel::Or(span, bs);
    match f {
        FactModel::Or(_, branches) => {
            if fact_well_scoped(f, bound, outside) {
                assert forall|i: int| 0 <= i < bs.len() implies (#[trigger] bs[i]).len() > 0
                    && well_scoped(bs[i], bound, outside) by {
                    assert(branches[i].len() > 0);
                }
                assert forall|i: int, v: Name|
                    #![trigger visible_in(bs[i], bound, v)]
                    0 <= i < bs.len() && visible_in(bs[i], bound, v) && outside.contains(
                        v,
                    ) implies visible(f, bound, v) by {
                    assert(visible_in(branches[i], bound, v));
                }
            }
        },
        _ => {},
    }
}

/// Whether every variable of some facts has a sort.
pub open spec fn all_sorted(fs: Seq<FactModel>, sorts: Map<Name, Name>) -> bool {
    forall|v: Name| #[trigger] facts_occurrences(fs).contains(v) ==> sorts.contains_key(v)
}

proof fn lemma_sorted_add(a: Seq<FactModel>, b: Seq<FactModel>, sorts: Map<Name, Name>)
    requires
        all_sorted(a + b, sorts),
    ensures
        all_sorted(a, sorts),
        all_sorted(b, sorts),
{
    lemma_facts_occurrences_add(a, b);
    assert forall|v: Name| #[trigger] facts_occurrences(a).contains(v) implies sorts.contains_key(
        v,
    ) by {
        assert(facts_occurrences(a + b).contains(v));
    }
    assert forall|v: Name| #[trigger] facts_occurrences(b).contains(v) implies sorts.contains_key(
        v,
    ) by {
        assert(facts_occurrences(a + b).contains(v));
    }
}

/// The typing query of the first facts of a conjunction has been answered: every variable
/// in it has a sort.
pub open spec fn facts_typed(fs: Seq<FactModel>, k: nat, env: Env) -> bool {
    &&& renames_vars(env.renaming)
    &&& !is_global_name(env.reserved)
    &&& all_sorted(
        flattened(fs, k, env.bound, env.renaming, env.reserved, env.queried).0,
        env.sorts,
    )
}

/// The same of the first branches of a disjunction.
pub open spec fn branches_typed(
    span: Span,
    bs: Seq<Seq<FactModel>>,
    k: nat,
    env: Env,
) -> bool {
    &&& renames_vars(env.renaming)
    &&& !is_global_name(env.reserved)
    &&& all_sorted(
        flattened_branches(span, bs, k, env.bound, env.renaming, env.reserved, env.queried).0,
        env.sorts,
    )
}

proof fn lemma_facts_succeed(fs: Seq<FactModel>, k: nat, env: Env, n: nat)
    requires
        k <= fs.len(),
        facts_typed(fs, k, env),
    ensures
        lowered_facts(fs, k, env, n).result is Ok <==> forall|j: int|
            0 <= j < k ==> fact_well_scoped(
                #[trigger] fs[j],
                scope(env.bound, fs),
                outside_of(fs, j, env.bound, env.outside),
            ),
    decreases fs, k,
{
    if k > 0 {
        let before = lowered_facts(fs, (k - 1) as nat, env, n);
        let flat = flattened(
            fs,
            (k - 1) as nat,
            env.bound,
            env.renaming,
            env.reserved,
            env.queried,
        );
        let b = scope(env.bound, fs);
        match fs[k - 1] {
            FactModel::Or(span, branches) => {
                let inner = surroundings_of(fs, k - 1, env);
                let or = flattened_branches(
                    span,
                    branches,
                    branches.len(),
                    b,
                    env.renaming,
                    env.reserved,
                    flat.1,
                );
                lemma_sorted_add(flat.0, or.0, env.sorts);
                lemma_facts_succeed(fs, (k - 1) as nat, env, n);
                lemma_or_succeeds(span, branches, inner, before.next);
            },
            f => {
                let g = renamed_fact(f, env.renaming);
                assert(flat.0.push(g) =~= flat.0 + seq![g]);
                lemma_sorted_add(flat.0, seq![g], env.sorts);
                lemma_facts_succeed(fs, (k - 1) as nat, env, n);
            },
        }
        let last = fact_well_scoped(
            fs[k - 1],
            b,
            outside_of(fs, k - 1, env.bound, env.outside),
        );
        assert(lowered_facts(fs, k, env, n).result is Ok <==> before.result is Ok && last);
    }
}

proof fn lemma_branches_succeed(span: Span, bs: Seq<Seq<FactModel>>, k: nat, env: Env, n: nat)
    requires
        k <= bs.len(),
        branches_typed(span, bs, k, env),
    ensures
        lowered_branches(span, bs, k, env, n).result is Ok <==> forall|i: int|
            0 <= i < k ==> (#[trigger] bs[i]).len() > 0 && well_scoped(
                bs[i],
                env.bound,
                env.outside,
            ),
    decreases bs, k,
{
    if k > 0 {
        let before = lowered_branches(span, bs, (k - 1) as nat, env, n);
        let flat = flattened_branches(
            span,
            bs,
            (k - 1) as nat,
            env.bound,
            env.renaming,
            env.reserved,
            env.queried,
        );
        let branch = flattened_branch(
            span,
            bs,
            k - 1,
            env.bound,
            env.renaming,
            env.reserved,
            flat.1,
        );
        let inner = branch_env(span, bs, k - 1, env);
        lemma_sorted_add(flat.0, branch.0, env.sorts);
        lemma_branches_succeed(span, bs, (k - 1) as nat, env, n);
        lemma_fresh_renames_vars(
            env.renaming,
            FactModel::Or(span, bs),
            k - 1,
            env.bound,
            env.reserved,
            flat.1,
        );
        lemma_facts_succeed(bs[k - 1], bs[k - 1].len(), inner, before.next);
        let last = bs[k - 1].len() > 0 && well_scoped(bs[k - 1], env.bound, env.outside);
        assert(lowered_branches(span, bs, k, env, n).result is Ok <==> before.result is Ok && last);
    }
}

/// The key of a disjunction whose typing query has been answered is what can be seen
/// outside the disjunction, and has sorts.
proof fn lemma_keys_typed(
    span: Span,
    bs: Seq<Seq<FactModel>>,
    done: Seq<Seq<FactModel>>,
    env: Env,
)
    requires
        branches_typed(span, bs, bs.len(), env),
        done.len() == bs.len(),
        forall|i: int, v: Name|
            #![trigger facts_occurrences(done[i]).contains(v)]
            0 <= i < done.len() ==> (facts_occurrences(done[i]).contains(v) <==> visible_in(
                bs[i],
                env.bound,
                v,
            )),
    ensures
        forall|v: Name| #[trigger]
            key_of(done, env.bound).contains(v) <==> visible(
                FactModel::Or(span, bs),
                env.bound,
                v,
            ),
        first_untyped(key_of(done, env.bound), env.sorts, env.renaming) is None,
{
    let f = FactModel::Or(span, bs);
    let key = key_of(done, env.bound);
    let untyped = |v: Name| !env.sorts.contains_key(renamed_var(v, env.renaming));
    assert forall|v: Name| #[trigger] key.contains(v) <==> visible(f, env.bound, v) by {
        lemma_key_visible(span, bs, done, env.bound, v);
    }
    lemma_first_such_none(key, untyped);
    assert forall|v: Name| #[trigger] key.contains(v) implies !untyped(v) by {
        lemma_query_has_visible_or(
            span,
            bs,
            env.bound,
            env.renaming,
            env.reserved,
            env.queried,
            v,
        );
    }
}

proof fn lemma_or_succeeds(span: Span, bs: Seq<Seq<FactModel>>, env: Env, n: nat)
    requires
        branches_typed(span, bs, bs.len(), env),
    ensures
        lowered_or(span, bs, env, n).result is Ok <==> fact_well_scoped(
            FactModel::Or(span, bs),
            env.bound,
            env.outside,
        ),
    decreases bs, bs.len() + 1,
{
    let f = FactModel::Or(span, bs);
    let inner = lowered_branches(span, bs, bs.len(), env, n);
    lemma_branches_succeed(span, bs, bs.len(), env, n);
    lemma_or_well_scoped(span, bs, env.bound, env.outside);
    if inner.result is Ok {
        let done = inner.result->Ok_0;
        let key = key_of(done, env.bound);
        let escapes = |v: Name| !key.contains(v) && env.outside.contains(v);
        lemma_lowered_branches_vars(span, bs, bs.len(), env, n);
        lemma_first_such_none(branches_occurrences(done), escapes);
        lemma_keys_typed(span, bs, done, env);
        let scoped = forall|i: int, v: Name|
            #![trigger visible_in(bs[i], env.bound, v)]
            0 <= i < bs.len() && visible_in(bs[i], env.bound, v) && env.outside.contains(v)
                ==> visible(f, env.bound, v);
        if first_escape(done, key, env.outside) is None {
            assert forall|i: int, v: Name|
                #![trigger visible_in(bs[i], env.bound, v)]
                0 <= i < bs.len() && visible_in(bs[i], env.bound, v) && env.outside.contains(
                    v,
                ) implies visible(f, env.bound, v) by {
                assert(facts_occurrences(done[i]).contains(v));
                lemma_branches_occurrences_contains(done, v);
                assert(branches_occurrences(done).contains(v));
            }
        }
        if scoped {
            assert forall|v: Name| #[trigger]
                branches_occurrences(done).contains(v) implies !escapes(v) by {
                lemma_branches_occurrences_contains(done, v);
                let i = choose|i: int|
                    0 <= i < done.len() && facts_occurrences(#[trigger] done[i]).contains(v);
                assert(visible_in(bs[i], env.bound, v));
            }
        }
        assert(lowered_or(span, bs, env, n).result is Ok <==> bs.len() > 0 && first_escape(
            done,
            key,
            env.outside,
        ) is None);
    }
}

/// A conjunction whose typing query has been answered can be lowered if and only if every
/// disjunction has branches, none of these is empty, and no variable that is local to a
/// branch is used outside its disjunction.
pub proof fn law_list_lowering_succeeds(fs: Seq<FactModel>, env: Env, n: nat)
    requires
        facts_typed(fs, fs.len(), env),
    ensures
        lowered_facts(fs, fs.len(), env, n).result is Ok <==> well_scoped(
            fs,
            env.bound,
            env.outside,
        ),
{
    lemma_facts_succeed(fs, fs.len(), env, n);
}

/// A rule whose typing query has been answered can be lowered if and only if every
/// disjunction has branches, none of these is empty, and no variable that is local to a
/// branch is used outside its disjunction. In particular every key variable has a sort.
///
/// The reserved prefix must not make names of globals.
pub proof fn law_lowering_succeeds(
    rule: RuleModel,
    sorts: Map<Name, Name>,
    reserved: Name,
    queried: nat,
    n: nat,
)
    requires
        !is_global_name(reserved),
        all_sorted(typing_query(rule.body, reserved, queried).0, sorts),
    ensures
        lowered_rule(rule, sorts, reserved, queried, n).0 is Ok <==> well_scoped(
            rule.body,
            Set::empty(),
            actions_occurrences(rule.head).to_set(),
        ),
{
    lemma_facts_succeed(
        rule.body,
        rule.body.len(),
        rule_env(rule, sorts, reserved, queried),
        n,
    );
}

/// Whether an error names something that is wrong with a disjunction of a fact: that it has
/// no branches or an empty one, or a variable that is local to a branch and used outside the
/// disjunction.
pub open spec fn fact_flaw(
    f: FactModel,
    bound: Set<Name>,
    outside: Set<Name>,
    e: TypeErrorModel,
) -> bool
    decreases f,
{
    match f {
        FactModel::Or(span, branches) => {
            ||| e == TypeErrorModel::OrWithoutBranches(span) && branches.len() == 0
            ||| e == TypeErrorModel::EmptyOrBranch(span) && exists|i: int|
                0 <= i < branches.len() && (#[trigger] branches[i]).len() == 0
            ||| e matches TypeErrorModel::OrBranchLocalEscapes(v, at) && at == span
                && outside.contains(v) && !visible(f, bound, v) && exists|i: int|
                0 <= i < branches.len() && visible_in(#[trigger] branches[i], bound, v)
            ||| exists|i: int|
                0 <= i < branches.len() && flaw(#[trigger] branches[i], bound, outside, e)
        },
        _ => false,
    }
}

/// The same of the facts of a conjunction.
pub open spec fn flaw(
    fs: Seq<FactModel>,
    bound: Set<Name>,
    outside: Set<Name>,
    e: TypeErrorModel,
) -> bool
    decreases fs,
{
    exists|j: int|
        0 <= j < fs.len() && fact_flaw(
            #[trigger] fs[j],
            scope(bound, fs),
            outside_of(fs, j, bound, outside),
            e,
        )
}

proof fn lemma_facts_flaw(fs: Seq<FactModel>, k: nat, env: Env, n: nat)
    requires
        k <= fs.len(),
        facts_typed(fs, k, env),
    ensures
        lowered_facts(fs, k, env, n).result matches Err(e) ==> flaw(
            fs,
            env.bound,
            env.outside,
            e,
        ),
    decreases fs, k,
{
    if k > 0 {
        let before = lowered_facts(fs, (k - 1) as nat, env, n);
        let flat = flattened(
            fs,
            (k - 1) as nat,
            env.bound,
            env.renaming,
            env.reserved,
            env.queried,
        );
        match fs[k - 1] {
            FactModel::Or(span, branches) => {
                let inner = surroundings_of(fs, k - 1, env);
                let or = flattened_branches(
                    span,
                    branches,
                    branches.len(),
                    scope(env.bound, fs),
                    env.renaming,
                    env.reserved,
                    flat.1,
                );
                lemma_sorted_add(flat.0, or.0, env.sorts);
                lemma_facts_flaw(fs, (k - 1) as nat, env, n);
                lemma_or_flaw(span, branches, inner, before.next);
                let here = lowered_or(span, branches, inner, before.next);
                if before.result is Ok && here.result is Err {
                    assert(fact_flaw(fs[k - 1], inner.bound, inner.outside, here.result->Err_0));
                }
            },
            f => {
                let g = renamed_fact(f, env.renaming);
                assert(flat.0.push(g) =~= flat.0 + seq![g]);
                lemma_sorted_add(flat.0, seq![g], env.sorts);
                lemma_facts_flaw(fs, (k - 1) as nat, env, n);
            },
        }
    }
}

proof fn lemma_branches_flaw(span: Span, bs: Seq<Seq<FactModel>>, k: nat, env: Env, n: nat)
    requires
        k <= bs.len(),
        branches_typed(span, bs, k, env),
    ensures
        lowered_branches(span, bs, k, env, n).result matches Err(e) ==> fact_flaw(
            FactModel::Or(span, bs),
            env.bound,
            env.outside,
            e,
        ),
    decreases bs, k,
{
    if k > 0 {
        let f = FactModel::Or(span, bs);
        let before = lowered_branches(span, bs, (k - 1) as nat, env, n);
        let flat = flattened_branches(
            span,
            bs,
            (k - 1) as nat,
            env.bound,
            env.renaming,
            env.reserved,
            env.queried,
        );
        let branch = flattened_branch(
            span,
            bs,
            k - 1,
            env.bound,
            env.renaming,
            env.reserved,
            flat.1,
        );
        let inner = branch_env(span, bs, k - 1, env);
        lemma_sorted_add(flat.0, branch.0, env.sorts);
        lemma_branches_flaw(span, bs, (k - 1) as nat, env, n);
        lemma_fresh_renames_vars(
            env.renaming,
            f,
            k - 1,
            env.bound,
            env.reserved,
            flat.1,
        );
        lemma_facts_flaw(bs[k - 1], bs[k - 1].len(), inner, before.next);
        let outcome = lowered_branches(span, bs, k, env, n);
        if before.result is Ok && outcome.result is Err {
            match f {
                FactModel::Or(_, branches) => {
                    if bs[k - 1].len() == 0 {
                        assert(branches[k - 1].len() == 0);
                    } else {
                        assert(flaw(branches[k - 1], env.bound, env.outside, outcome.result->Err_0));
                    }
                },
                _ => {},
            }
        }
    }
}

proof fn lemma_or_flaw(span: Span, bs: Seq<Seq<FactModel>>, env: Env, n: nat)
    requires
        branches_typed(span, bs, bs.len(), env),
    ensures
        lowered_or(span, bs, env, n).result matches Err(e) ==> fact_flaw(
            FactModel::Or(span, bs),
            env.bound,
            env.outside,
            e,
        ),
    decreases bs, bs.len() + 1,
{
    let f = FactModel::Or(span, bs);
    let inner = lowered_branches(span, bs, bs.len(), env, n);
    lemma_branches_flaw(span, bs, bs.len(), env, n);
    if inner.result is Ok {
        let done = inner.result->Ok_0;
        let key = key_of(done, env.bound);
        let escapes = |v: Name| !key.contains(v) && env.outside.contains(v);
        lemma_lowered_branches_vars(span, bs, bs.len(), env, n);
        lemma_keys_typed(span, bs, done, env);
        lemma_first_such_none(branches_occurrences(done), escapes);
        if let Some(v) = first_escape(done, key, env.outside) {
            lemma_branches_occurrences_contains(done, v);
            let i = choose|i: int|
                0 <= i < done.len() && facts_occurrences(#[trigger] done[i]).contains(v);
            assert(visible_in(bs[i], env.bound, v));
            match f {
                FactModel::Or(_, branches) => {
                    assert(visible_in(branches[i], env.bound, v));
                },
                _ => {},
            }
        }
    }
}

/// Where the typing query has been answered, the error that a conjunction is rejected with
/// names something that is wrong with it: a disjunction without branches or with an empty
/// one, or a variable that is local to a branch and used outside its disjunction.
pub proof fn law_list_errors_name_a_flaw(fs: Seq<FactModel>, env: Env, n: nat)
    requires
        facts_typed(fs, fs.len(), env),
    ensures
        lowered_facts(fs, fs.len(), env, n).result matches Err(e) ==> flaw(
            fs,
            env.bound,
            env.outside,
            e,
        ),
{
    lemma_facts_flaw(fs, fs.len(), env, n);
}

/// Where the typing query has been answered, the error that a rule is rejected with names
/// something that is wrong with it: a disjunction without branches or with an empty one, or
/// a variable that is local to a branch and used outside its disjunction.
///
/// The reserved prefix must not make names of globals.
pub proof fn law_errors_name_a_flaw(
    rule: RuleModel,
    sorts: Map<Name, Name>,
    reserved: Name,
    queried: nat,
    n: nat,
)
    requires
        !is_global_name(reserved),
        all_sorted(typing_query(rule.body, reserved, queried).0, sorts),
    ensures
        lowered_rule(rule, sorts, reserved, queried, n).0 matches Err(e) ==> flaw(
            rule.body,
            Set::empty(),
            actions_occurrences(rule.head).to_set(),
            e,
        ),
{
    lemma_facts_flaw(
        rule.body,
        rule.body.len(),
        rule_env(rule, sorts, reserved, queried),
        n,
    );
}

} // verus!
