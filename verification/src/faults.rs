//! Which error a faulty disjunction is rejected with.

use vstd::prelude::*;

use crate::ast::{FactModel, Name, RuleModel, Span};
use crate::attributes::{has_or_at, is_or_at};
use crate::columns::{lemma_branch_names, lemma_renamed_stands_for, names_stand_for, stands_for};
use crate::commands::{lowered_rule, rule_env};
use crate::error::TypeErrorModel;
use crate::flatten::renamed_var;
use crate::lowered_vars::{lemma_branches_occurrences_contains, lemma_key_contains};
use crate::lowering::{branch_env, lowered_branches, lowered_facts, lowered_or, surroundings_of};
use crate::materialize::{first_such, key_of, lemma_first_such_none, materialized, Env};
use crate::mentions::{facts_mention, law_facts_vars_are_mentioned};
use crate::order::lemma_plain_facts_lowered;
use crate::scope::{all_plain, is_or};
use crate::vars::{branches_occurrences, fact_occurrences, facts_occurrences, is_global_name};

verus! {

/// A variable of a disjunction of plain branches is used outside it, though some branch does
/// not mention it and no surrounding conjunction binds it.
pub open spec fn escapes(branches: Seq<Seq<FactModel>>, env: Env, v: Name) -> bool {
    &&& !is_global_name(v)
    &&& env.outside.contains(v)
    &&& !env.bound.contains(v)
    &&& exists|b: int| 0 <= b < branches.len() && facts_mention(#[trigger] branches[b], v)
    &&& exists|b: int| 0 <= b < branches.len() && !facts_mention(#[trigger] branches[b], v)
}

/// A variable of a disjunction of plain branches can be seen outside it, but its name in the
/// typing query has no sort.
pub open spec fn is_unsorted(branches: Seq<Seq<FactModel>>, env: Env, v: Name) -> bool {
    &&& !is_global_name(v)
    &&& !env.sorts.contains_key(renamed_var(v, env.renaming))
    &&& exists|b: int| 0 <= b < branches.len() && facts_mention(#[trigger] branches[b], v)
    &&& env.bound.contains(v) || forall|b: int|
        0 <= b < branches.len() ==> facts_mention(#[trigger] branches[b], v)
}

pub proof fn lemma_shared(branches: Seq<Seq<FactModel>>, env: Env, v: Name)
    ensures
        key_of(branches, env.bound).contains(v) <==> {
            &&& !is_global_name(v)
            &&& exists|b: int| 0 <= b < branches.len() && facts_mention(#[trigger] branches[b], v)
            &&& env.bound.contains(v) || forall|b: int|
                0 <= b < branches.len() ==> facts_mention(#[trigger] branches[b], v)
        },
        branches_occurrences(branches).contains(v) <==> {
            &&& !is_global_name(v)
            &&& exists|b: int| 0 <= b < branches.len() && facts_mention(#[trigger] branches[b], v)
        },
{
    lemma_key_contains(branches, env.bound, v);
    lemma_branches_occurrences_contains(branches, v);
    assert forall|b: int| 0 <= b < branches.len() implies (facts_occurrences(
        #[trigger] branches[b],
    ).contains(v) <==> facts_mention(branches[b], v) && !is_global_name(v)) by {
        law_facts_vars_are_mentioned(branches[b], v);
    }
}

/// The value that is the first to meet a condition meets it, and none before it does.
proof fn lemma_first_such_first(s: Seq<Name>, p: spec_fn(Name) -> bool)
    ensures
        first_such(s, p) matches Some(v) ==> exists|i: int|
            0 <= i < s.len() && #[trigger] s[i] == v && p(v) && forall|j: int|
                0 <= j < i ==> !p(#[trigger] s[j]),
    decreases s.len(),
{
    if s.len() > 0 {
        let front = s.drop_last();
        lemma_first_such_first(front, p);
        lemma_first_such_none(front, p);
        match first_such(front, p) {
            Some(v) => {
                let i = choose|i: int|
                    0 <= i < front.len() && #[trigger] front[i] == v && p(v) && forall|j: int|
                        0 <= j < i ==> !p(#[trigger] front[j]);
                assert(s[i] == v);
                assert forall|j: int| 0 <= j < i implies !p(#[trigger] s[j]) by {
                    assert(front[j] == s[j]);
                }
            },
            None => {
                assert forall|j: int| 0 <= j < s.len() - 1 implies !p(#[trigger] s[j]) by {
                    assert(front[j] == s[j]);
                    assert(front.contains(front[j]));
                }
                assert(s[s.len() - 1] == s.last());
            },
        }
    }
}

/// A disjunction of plain branches is rejected if it has no branches; else if a variable that
/// is local to a branch is used outside it, for the first such variable that the branches
/// mention; else if a variable that can be seen outside it has no sort. In no other case is
/// it rejected. A disjunction that is rejected adds no commands and takes no names.
pub proof fn law_disjunctions_are_rejected_for_a_reason(
    span: Span,
    branches: Seq<Seq<FactModel>>,
    env: Env,
    n: nat,
)
    ensures
        ({
            let outcome = materialized(span, branches, env, n);
            let mentions = fact_occurrences(FactModel::Or(span, branches));
            &&& outcome.result is Err ==> outcome.aux.len() == 0 && outcome.next == n
            &&& outcome.result == Err::<FactModel, TypeErrorModel>(
                TypeErrorModel::OrWithoutBranches(span),
            ) <==> branches.len() == 0
            &&& (exists|v: Name| #[trigger] escapes(branches, env, v)) ==> exists|p: int|
                {
                    &&& 0 <= p < mentions.len()
                    &&& escapes(branches, env, #[trigger] mentions[p])
                    &&& outcome.result == Err::<FactModel, TypeErrorModel>(
                        TypeErrorModel::OrBranchLocalEscapes(mentions[p], span),
                    )
                    &&& forall|q: int| 0 <= q < p ==> !escapes(branches, env, #[trigger] mentions[q])
                }
            &&& branches.len() > 0 && (forall|v: Name| !#[trigger] escapes(branches, env, v)) ==> (
            outcome.result is Err <==> exists|v: Name| #[trigger] is_unsorted(branches, env, v))
            &&& branches.len() > 0 && (forall|v: Name| !#[trigger] escapes(branches, env, v)) ==> (
            outcome.result matches Err(e) ==> exists|v: Name| #[trigger]
                is_unsorted(branches, env, v) && e == TypeErrorModel::UntypedVariable(v, span))
        }),
{
    let outcome = materialized(span, branches, env, n);
    let mentions = branches_occurrences(branches);
    let key = key_of(branches, env.bound);
    let escaping = |v: Name| !key.contains(v) && env.outside.contains(v);
    let untyped = |v: Name| !env.sorts.contains_key(renamed_var(v, env.renaming));
    assert(fact_occurrences(FactModel::Or(span, branches)) == mentions);
    lemma_first_such_first(mentions, escaping);
    lemma_first_such_none(mentions, escaping);
    lemma_first_such_none(key, untyped);
    assert forall|v: Name| #[trigger] escapes(branches, env, v) <==> mentions.contains(v)
        && escaping(v) by {
        lemma_shared(branches, env, v);
    }
    assert forall|v: Name| #[trigger] is_unsorted(branches, env, v) <==> key.contains(v) && untyped(
        v,
    ) by {
        lemma_shared(branches, env, v);
    }
    if exists|v: Name| #[trigger] escapes(branches, env, v) {
        let p = choose|p: int|
            0 <= p < mentions.len() && escaping(#[trigger] mentions[p]) && first_such(
                mentions,
                escaping,
            ) == Some(mentions[p]) && forall|q: int| 0 <= q < p ==> !escaping(#[trigger] mentions[q]);
        assert(mentions.contains(mentions[p]));
        assert forall|q: int| 0 <= q < p implies !escapes(branches, env, #[trigger] mentions[q]) by {
            assert(!escaping(mentions[q]));
        }
        assert(escapes(branches, env, mentions[p]));
    } else if branches.len() > 0 {
        if let Some(v) = first_such(mentions, escaping) {
            assert(escapes(branches, env, v));
        }
        if let Some(v) = first_such(key, untyped) {
            assert(is_unsorted(branches, env, v));
        }
    }
}

/// A conjunction is rejected for the first of its facts that is faulty, whatever follows.
pub proof fn law_the_first_fault_counts(fs: Seq<FactModel>, k: nat, m: nat, env: Env, n: nat)
    requires
        k <= m <= fs.len(),
        lowered_facts(fs, k, env, n).result is Err,
    ensures
        lowered_facts(fs, m, env, n) == lowered_facts(fs, k, env, n),
    decreases m,
{
    if k < m {
        law_the_first_fault_counts(fs, k, (m - 1) as nat, env, n);
    }
}

/// A disjunction is rejected for the first of its branches that is faulty, before what is
/// wrong with the disjunction as a whole.
pub proof fn law_faults_of_branches_come_first(
    span: Span,
    branches: Seq<Seq<FactModel>>,
    k: nat,
    env: Env,
    n: nat,
)
    requires
        k <= branches.len(),
        lowered_branches(span, branches, k, env, n).result is Err,
    ensures
        lowered_or(span, branches, env, n).result matches Err(e) && lowered_branches(
            span,
            branches,
            k,
            env,
            n,
        ).result == Err::<Seq<Seq<FactModel>>, TypeErrorModel>(e),
{
    lemma_first_branch_fault(span, branches, k, branches.len(), env, n);
}

proof fn lemma_first_branch_fault(
    span: Span,
    branches: Seq<Seq<FactModel>>,
    k: nat,
    m: nat,
    env: Env,
    n: nat,
)
    requires
        k <= m <= branches.len(),
        lowered_branches(span, branches, k, env, n).result is Err,
    ensures
        lowered_branches(span, branches, m, env, n) == lowered_branches(span, branches, k, env, n),
    decreases m,
{
    if k < m {
        lemma_first_branch_fault(span, branches, k, (m - 1) as nat, env, n);
    }
}

/// A conjunction is rejected only for a disjunction in it that is rejected where it stands,
/// after facts that are not.
pub proof fn law_conjunctions_fail_with_their_disjunctions(
    fs: Seq<FactModel>,
    k: nat,
    env: Env,
    n: nat,
)
    requires
        k <= fs.len(),
    ensures
        lowered_facts(fs, k, env, n).result is Err <==> exists|j: int|
            {
                &&& 0 <= j < k
                &&& #[trigger] fs[j] is Or
                &&& lowered_facts(fs, j as nat, env, n).result is Ok
                &&& lowered_or(
                    fs[j]->Or_0,
                    fs[j]->Or_1,
                    surroundings_of(fs, j, env),
                    lowered_facts(fs, j as nat, env, n).next,
                ).result is Err
            },
    decreases k,
{
    if k > 0 {
        let before = lowered_facts(fs, (k - 1) as nat, env, n);
        law_conjunctions_fail_with_their_disjunctions(fs, (k - 1) as nat, env, n);
        if lowered_facts(fs, k, env, n).result is Err {
            if before.result is Ok {
                assert(fs[k - 1] is Or);
                assert(lowered_or(
                    fs[k - 1]->Or_0,
                    fs[k - 1]->Or_1,
                    surroundings_of(fs, k - 1, env),
                    before.next,
                ).result is Err);
            } else {
                let j = choose|j: int|
                    {
                        &&& 0 <= j < k - 1
                        &&& #[trigger] fs[j] is Or
                        &&& lowered_facts(fs, j as nat, env, n).result is Ok
                        &&& lowered_or(
                            fs[j]->Or_0,
                            fs[j]->Or_1,
                            surroundings_of(fs, j, env),
                            lowered_facts(fs, j as nat, env, n).next,
                        ).result is Err
                    };
                assert(0 <= j < k && fs[j] is Or);
            }
        }
    }
}

/// A disjunction is rejected only if a branch is empty or rejected after branches that are
/// not, or if the branches, as they are lowered, make no relation.
pub proof fn law_disjunctions_fail_with_their_branches(
    span: Span,
    branches: Seq<Seq<FactModel>>,
    k: nat,
    env: Env,
    n: nat,
)
    requires
        k <= branches.len(),
    ensures
        lowered_branches(span, branches, k, env, n).result is Err <==> exists|b: int|
            {
                &&& 0 <= b < k
                &&& lowered_branches(span, branches, b as nat, env, n).result is Ok
                &&& (#[trigger] branches[b]).len() == 0 || lowered_facts(
                    branches[b],
                    branches[b].len(),
                    branch_env(span, branches, b, env),
                    lowered_branches(span, branches, b as nat, env, n).next,
                ).result is Err
            },
        lowered_or(span, branches, env, n).result is Err <==> match lowered_branches(
            span,
            branches,
            branches.len(),
            env,
            n,
        ).result {
            Err(_) => true,
            Ok(done) => materialized(
                span,
                done,
                env,
                lowered_branches(span, branches, branches.len(), env, n).next,
            ).result is Err,
        },
    decreases k,
{
    if k > 0 {
        let before = lowered_branches(span, branches, (k - 1) as nat, env, n);
        law_disjunctions_fail_with_their_branches(span, branches, (k - 1) as nat, env, n);
        if lowered_branches(span, branches, k, env, n).result is Err {
            if before.result is Ok {
                assert(branches[k - 1].len() == 0 || lowered_facts(
                    branches[k - 1],
                    branches[k - 1].len(),
                    branch_env(span, branches, k - 1, env),
                    before.next,
                ).result is Err);
            } else {
                let b = choose|b: int|
                    {
                        &&& 0 <= b < k - 1
                        &&& lowered_branches(span, branches, b as nat, env, n).result is Ok
                        &&& (#[trigger] branches[b]).len() == 0 || lowered_facts(
                            branches[b],
                            branches[b].len(),
                            branch_env(span, branches, b, env),
                            lowered_branches(span, branches, b as nat, env, n).next,
                        ).result is Err
                    };
                assert(0 <= b < k && branches[b].len() >= 0);
            }
        } else if before.result is Ok {
            assert(forall|b: int|
                0 <= b < k && lowered_branches(span, branches, b as nat, env, n).result is Ok ==> !((
                #[trigger] branches[b]).len() == 0 || lowered_facts(
                    branches[b],
                    branches[b].len(),
                    branch_env(span, branches, b, env),
                    lowered_branches(span, branches, b as nat, env, n).next,
                ).result is Err));
        }
    }
}

/// Lowering leaves a conjunction of plain facts as it is, in every surrounding: it adds
/// nothing and takes no names.
pub proof fn law_plain_facts_stay(fs: Seq<FactModel>, env: Env, n: nat)
    requires
        forall|j: int| 0 <= j < fs.len() ==> !(#[trigger] fs[j] is Or),
    ensures
        lowered_facts(fs, fs.len(), env, n).result == Ok::<Seq<FactModel>, TypeErrorModel>(fs),
        lowered_facts(fs, fs.len(), env, n).aux.len() == 0,
        lowered_facts(fs, fs.len(), env, n).next == n,
{
    assert(all_plain(fs)) by {
        assert forall|j: int| 0 <= j < fs.len() implies !is_or(#[trigger] fs[j]) by {}
    }
    lemma_plain_facts_lowered(fs, fs.len(), env, n);
    assert(fs.take(fs.len() as int) =~= fs);
}

/// A disjunction with an empty branch, after branches that hold plain facts, is rejected for
/// that, whatever else is wrong with it.
pub proof fn law_empty_branches_are_rejected(
    span: Span,
    branches: Seq<Seq<FactModel>>,
    i: int,
    env: Env,
    n: nat,
)
    requires
        0 <= i < branches.len(),
        branches[i].len() == 0,
        forall|b: int, j: int|
            0 <= b < i && 0 <= j < branches[b].len() ==> !(#[trigger] branches[b][j] is Or),
    ensures
        lowered_or(span, branches, env, n).result == Err::<FactModel, TypeErrorModel>(
            TypeErrorModel::EmptyOrBranch(span),
        ),
{
    lemma_branches_before_empty(span, branches, i as nat, i, env, n);
    if lowered_branches(span, branches, i as nat, env, n).result is Ok {
        assert(lowered_branches(span, branches, (i + 1) as nat, env, n).result is Err);
        law_faults_of_branches_come_first(span, branches, (i + 1) as nat, env, n);
    } else {
        law_faults_of_branches_come_first(span, branches, i as nat, env, n);
    }
}

proof fn lemma_branches_before_empty(
    span: Span,
    branches: Seq<Seq<FactModel>>,
    k: nat,
    i: int,
    env: Env,
    n: nat,
)
    requires
        k <= i < branches.len(),
        forall|b: int, j: int|
            0 <= b < i && 0 <= j < branches[b].len() ==> !(#[trigger] branches[b][j] is Or),
    ensures
        lowered_branches(span, branches, k, env, n).result matches Err(e) ==> e
            == TypeErrorModel::EmptyOrBranch(span),
    decreases k,
{
    if k > 0 {
        let before = lowered_branches(span, branches, (k - 1) as nat, env, n);
        let fs = branches[k - 1];
        lemma_branches_before_empty(span, branches, (k - 1) as nat, i, env, n);
        assert forall|j: int| 0 <= j < fs.len() implies !is_or(#[trigger] fs[j]) by {
            assert(!(branches[k - 1][j] is Or));
        }
        lemma_plain_facts_lowered(
            fs,
            fs.len(),
            branch_env(span, branches, k - 1, env),
            before.next,
        );
    }
}

/// What an error that speaks of a missing sort says: a name that the variable can have in the
/// typing query has no sort, and a disjunction with the span stands among some facts.
pub open spec fn misses_sort(
    e: TypeErrorModel,
    fs: Seq<FactModel>,
    sorts: Map<Name, Name>,
    reserved: Name,
) -> bool {
    e matches TypeErrorModel::UntypedVariable(v, span) ==> has_or_at(fs, span)
        && !is_global_name(v) && exists|w: Name| #[trigger]
        stands_for(w, v, reserved) && !sorts.contains_key(w)
}

proof fn lemma_facts_miss_sort(fs: Seq<FactModel>, k: nat, env: Env, n: nat)
    requires
        k <= fs.len(),
        names_stand_for(env.renaming, env.reserved),
    ensures
        lowered_facts(fs, k, env, n).result matches Err(e) ==> misses_sort(
            e,
            fs,
            env.sorts,
            env.reserved,
        ),
    decreases fs, k,
{
    if k > 0 {
        let before = lowered_facts(fs, (k - 1) as nat, env, n);
        lemma_facts_miss_sort(fs, (k - 1) as nat, env, n);
        if before.result is Ok {
            if let FactModel::Or(span, branches) = fs[k - 1] {
                let inner = surroundings_of(fs, k - 1, env);
                lemma_or_misses_sort(span, branches, inner, before.next);
                if let Err(e) = lowered_or(span, branches, inner, before.next).result {
                    if let TypeErrorModel::UntypedVariable(_, at) = e {
                        assert(is_or_at(fs[k - 1], at));
                    }
                }
            }
        }
    }
}

proof fn lemma_branches_miss_sort(span: Span, bs: Seq<Seq<FactModel>>, k: nat, env: Env, n: nat)
    requires
        k <= bs.len(),
        names_stand_for(env.renaming, env.reserved),
    ensures
        lowered_branches(span, bs, k, env, n).result matches Err(e) ==> (
        e matches TypeErrorModel::UntypedVariable(v, at) ==> is_or_at(FactModel::Or(span, bs), at)
            && !is_global_name(v) && exists|w: Name| #[trigger]
            stands_for(w, v, env.reserved) && !env.sorts.contains_key(w)),
    decreases bs, k,
{
    if k > 0 {
        let before = lowered_branches(span, bs, (k - 1) as nat, env, n);
        lemma_branches_miss_sort(span, bs, (k - 1) as nat, env, n);
        if before.result is Ok && bs[k - 1].len() > 0 {
            let fs = bs[k - 1];
            let inner = branch_env(span, bs, k - 1, env);
            lemma_branch_names(span, bs, k - 1, env);
            lemma_facts_miss_sort(fs, fs.len(), inner, before.next);
            if let Err(e) = lowered_facts(fs, fs.len(), inner, before.next).result {
                if let TypeErrorModel::UntypedVariable(_, at) = e {
                    assert(has_or_at(bs[k - 1], at));
                    match FactModel::Or(span, bs) {
                        FactModel::Or(_, branches) => assert(has_or_at(branches[k - 1], at)),
                        _ => {},
                    }
                }
            }
        }
    }
}

proof fn lemma_or_misses_sort(span: Span, bs: Seq<Seq<FactModel>>, env: Env, n: nat)
    requires
        names_stand_for(env.renaming, env.reserved),
    ensures
        lowered_or(span, bs, env, n).result matches Err(e) ==> (
        e matches TypeErrorModel::UntypedVariable(v, at) ==> is_or_at(FactModel::Or(span, bs), at)
            && !is_global_name(v) && exists|w: Name| #[trigger]
            stands_for(w, v, env.reserved) && !env.sorts.contains_key(w)),
    decreases bs, bs.len() + 1,
{
    let inner = lowered_branches(span, bs, bs.len(), env, n);
    lemma_branches_miss_sort(span, bs, bs.len(), env, n);
    if inner.result is Ok {
        let done = inner.result->Ok_0;
        let own = materialized(span, done, env, inner.next);
        law_disjunctions_are_rejected_for_a_reason(span, done, env, inner.next);
        if let Err(e) = own.result {
            if let TypeErrorModel::UntypedVariable(v, at) = e {
                assert(done.len() > 0);
                assert(forall|w: Name| !#[trigger] escapes(done, env, w));
                assert(is_unsorted(done, env, v) && at == span);
                lemma_renamed_stands_for(v, env.renaming, env.reserved);
                assert(stands_for(renamed_var(v, env.renaming), v, env.reserved));
            }
        }
    }
}

/// A rule is rejected for a variable without a sort only if the type environment gave no sort
/// to a name that the variable has in the typing query.
pub proof fn law_sorted_variables_are_not_rejected(
    rule: RuleModel,
    sorts: Map<Name, Name>,
    reserved: Name,
    queried: nat,
    n: nat,
)
    ensures
        lowered_rule(rule, sorts, reserved, queried, n).0 matches Err(e) ==> misses_sort(
            e,
            rule.body,
            sorts,
            reserved,
        ),
{
    lemma_facts_miss_sort(
        rule.body,
        rule.body.len(),
        rule_env(rule, sorts, reserved, queried),
        n,
    );
}

} // verus!
