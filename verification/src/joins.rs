//! That lowering a conjunction drops no join.

use vstd::prelude::*;

use crate::ast::{CommandModel, FactModel, Name, RuleModel, Span};
use crate::commands::{lowered_rule, rule_env};
use crate::lowered_vars::{
    lemma_branches_occurrences_contains, lemma_facts_occurrences_contains, lemma_key_visible,
    lemma_lowered_branches_vars, lemma_lowered_vars,
};
use crate::lowering::{branch_env, lowered_branches, lowered_facts, lowered_or, surroundings_of};
use crate::materialize::{first_escape, key_of, lemma_first_such_none, Env};
use crate::mentions::{
    action_mentions, fact_mentions, facts_mention, law_fact_vars_are_mentioned,
    law_facts_vars_are_mentioned, law_head_vars_are_mentioned,
};
use crate::query::lemma_visible_occurs;
use crate::scope::{is_or, lemma_visible_or, scope, visible, visible_in};
use crate::vars::{branches_occurrences, fact_occurrences, facts_occurrences, is_global_name};

verus! {

/// A variable that is used outside a fact can be seen outside it.
proof fn lemma_used_outside(fs: Seq<FactModel>, k: nat, env: Env, n: nat, j: int, v: Name)
    requires
        0 <= j < k <= fs.len(),
        lowered_facts(fs, k, env, n).result is Ok,
        surroundings_of(fs, j, env).outside.contains(v),
        fact_occurrences(fs[j]).contains(v),
    ensures
        visible(fs[j], scope(env.bound, fs), v),
    decreases fs, k,
{
    if j < k - 1 {
        lemma_used_outside(fs, (k - 1) as nat, env, n, j, v);
    } else {
        let before = lowered_facts(fs, (k - 1) as nat, env, n);
        match fs[j] {
            FactModel::Or(span, branches) => {
                lemma_or_used_outside(
                    span,
                    branches,
                    surroundings_of(fs, j, env),
                    before.next,
                    v,
                );
            },
            _ => {},
        }
    }
}

/// A variable that is used outside a conjunction can be seen outside it.
proof fn lemma_list_used_outside(fs: Seq<FactModel>, env: Env, n: nat, v: Name)
    requires
        lowered_facts(fs, fs.len(), env, n).result is Ok,
        env.outside.contains(v),
        facts_occurrences(fs).contains(v),
    ensures
        visible_in(fs, env.bound, v),
    decreases fs, fs.len() + 1,
{
    lemma_facts_occurrences_contains(fs, v);
    let j = choose|j: int| 0 <= j < fs.len() && fact_occurrences(#[trigger] fs[j]).contains(v);
    lemma_used_outside(fs, fs.len(), env, n, j, v);
    assert(visible(fs[j], scope(env.bound, fs), v));
}

proof fn lemma_branches_used_outside(
    span: Span,
    bs: Seq<Seq<FactModel>>,
    k: nat,
    env: Env,
    n: nat,
    i: int,
    v: Name,
)
    requires
        0 <= i < k <= bs.len(),
        lowered_branches(span, bs, k, env, n).result is Ok,
        env.outside.contains(v),
        facts_occurrences(bs[i]).contains(v),
    ensures
        visible_in(bs[i], env.bound, v),
    decreases bs, k,
{
    let before = lowered_branches(span, bs, (k - 1) as nat, env, n);
    if i < k - 1 {
        lemma_branches_used_outside(span, bs, (k - 1) as nat, env, n, i, v);
    } else {
        lemma_list_used_outside(bs[i], branch_env(span, bs, i, env), before.next, v);
    }
}

proof fn lemma_or_used_outside(span: Span, bs: Seq<Seq<FactModel>>, env: Env, n: nat, v: Name)
    requires
        lowered_or(span, bs, env, n).result is Ok,
        env.outside.contains(v),
        fact_occurrences(FactModel::Or(span, bs)).contains(v),
    ensures
        visible(FactModel::Or(span, bs), env.bound, v),
    decreases bs, bs.len() + 1,
{
    let inner = lowered_branches(span, bs, bs.len(), env, n);
    let done = inner.result->Ok_0;
    let key = key_of(done, env.bound);
    let escapes = |w: Name| !key.contains(w) && env.outside.contains(w);
    assert(fact_occurrences(FactModel::Or(span, bs)) == branches_occurrences(bs));
    lemma_branches_occurrences_contains(bs, v);
    let i = choose|i: int| 0 <= i < bs.len() && facts_occurrences(#[trigger] bs[i]).contains(v);
    lemma_branches_used_outside(span, bs, bs.len(), env, n, i, v);
    lemma_lowered_branches_vars(span, bs, bs.len(), env, n);
    assert(facts_occurrences(done[i]).contains(v));
    lemma_branches_occurrences_contains(done, v);
    lemma_first_such_none(branches_occurrences(done), escapes);
    assert(first_escape(done, key, env.outside) is None);
    assert(!escapes(v));
    lemma_key_visible(span, bs, done, env.bound, v);
}

/// Lowering a conjunction brings in no variable and drops no join:
///
/// - what the lowered facts mention, the facts mentioned;
/// - a variable that is used outside the conjunction stays in every fact that mentions it;
/// - so does a variable that can be seen outside another fact: one that a plain fact
///   mentions, or one that is not local to a branch there;
/// - plain facts keep all their variables.
///
/// So the lowered conjunction as a whole mentions what the conjunction mentions and is used
/// outside, bound by a plain fact or visible.
pub proof fn law_no_join_is_dropped(fs: Seq<FactModel>, env: Env, n: nat)
    requires
        lowered_facts(fs, fs.len(), env, n).result is Ok,
    ensures
        lowered_facts(fs, fs.len(), env, n).result->Ok_0.len() == fs.len(),
        forall|j: int, v: Name|
            #![trigger fact_occurrences(
                lowered_facts(fs, fs.len(), env, n).result->Ok_0[j],
            ).contains(v)]
            0 <= j < fs.len() && fact_occurrences(
                lowered_facts(fs, fs.len(), env, n).result->Ok_0[j],
            ).contains(v) ==> fact_occurrences(fs[j]).contains(v),
        forall|j: int, v: Name|
            #![trigger fact_occurrences(fs[j]).contains(v)]
            0 <= j < fs.len() && fact_occurrences(fs[j]).contains(v) && (!is_or(fs[j])
                || env.outside.contains(v)) ==> fact_occurrences(
                lowered_facts(fs, fs.len(), env, n).result->Ok_0[j],
            ).contains(v),
        forall|i: int, j: int, v: Name|
            #![trigger visible(fs[i], scope(env.bound, fs), v), fact_occurrences(fs[j]).contains(v)]
            0 <= i < fs.len() && 0 <= j < fs.len() && i != j && visible(
                fs[i],
                scope(env.bound, fs),
                v,
            ) && fact_occurrences(fs[j]).contains(v) ==> fact_occurrences(
                lowered_facts(fs, fs.len(), env, n).result->Ok_0[i],
            ).contains(v) && fact_occurrences(
                lowered_facts(fs, fs.len(), env, n).result->Ok_0[j],
            ).contains(v),
        forall|v: Name| #[trigger]
            facts_occurrences(lowered_facts(fs, fs.len(), env, n).result->Ok_0).contains(v)
                ==> facts_occurrences(fs).contains(v),
        forall|v: Name| #[trigger]
            facts_occurrences(fs).contains(v) && (env.outside.contains(v) || scope(
                Set::empty(),
                fs,
            ).contains(v) || visible_in(fs, env.bound, v)) ==> facts_occurrences(
                lowered_facts(fs, fs.len(), env, n).result->Ok_0,
            ).contains(v),
{
    let done = lowered_facts(fs, fs.len(), env, n).result->Ok_0;
    let b = scope(env.bound, fs);
    lemma_lowered_vars(fs, fs.len(), env, n);
    assert forall|j: int, v: Name|
        #![trigger fact_occurrences(done[j]).contains(v)]
        0 <= j < fs.len() && fact_occurrences(done[j]).contains(v) implies fact_occurrences(
        fs[j],
    ).contains(v) by {
        assert(visible(fs[j], b, v));
        lemma_fact_visible_occurs(fs[j], b, v);
    }
    assert forall|j: int, v: Name|
        #![trigger fact_occurrences(fs[j]).contains(v)]
        0 <= j < fs.len() && fact_occurrences(fs[j]).contains(v) && (!is_or(fs[j])
            || env.outside.contains(v)) implies fact_occurrences(done[j]).contains(v) by {
        if is_or(fs[j]) {
            lemma_used_outside(fs, fs.len(), env, n, j, v);
        }
        assert(visible(fs[j], b, v));
    }
    assert forall|i: int, j: int, v: Name|
        #![trigger visible(fs[i], b, v), fact_occurrences(fs[j]).contains(v)]
        0 <= i < fs.len() && 0 <= j < fs.len() && i != j && visible(fs[i], b, v)
            && fact_occurrences(fs[j]).contains(v) implies fact_occurrences(done[i]).contains(v)
        && fact_occurrences(done[j]).contains(v) by {
        assert(surroundings_of(fs, j, env).outside.contains(v));
        lemma_used_outside(fs, fs.len(), env, n, j, v);
        assert(visible(fs[j], b, v));
    }
    assert forall|v: Name| #[trigger] facts_occurrences(done).contains(v) implies facts_occurrences(
        fs,
    ).contains(v) by {
        lemma_facts_occurrences_contains(done, v);
        let j = choose|j: int|
            0 <= j < done.len() && fact_occurrences(#[trigger] done[j]).contains(v);
        assert(fact_occurrences(fs[j]).contains(v));
        lemma_facts_occurrences_contains(fs, v);
    }
    assert forall|v: Name| #[trigger]
        facts_occurrences(fs).contains(v) && (env.outside.contains(v) || scope(
            Set::empty(),
            fs,
        ).contains(v) || visible_in(fs, env.bound, v)) implies facts_occurrences(done).contains(
        v,
    ) by {
        let j = if visible_in(fs, env.bound, v) {
            choose|j: int| 0 <= j < fs.len() && visible(#[trigger] fs[j], b, v)
        } else if env.outside.contains(v) {
            lemma_facts_occurrences_contains(fs, v);
            choose|j: int| 0 <= j < fs.len() && fact_occurrences(#[trigger] fs[j]).contains(v)
        } else {
            choose|j: int|
                0 <= j < fs.len() && !is_or(#[trigger] fs[j]) && fact_occurrences(fs[j]).contains(v)
        };
        if visible(fs[j], b, v) {
            lemma_fact_visible_occurs(fs[j], b, v);
        }
        assert(fact_occurrences(fs[j]).contains(v));
        assert(fact_occurrences(done[j]).contains(v));
        lemma_facts_occurrences_contains(done, v);
    }
}

proof fn lemma_fact_visible_occurs(f: FactModel, bound: Set<Name>, v: Name)
    requires
        visible(f, bound, v),
    ensures
        fact_occurrences(f).contains(v),
{
    match f {
        FactModel::Or(span, branches) => {
            lemma_visible_or(span, branches, bound, v);
            let i = choose|i: int|
                0 <= i < branches.len() && visible_in(#[trigger] branches[i], bound, v);
            lemma_visible_occurs(branches[i], bound, v);
            lemma_branches_occurrences_contains(branches, v);
        },
        _ => {},
    }
}

/// A variable that an argument of an action mentions and that the body mentions stays in the
/// lowered body, in each of the facts that mention it: the lowered rule binds what its head
/// reads. A variable that a plain fact mentions stays in every other fact that mentions it.
pub proof fn law_head_variables_stay_bound(
    rule: RuleModel,
    sorts: Map<Name, Name>,
    reserved: Name,
    queried: nat,
    n: nat,
    v: Name,
)
    requires
        lowered_rule(rule, sorts, reserved, queried, n).0 is Ok,
        !is_global_name(v),
    ensures
        ({
            let commands = lowered_rule(rule, sorts, reserved, queried, n).0->Ok_0;
            let used = exists|a: int|
                0 <= a < rule.head.len() && action_mentions(#[trigger] rule.head[a], v);
            &&& commands.last() matches CommandModel::Rule { rule: lowered }
            &&& lowered.body.len() == rule.body.len()
            &&& used && facts_mention(rule.body, v) ==> facts_mention(lowered.body, v)
            &&& used ==> forall|j: int|
                0 <= j < rule.body.len() && fact_mentions(#[trigger] rule.body[j], v)
                    ==> fact_mentions(lowered.body[j], v)
            &&& forall|i: int, j: int|
                #![trigger rule.body[i], rule.body[j]]
                0 <= i < rule.body.len() && 0 <= j < rule.body.len() && i != j
                    && !(rule.body[i] is Or) && fact_mentions(rule.body[i], v) && fact_mentions(
                    rule.body[j],
                    v,
                ) ==> fact_mentions(lowered.body[j], v)
            &&& facts_mention(lowered.body, v) ==> facts_mention(rule.body, v)
        }),
{
    let env = rule_env(rule, sorts, reserved, queried);
    let fs = rule.body;
    let done = lowered_facts(fs, fs.len(), env, n).result->Ok_0;
    let used = exists|a: int|
        0 <= a < rule.head.len() && action_mentions(#[trigger] rule.head[a], v);
    law_no_join_is_dropped(fs, env, n);
    law_head_vars_are_mentioned(rule.head, v);
    law_facts_vars_are_mentioned(fs, v);
    law_facts_vars_are_mentioned(done, v);
    assert(env.outside.contains(v) <==> used);
    assert forall|j: int| used && 0 <= j < fs.len() && fact_mentions(
        #[trigger] fs[j],
        v,
    ) implies fact_mentions(done[j], v) by {
        law_fact_vars_are_mentioned(fs[j], v);
        law_fact_vars_are_mentioned(done[j], v);
    }
    if used && facts_mention(fs, v) {
        let j = choose|j: int| 0 <= j < fs.len() && fact_mentions(#[trigger] fs[j], v);
        assert(fact_mentions(done[j], v));
    }
    assert forall|i: int, j: int|
        #![trigger fs[i], fs[j]]
        0 <= i < fs.len() && 0 <= j < fs.len() && i != j && !(fs[i] is Or) && fact_mentions(
            fs[i],
            v,
        ) && fact_mentions(fs[j], v) implies fact_mentions(done[j], v) by {
        law_fact_vars_are_mentioned(fs[i], v);
        law_fact_vars_are_mentioned(fs[j], v);
        law_fact_vars_are_mentioned(done[j], v);
        assert(visible(fs[i], scope(env.bound, fs), v));
    }
}

} // verus!
