//! What takes the place of the facts of a rule.

use vstd::prelude::*;

use crate::ast::{ActionModel, CommandModel, ExprModel, FactModel, Name, RuleModel, Span};
use crate::columns::law_columns_have_the_sorts_of_their_variables;
use crate::commands::{lowered_rule, rule_env};
use crate::error::TypeErrorModel;
use crate::faults::lemma_shared;
use crate::lowered_vars::lemma_lowered_vars;
use crate::lowering::{
    branch_env, lowered_branches, lowered_facts, lowered_or, plain_facts, surroundings_of,
};
use crate::materialize::{anchored, key_of, materialized, Env};
use crate::mentions::{fact_mentions, law_fact_vars_are_mentioned};
use crate::order::{law_branches_that_stand_alone_stay_bare, lemma_plain_branches_lowered};
use crate::scope::{all_plain, is_or, scope, visible};
use crate::vars::{fact_occurrences, is_global_name};
use crate::visibility::{
    all_branches_mention, is_flat, law_branches_hide_their_locals, law_plain_facts_bind,
    plain_fact_mentions, some_branch_mentions,
};

verus! {

/// The lowering of one disjunction of a conjunction stands, as a whole, among the commands
/// that the lowering of the conjunction adds.
proof fn lemma_or_part(fs: Seq<FactModel>, k: nat, env: Env, n: nat, j: int)
    requires
        0 <= j < k <= fs.len(),
        fs[j] is Or,
        lowered_facts(fs, k, env, n).result is Ok,
    ensures
        ({
            let or = lowered_or(
                fs[j]->Or_0,
                fs[j]->Or_1,
                surroundings_of(fs, j, env),
                lowered_facts(fs, j as nat, env, n).next,
            );
            let all = lowered_facts(fs, k, env, n);
            let p = lowered_facts(fs, j as nat, env, n).aux.len() as int;
            &&& all.result->Ok_0.len() == k
            &&& or.result == Ok::<FactModel, TypeErrorModel>(all.result->Ok_0[j])
            &&& p + or.aux.len() <= all.aux.len()
            &&& forall|i: int| 0 <= i < or.aux.len() ==> all.aux[p + i] == #[trigger] or.aux[i]
        }),
    decreases k,
{
    let before = lowered_facts(fs, (k - 1) as nat, env, n);
    lemma_lowered_vars(fs, k, env, n);
    lemma_lowered_vars(fs, (k - 1) as nat, env, n);
    let all = lowered_facts(fs, k, env, n);
    if j < k - 1 {
        lemma_or_part(fs, (k - 1) as nat, env, n, j);
        let or = lowered_or(
            fs[j]->Or_0,
            fs[j]->Or_1,
            surroundings_of(fs, j, env),
            lowered_facts(fs, j as nat, env, n).next,
        );
        let p = lowered_facts(fs, j as nat, env, n).aux.len() as int;
        assert(all.result->Ok_0[j] == before.result->Ok_0[j]);
        assert forall|i: int| 0 <= i < or.aux.len() implies all.aux[p + i]
            == #[trigger] or.aux[i] by {
            assert(all.aux[p + i] == before.aux[p + i]);
        }
    }
}

proof fn lemma_plain_kept(fs: Seq<FactModel>, k: nat, env: Env, n: nat, j: int)
    requires
        0 <= j < k <= fs.len(),
        !(fs[j] is Or),
        lowered_facts(fs, k, env, n).result is Ok,
    ensures
        lowered_facts(fs, k, env, n).result->Ok_0.len() == k,
        lowered_facts(fs, k, env, n).result->Ok_0[j] == fs[j],
    decreases k,
{
    lemma_lowered_vars(fs, k, env, n);
    lemma_lowered_vars(fs, (k - 1) as nat, env, n);
    if j < k - 1 {
        lemma_plain_kept(fs, (k - 1) as nat, env, n, j);
    }
}

/// The lowered body has a fact for each fact of the body, in its place. A plain fact stays
/// what it is, and a disjunction becomes one atom, with the disjunction's span.
pub proof fn law_facts_stay_in_place(
    rule: RuleModel,
    sorts: Map<Name, Name>,
    reserved: Name,
    queried: nat,
    n: nat,
    j: int,
)
    requires
        lowered_rule(rule, sorts, reserved, queried, n).0 is Ok,
        0 <= j < rule.body.len(),
    ensures
        ({
            &&& lowered_rule(
                rule,
                sorts,
                reserved,
                queried,
                n,
            ).0->Ok_0.last() matches CommandModel::Rule { rule: lowered }
            &&& lowered.body.len() == rule.body.len()
            &&& match rule.body[j] {
                FactModel::Or(span, _) => lowered.body[j] matches FactModel::Fact(e)
                    && e matches ExprModel::Call(at, _, _) && at == span,
                f => lowered.body[j] == f,
            }
        }),
{
    let env = rule_env(rule, sorts, reserved, queried);
    let fs = rule.body;
    lemma_lowered_vars(fs, fs.len(), env, n);
    if fs[j] is Or {
        lemma_or_part(fs, fs.len(), env, n, j);
    } else {
        lemma_plain_kept(fs, fs.len(), env, n, j);
    }
}

/// The atom in the place of a disjunction with plain branches reads the variables that every
/// branch mentions, and those that a branch and a plain fact of the body mention; no others.
pub proof fn law_atoms_read_the_shared_variables(
    rule: RuleModel,
    sorts: Map<Name, Name>,
    reserved: Name,
    queried: nat,
    n: nat,
    j: int,
    v: Name,
)
    requires
        lowered_rule(rule, sorts, reserved, queried, n).0 is Ok,
        0 <= j < rule.body.len(),
        rule.body[j] is Or,
        forall|b: int| 0 <= b < rule.body[j]->Or_1.len() ==> is_flat(#[trigger] rule.body[j]->Or_1[b]),
    ensures
        ({
            &&& lowered_rule(
                rule,
                sorts,
                reserved,
                queried,
                n,
            ).0->Ok_0.last() matches CommandModel::Rule { rule: lowered }
            &&& lowered.body.len() == rule.body.len()
            &&& fact_mentions(lowered.body[j], v) && !is_global_name(v) <==> {
                &&& !is_global_name(v)
                &&& some_branch_mentions(rule.body[j]->Or_1, v)
                &&& plain_fact_mentions(rule.body, v) || all_branches_mention(rule.body[j]->Or_1, v)
            }
        }),
{
    let env = rule_env(rule, sorts, reserved, queried);
    let fs = rule.body;
    let done = lowered_facts(fs, fs.len(), env, n).result->Ok_0;
    let bound = scope(env.bound, fs);
    lemma_lowered_vars(fs, fs.len(), env, n);
    law_fact_vars_are_mentioned(done[j], v);
    law_plain_facts_bind(env.bound, fs, v);
    law_branches_hide_their_locals(fs[j]->Or_0, fs[j]->Or_1, bound, v);
    assert(fs[j] == FactModel::Or(fs[j]->Or_0, fs[j]->Or_1));
    assert(fact_occurrences(done[j]).contains(v) <==> visible(fs[j], bound, v));
}

/// A branch of a disjunction limits each variable that some branch and a plain fact beside the
/// disjunction mention.
pub open spec fn limits_what_is_bound(
    branch: Seq<FactModel>,
    fs: Seq<FactModel>,
    branches: Seq<Seq<FactModel>>,
) -> bool {
    forall|v: Name|
        plain_fact_mentions(fs, v) && !is_global_name(v) && #[trigger] some_branch_mentions(
            branches,
            v,
        ) ==> anchored(branch, v)
}

/// A command is the rule of one plain branch of a disjunction. Its one action puts the tuple of
/// the atom into the relation. Its body is the branch alone if the branch limits what the plain
/// facts beside the disjunction bind, and otherwise these plain facts, followed by the branch.
pub open spec fn is_rule_of(
    command: CommandModel,
    branch: Seq<FactModel>,
    fs: Seq<FactModel>,
    span: Span,
    branches: Seq<Seq<FactModel>>,
    atom: ExprModel,
) -> bool {
    command matches CommandModel::Rule { rule } && rule.head == seq![
        ActionModel::Expr(span, atom),
    ] && rule.body == if limits_what_is_bound(branch, fs, branches) {
        branch
    } else {
        plain_facts(fs) + branch
    }
}

/// What stands for a disjunction with plain branches among some commands, from a place on: a
/// relation, and after it the rule of each branch, in the order of the branches.
pub open spec fn stands_at(
    commands: Seq<CommandModel>,
    p: int,
    fs: Seq<FactModel>,
    span: Span,
    branches: Seq<Seq<FactModel>>,
    atom: ExprModel,
) -> bool {
    &&& 0 <= p
    &&& p + branches.len() < commands.len()
    &&& commands[p] matches CommandModel::Relation { name, .. }
    &&& atom matches ExprModel::Call(_, relation, _)
    &&& name == relation
    &&& forall|b: int|
        #![trigger branches[b]]
        0 <= b < branches.len() ==> is_rule_of(
            commands[p + 1 + b],
            branches[b],
            fs,
            span,
            branches,
            atom,
        )
}

/// Every disjunction of a rule's body whose branches are plain is stood for by a relation and
/// one rule for each branch, and the lowered body reads that relation in the disjunction's
/// place.
pub proof fn law_branches_become_rules(
    rule: RuleModel,
    sorts: Map<Name, Name>,
    reserved: Name,
    queried: nat,
    n: nat,
    j: int,
)
    requires
        lowered_rule(rule, sorts, reserved, queried, n).0 is Ok,
        0 <= j < rule.body.len(),
        rule.body[j] is Or,
        forall|b: int| 0 <= b < rule.body[j]->Or_1.len() ==> is_flat(#[trigger] rule.body[j]->Or_1[b]),
    ensures
        ({
            let commands = lowered_rule(rule, sorts, reserved, queried, n).0->Ok_0;
            &&& commands.last() matches CommandModel::Rule { rule: lowered }
            &&& lowered.body.len() == rule.body.len()
            &&& lowered.body[j] matches FactModel::Fact(atom)
            &&& exists|p: int| #[trigger]
                stands_at(
                    commands.drop_last(),
                    p,
                    rule.body,
                    rule.body[j]->Or_0,
                    rule.body[j]->Or_1,
                    atom,
                )
        }),
{
    let env = rule_env(rule, sorts, reserved, queried);
    let fs = rule.body;
    let span = fs[j]->Or_0;
    let bs = fs[j]->Or_1;
    let commands = lowered_rule(rule, sorts, reserved, queried, n).0->Ok_0.drop_last();
    let all = lowered_facts(fs, fs.len(), env, n);
    let before = lowered_facts(fs, j as nat, env, n);
    let inner = surroundings_of(fs, j, env);
    let or = lowered_or(span, bs, inner, before.next);
    let own = materialized(span, bs, inner, before.next);
    let p = before.aux.len() as int;
    let atom = all.result->Ok_0[j]->Fact_0;
    assert(commands =~= all.aux);
    lemma_or_part(fs, fs.len(), env, n, j);
    assert forall|b: int| 0 <= b < bs.len() implies all_plain(#[trigger] bs[b]) by {
        assert(is_flat(fs[j]->Or_1[b]));
        assert forall|m: int| 0 <= m < bs[b].len() implies !is_or(#[trigger] bs[b][m]) by {}
    }
    lemma_plain_branches_lowered(span, bs, bs.len(), inner, before.next);
    assert(bs.take(bs.len() as int) =~= bs);
    assert(or.aux =~= own.aux);
    assert(or.result == own.result);
    law_columns_have_the_sorts_of_their_variables(span, bs, inner, before.next);
    assert(commands[p] == or.aux[0]) by {
        assert(all.aux[p + 0] == or.aux[0]);
    }
    assert forall|b: int| #![trigger bs[b]] 0 <= b < bs.len() implies is_rule_of(
        commands[p + 1 + b],
        bs[b],
        fs,
        span,
        bs,
        atom,
    ) by {
        assert(all.aux[p + (b + 1)] == or.aux[b + 1]);
        lemma_rule_of(fs, j, env, before.next, b);
    }
    assert(atom is Call);
    assert(commands[p] is Relation);
    assert(stands_at(commands, p, fs, span, bs, atom));
}

proof fn lemma_rule_of(fs: Seq<FactModel>, j: int, env: Env, n: nat, b: int)
    requires
        0 <= j < fs.len(),
        fs[j] is Or,
        env.bound == Set::<Name>::empty(),
        env.context.len() == 0,
        materialized(fs[j]->Or_0, fs[j]->Or_1, surroundings_of(fs, j, env), n).result is Ok,
        0 <= b < fs[j]->Or_1.len(),
    ensures
        ({
            let own = materialized(fs[j]->Or_0, fs[j]->Or_1, surroundings_of(fs, j, env), n);
            is_rule_of(
                own.aux[b + 1],
                fs[j]->Or_1[b],
                fs,
                fs[j]->Or_0,
                fs[j]->Or_1,
                own.result->Ok_0->Fact_0,
            )
        }),
{
    let span = fs[j]->Or_0;
    let bs = fs[j]->Or_1;
    let inner = surroundings_of(fs, j, env);
    let own = materialized(span, bs, inner, n);
    let key = key_of(bs, inner.bound);
    law_columns_have_the_sorts_of_their_variables(span, bs, inner, n);
    law_branches_that_stand_alone_stay_bare(span, bs, inner, n, b);
    assert(own.aux[b + 1] is Rule);
    assert(inner.context =~= plain_facts(fs));
    let alone = forall|v: Name| #[trigger]
        key.contains(v) && inner.bound.contains(v) ==> anchored(bs[b], v);
    if alone {
        assert forall|v: Name|
            plain_fact_mentions(fs, v) && !is_global_name(v) && #[trigger] some_branch_mentions(
                bs,
                v,
            ) implies anchored(bs[b], v) by {
            lemma_bound_key(fs, j, env, n, v);
        }
    } else {
        let v = choose|v: Name|
            #[trigger] key.contains(v) && inner.bound.contains(v) && !anchored(bs[b], v);
        lemma_bound_key(fs, j, env, n, v);
        assert(some_branch_mentions(bs, v));
        assert(!limits_what_is_bound(bs[b], fs, bs));
    }
}

/// The key variables that the conjunction binds are those that a branch and a plain fact
/// mention.
proof fn lemma_bound_key(fs: Seq<FactModel>, j: int, env: Env, n: nat, v: Name)
    requires
        0 <= j < fs.len(),
        fs[j] is Or,
        env.bound == Set::<Name>::empty(),
    ensures
        ({
            let inner = surroundings_of(fs, j, env);
            key_of(fs[j]->Or_1, inner.bound).contains(v) && inner.bound.contains(v) <==> {
                &&& some_branch_mentions(fs[j]->Or_1, v)
                &&& plain_fact_mentions(fs, v)
                &&& !is_global_name(v)
            }
        }),
{
    let inner = surroundings_of(fs, j, env);
    law_plain_facts_bind(env.bound, fs, v);
    lemma_shared(fs[j]->Or_1, inner, v);
}

/// The plain facts of a conjunction are its facts without the disjunctions, in their order.
pub proof fn law_plain_facts_keep_their_order(a: Seq<FactModel>, b: Seq<FactModel>, f: FactModel)
    ensures
        plain_facts(a + b) == plain_facts(a) + plain_facts(b),
        plain_facts(seq![f]) == if f is Or {
            seq![]
        } else {
            seq![f]
        },
    decreases b.len(),
{
    reveal(Seq::filter);
    assert(seq![f].drop_last() =~= Seq::<FactModel>::empty());
    assert(plain_facts(seq![f].drop_last()) =~= Seq::<FactModel>::empty());
    if f is Or {
        assert(plain_facts(seq![f]) =~= Seq::<FactModel>::empty());
    } else {
        assert(plain_facts(seq![f]) =~= seq![f]);
    }
    if b.len() == 0 {
        assert(a + b =~= a);
        assert(plain_facts(b) =~= Seq::<FactModel>::empty());
        assert(plain_facts(a + b) =~= plain_facts(a) + plain_facts(b));
    } else {
        assert((a + b).drop_last() =~= a + b.drop_last());
        law_plain_facts_keep_their_order(a, b.drop_last(), f);
        assert(plain_facts(a + b) =~= plain_facts(a) + plain_facts(b));
    }
}

/// One conjunction stands for another: fact by fact, a plain fact is the same, and for a
/// disjunction stands one atom with its span.
pub open spec fn stands_for_facts(done: Seq<FactModel>, fs: Seq<FactModel>) -> bool {
    &&& done.len() == fs.len()
    &&& forall|j: int|
        0 <= j < fs.len() ==> match #[trigger] fs[j] {
            FactModel::Or(span, _) => done[j] matches FactModel::Fact(e)
                && e matches ExprModel::Call(at, _, _) && at == span,
            f => done[j] == f,
        }
}

proof fn lemma_stands_for_facts(fs: Seq<FactModel>, env: Env, n: nat)
    requires
        lowered_facts(fs, fs.len(), env, n).result is Ok,
    ensures
        stands_for_facts(lowered_facts(fs, fs.len(), env, n).result->Ok_0, fs),
{
    lemma_lowered_vars(fs, fs.len(), env, n);
    let done = lowered_facts(fs, fs.len(), env, n).result->Ok_0;
    assert forall|j: int| 0 <= j < fs.len() implies match #[trigger] fs[j] {
        FactModel::Or(span, _) => done[j] matches FactModel::Fact(e)
            && e matches ExprModel::Call(at, _, _) && at == span,
        f => done[j] == f,
    } by {
        if fs[j] is Or {
            lemma_or_part(fs, fs.len(), env, n, j);
        } else {
            lemma_plain_kept(fs, fs.len(), env, n, j);
        }
    }
}

proof fn lemma_branches_stand_for(span: Span, bs: Seq<Seq<FactModel>>, k: nat, env: Env, n: nat)
    requires
        k <= bs.len(),
        lowered_branches(span, bs, k, env, n).result is Ok,
    ensures
        lowered_branches(span, bs, k, env, n).result->Ok_0.len() == k,
        forall|b: int|
            #![trigger bs[b]]
            0 <= b < k ==> stands_for_facts(
                lowered_branches(span, bs, k, env, n).result->Ok_0[b],
                bs[b],
            ),
    decreases k,
{
    if k > 0 {
        let before = lowered_branches(span, bs, (k - 1) as nat, env, n);
        let all = lowered_branches(span, bs, k, env, n).result->Ok_0;
        lemma_branches_stand_for(span, bs, (k - 1) as nat, env, n);
        lemma_stands_for_facts(bs[k - 1], branch_env(span, bs, k - 1, env), before.next);
        assert forall|b: int| #![trigger bs[b]] 0 <= b < k implies stands_for_facts(
            all[b],
            bs[b],
        ) by {
            if b < k - 1 {
                assert(all[b] == before.result->Ok_0[b]);
            }
        }
    }
}

/// The lowering of a disjunction ends with its relation and one rule for each branch, in the
/// order of the branches, also where disjunctions are nested in them. Each rule puts the
/// tuples of the atom that takes the disjunction's place into the relation. Its body ends with
/// what stands for the branch; before that come the surrounding facts or nothing.
pub proof fn law_rules_follow_their_branches(
    span: Span,
    branches: Seq<Seq<FactModel>>,
    env: Env,
    n: nat,
    b: int,
)
    requires
        lowered_or(span, branches, env, n).result is Ok,
        0 <= b < branches.len(),
    ensures
        ({
            let outcome = lowered_or(span, branches, env, n);
            let p = outcome.aux.len() - branches.len();
            &&& p > 0
            &&& outcome.result->Ok_0 matches FactModel::Fact(atom)
            &&& atom matches ExprModel::Call(_, relation, _)
            &&& outcome.aux[p - 1] matches CommandModel::Relation { name, .. }
            &&& name == relation
            &&& outcome.aux[p + b] matches CommandModel::Rule { rule }
            &&& rule.head == seq![ActionModel::Expr(span, atom)]
            &&& rule.body.len() >= branches[b].len()
            &&& stands_for_facts(
                rule.body.skip(rule.body.len() - branches[b].len()),
                branches[b],
            )
            &&& rule.body.len() == branches[b].len() || rule.body.take(
                rule.body.len() - branches[b].len(),
            ) == env.context
        }),
{
    let inner = lowered_branches(span, branches, branches.len(), env, n);
    let done = inner.result->Ok_0;
    let own = materialized(span, done, env, inner.next);
    let outcome = lowered_or(span, branches, env, n);
    let p = outcome.aux.len() - branches.len();
    lemma_branches_stand_for(span, branches, branches.len(), env, n);
    law_columns_have_the_sorts_of_their_variables(span, done, env, inner.next);
    law_branches_that_stand_alone_stay_bare(span, done, env, inner.next, b);
    assert(stands_for_facts(done[b], branches[b]));
    assert(outcome.aux == inner.aux + own.aux);
    assert(outcome.aux[p - 1] == own.aux[0]);
    assert(outcome.aux[p + b] == own.aux[b + 1]);
    let body = own.aux[b + 1]->rule.body;
    if body.len() == branches[b].len() {
        assert(body.skip(0) =~= body);
        assert(body =~= done[b]);
    } else {
        assert(body.skip(body.len() - branches[b].len()) =~= done[b]);
        assert(body.take(body.len() - branches[b].len()) =~= env.context);
    }
}

} // verus!
