//! The shape of what a lowering returns: how many commands there are, and what their
//! rules look like.

use vstd::prelude::*;

use crate::ast::{ActionModel, CommandModel, ExprModel, FactModel, Name, RuleModel, Span};
use crate::calls::{declared_before_use, declares, facts_call, lemma_facts_calls};
use crate::commands::{
    asked, disjunctive_rule, lemma_under_fails_len, lowered_command, lowered_rule, lowering_of,
    rule_env, typed_rule, under_fails, Reply,
};
use crate::error::TypeErrorModel;
use crate::generated::{
    context_binds, lemma_context_binds, lemma_facts_generated, lemma_plain_facts, target,
};
use crate::lowered_vars::{
    lemma_facts_occurrences_contains, lemma_key_atom_occurrences, lemma_key_contains,
    lemma_key_not_global, lemma_lowered_branches_vars, lemma_lowered_vars,
};
use crate::lowering::{
    branch_env, lowered_branches, lowered_facts, lowered_or, plain_facts, surroundings_of,
};
use crate::materialize::{
    anchored, branch_body, branch_rules, key_atom, key_of, lemma_anchored_occurs, materialized,
    relation_hint, stands_alone, Env,
};
use crate::numbering::{law_generated_commands_are_numbered, names_differ};
use crate::scope::{all_plain, is_or, scope, visible, visible_in};
use crate::symbol_gen::nth_name;
use crate::typing::TypeInfo;
use crate::vars::{actions_occurrences, exprs_occurrences, fact_occurrences, facts_occurrences};

verus! {

/// The number of disjunctions in a fact, and of their branches.
pub open spec fn fact_cost(f: FactModel) -> nat
    decreases f, 0nat,
{
    match f {
        FactModel::Or(_, branches) => 1 + branches.len() + branches_cost(branches, branches.len()),
        _ => 0,
    }
}

/// The number of disjunctions in the first `k` facts of a conjunction, and of their
/// branches.
pub open spec fn facts_cost(fs: Seq<FactModel>, k: nat) -> nat
    decreases fs, k,
{
    if k == 0 || k > fs.len() {
        0
    } else {
        facts_cost(fs, (k - 1) as nat) + fact_cost(fs[k - 1])
    }
}

/// The number of disjunctions in the first `k` branches of a disjunction, and of their
/// branches.
pub open spec fn branches_cost(branches: Seq<Seq<FactModel>>, k: nat) -> nat
    decreases branches, k,
{
    if k == 0 || k > branches.len() {
        0
    } else {
        branches_cost(branches, (k - 1) as nat) + facts_cost(
            branches[k - 1],
            branches[k - 1].len(),
        )
    }
}

proof fn lemma_facts_cost(fs: Seq<FactModel>, k: nat, env: Env, n: nat)
    requires
        k <= fs.len(),
        lowered_facts(fs, k, env, n).result is Ok,
    ensures
        lowered_facts(fs, k, env, n).aux.len() == facts_cost(fs, k),
        lowered_facts(fs, k, env, n).next == n + facts_cost(fs, k),
    decreases fs, k,
{
    if k > 0 {
        let before = lowered_facts(fs, (k - 1) as nat, env, n);
        lemma_facts_cost(fs, (k - 1) as nat, env, n);
        match fs[k - 1] {
            FactModel::Or(span, branches) => {
                assert(fs[k - 1] == FactModel::Or(span, branches));
                lemma_or_cost(span, branches, surroundings_of(fs, k - 1, env), before.next);
            },
            _ => {
                assert(fact_cost(fs[k - 1]) == 0);
            },
        }
    }
}

proof fn lemma_branches_cost(span: Span, bs: Seq<Seq<FactModel>>, k: nat, env: Env, n: nat)
    requires
        k <= bs.len(),
        lowered_branches(span, bs, k, env, n).result is Ok,
    ensures
        lowered_branches(span, bs, k, env, n).result->Ok_0.len() == k,
        lowered_branches(span, bs, k, env, n).aux.len() == branches_cost(bs, k),
        lowered_branches(span, bs, k, env, n).next == n + branches_cost(bs, k),
    decreases bs, k,
{
    if k > 0 {
        let before = lowered_branches(span, bs, (k - 1) as nat, env, n);
        let fs = bs[k - 1];
        lemma_branches_cost(span, bs, (k - 1) as nat, env, n);
        lemma_facts_cost(fs, fs.len(), branch_env(span, bs, k - 1, env), before.next);
    }
}

proof fn lemma_or_cost(span: Span, bs: Seq<Seq<FactModel>>, env: Env, n: nat)
    requires
        lowered_or(span, bs, env, n).result is Ok,
    ensures
        lowered_or(span, bs, env, n).aux.len() == fact_cost(FactModel::Or(span, bs)),
        lowered_or(span, bs, env, n).next == n + fact_cost(FactModel::Or(span, bs)),
    decreases bs, bs.len() + 1,
{
    lemma_branches_cost(span, bs, bs.len(), env, n);
}

/// Lowering adds one relation for each disjunction of a rule and one rule for each of
/// their branches: what it adds grows with the size of the rule, not with the number of
/// ways to choose a branch of every disjunction.
pub proof fn law_lowering_is_linear(
    rule: RuleModel,
    sorts: Map<Name, Name>,
    reserved: Name,
    queried: nat,
    n: nat,
)
    requires
        lowered_rule(rule, sorts, reserved, queried, n).0 is Ok,
    ensures
        lowered_rule(rule, sorts, reserved, queried, n).0->Ok_0.len() == facts_cost(
            rule.body,
            rule.body.len(),
        ) + 1,
        lowered_rule(rule, sorts, reserved, queried, n).1 == n + facts_cost(
            rule.body,
            rule.body.len(),
        ),
{
    lemma_facts_cost(rule.body, rule.body.len(), rule_env(rule, sorts, reserved, queried), n);
}

/// A rule without disjunctions, each variable of whose actions is bound by its body.
pub open spec fn is_plain_rule(command: CommandModel) -> bool {
    command matches CommandModel::Rule { rule } ==> {
        &&& all_plain(rule.body)
        &&& forall|v: Name| #[trigger]
            actions_occurrences(rule.head).contains(v) ==> facts_occurrences(rule.body).contains(v)
    }
}

pub open spec fn all_plain_rules(commands: Seq<CommandModel>) -> bool {
    forall|i: int| 0 <= i < commands.len() ==> is_plain_rule(#[trigger] commands[i])
}

proof fn lemma_plain_rules_add(a: Seq<CommandModel>, b: Seq<CommandModel>)
    requires
        all_plain_rules(a),
        all_plain_rules(b),
    ensures
        all_plain_rules(a + b),
{
    let all = a + b;
    assert forall|i: int| 0 <= i < all.len() implies is_plain_rule(#[trigger] all[i]) by {
        if i < a.len() {
            assert(all[i] == a[i]);
        } else {
            assert(all[i] == b[i - a.len()]);
        }
    }
}

proof fn lemma_facts_plain_rules(fs: Seq<FactModel>, k: nat, env: Env, n: nat)
    requires
        k <= fs.len(),
        context_binds(env),
    ensures
        all_plain_rules(lowered_facts(fs, k, env, n).aux),
    decreases fs, k,
{
    if k > 0 {
        let before = lowered_facts(fs, (k - 1) as nat, env, n);
        lemma_facts_plain_rules(fs, (k - 1) as nat, env, n);
        if before.result is Ok {
            match fs[k - 1] {
                FactModel::Or(span, branches) => {
                    let inner = surroundings_of(fs, k - 1, env);
                    lemma_context_binds(fs, k - 1, env);
                    lemma_or_plain_rules(span, branches, inner, before.next);
                    lemma_plain_rules_add(
                        before.aux,
                        lowered_or(span, branches, inner, before.next).aux,
                    );
                },
                _ => {},
            }
        }
    }
}

proof fn lemma_branches_plain_rules(
    span: Span,
    bs: Seq<Seq<FactModel>>,
    k: nat,
    env: Env,
    n: nat,
)
    requires
        k <= bs.len(),
        context_binds(env),
    ensures
        all_plain_rules(lowered_branches(span, bs, k, env, n).aux),
    decreases bs, k,
{
    if k > 0 {
        let before = lowered_branches(span, bs, (k - 1) as nat, env, n);
        lemma_branches_plain_rules(span, bs, (k - 1) as nat, env, n);
        if before.result is Ok && bs[k - 1].len() > 0 {
            let fs = bs[k - 1];
            let inner = branch_env(span, bs, k - 1, env);
            lemma_facts_plain_rules(fs, fs.len(), inner, before.next);
            lemma_plain_rules_add(
                before.aux,
                lowered_facts(fs, fs.len(), inner, before.next).aux,
            );
        }
    }
}

proof fn lemma_or_plain_rules(span: Span, bs: Seq<Seq<FactModel>>, env: Env, n: nat)
    requires
        context_binds(env),
    ensures
        all_plain_rules(lowered_or(span, bs, env, n).aux),
    decreases bs, bs.len() + 1,
{
    let inner = lowered_branches(span, bs, bs.len(), env, n);
    lemma_branches_plain_rules(span, bs, bs.len(), env, n);
    if inner.result is Ok {
        let done = inner.result->Ok_0;
        let or = materialized(span, done, env, inner.next);
        let key = key_of(done, env.bound);
        let relation = nth_name(env.reserved, inner.next, relation_hint());
        let rules = branch_rules(span, done, key, relation, env, inner.next + 1);
        lemma_lowered_branches_vars(span, bs, bs.len(), env, n);
        assert forall|i: int| 0 <= i < or.aux.len() implies is_plain_rule(
            #[trigger] or.aux[i],
        ) by {
            if i > 0 {
                assert(or.aux[i] == rules[i - 1]);
                assert(all_plain(done[i - 1]));
                lemma_branch_rule_plain(span, done, env, i - 1, key, relation);
            }
        }
        lemma_plain_rules_add(inner.aux, or.aux);
    }
}

proof fn lemma_branch_rule_plain(
    span: Span,
    done: Seq<Seq<FactModel>>,
    env: Env,
    i: int,
    key: Seq<Name>,
    relation: Name,
)
    requires
        0 <= i < done.len(),
        all_plain(done[i]),
        context_binds(env),
        key == key_of(done, env.bound),
    ensures
        all_plain(branch_body(done[i], key, env.bound, env.context)),
        forall|v: Name| #[trigger]
            actions_occurrences(
                seq![ActionModel::Expr(span, key_atom(span, relation, key))],
            ).contains(v) ==> facts_occurrences(
                branch_body(done[i], key, env.bound, env.context),
            ).contains(v),
{
    let body = branch_body(done[i], key, env.bound, env.context);
    let atom = key_atom(span, relation, key);
    let head = seq![ActionModel::Expr(span, atom)];
    let both = env.context + done[i];
    assert forall|j: int| 0 <= j < both.len() implies !is_or(#[trigger] both[j]) by {
        if j < env.context.len() {
            assert(both[j] == env.context[j]);
        } else {
            assert(both[j] == done[i][j - env.context.len()]);
        }
    }
    lemma_key_not_global(done, env.bound);
    lemma_key_atom_occurrences(span, relation, key);
    assert(actions_occurrences(head) =~= key) by {
        assert(head.drop_last() =~= Seq::<ActionModel>::empty());
        assert(actions_occurrences(head.drop_last()) =~= Seq::<Name>::empty());
        let es = seq![atom];
        assert(es.drop_last() =~= Seq::<ExprModel>::empty());
        assert(exprs_occurrences(es.drop_last()) =~= Seq::<Name>::empty());
        assert(exprs_occurrences(es) =~= key);
    }
    assert forall|v: Name| #[trigger] actions_occurrences(head).contains(v) implies facts_occurrences(
        body,
    ).contains(v) by {
        let j = choose|j: int| 0 <= j < key.len() && key[j] == v;
        lemma_key_contains(done, env.bound, v);
        if stands_alone(done[i], key, env.bound) {
            if env.bound.contains(v) {
                assert(anchored(done[i], key[j]));
                lemma_anchored_occurs(done[i], v);
            }
        } else {
            lemma_facts_occurrences_contains(both, v);
            if env.bound.contains(v) {
                lemma_facts_occurrences_contains(env.context, v);
                let m = choose|m: int|
                    0 <= m < env.context.len() && fact_occurrences(
                        #[trigger] env.context[m],
                    ).contains(v);
                assert(both[m] == env.context[m]);
            } else {
                assert(facts_occurrences(done[i]).contains(v));
                lemma_facts_occurrences_contains(done[i], v);
                let m = choose|m: int|
                    0 <= m < done[i].len() && fact_occurrences(#[trigger] done[i][m]).contains(v);
                assert(both[env.context.len() + m] == done[i][m]);
            }
        }
    }
}

/// The generated rules are free of disjunctions, and their bodies bind every variable
/// that their heads mention.
pub proof fn law_generated_rules_are_plain(
    rule: RuleModel,
    sorts: Map<Name, Name>,
    reserved: Name,
    queried: nat,
    n: nat,
)
    requires
        lowered_rule(rule, sorts, reserved, queried, n).0 is Ok,
    ensures
        all_plain_rules(lowered_rule(rule, sorts, reserved, queried, n).0->Ok_0.drop_last()),
{
    let env = rule_env(rule, sorts, reserved, queried);
    let body = lowered_facts(rule.body, rule.body.len(), env, n);
    let commands = lowered_rule(rule, sorts, reserved, queried, n).0->Ok_0;
    assert(commands.drop_last() =~= body.aux);
    assert(context_binds(env));
    lemma_facts_plain_rules(rule.body, rule.body.len(), env, n);
}

/// The lowered rule is free of disjunctions, and its body binds exactly the variables
/// that could be seen outside the disjunctions.
pub proof fn law_lowered_body_binds_visible_vars(
    rule: RuleModel,
    sorts: Map<Name, Name>,
    reserved: Name,
    queried: nat,
    n: nat,
)
    requires
        lowered_rule(rule, sorts, reserved, queried, n).0 is Ok,
    ensures
        lowered_rule(rule, sorts, reserved, queried, n).0->Ok_0.last() matches CommandModel::Rule {
            rule: lowered,
        } && all_plain(lowered.body) && forall|v: Name| #[trigger]
            facts_occurrences(lowered.body).contains(v) <==> visible_in(
                rule.body,
                Set::empty(),
                v,
            ),
{
    let env = rule_env(rule, sorts, reserved, queried);
    let fs = rule.body;
    let done = lowered_facts(fs, fs.len(), env, n).result->Ok_0;
    lemma_lowered_vars(fs, fs.len(), env, n);
    assert forall|v: Name| #[trigger] facts_occurrences(done).contains(v) <==> visible_in(
        fs,
        env.bound,
        v,
    ) by {
        let b = scope(env.bound, fs);
        lemma_facts_occurrences_contains(done, v);
        if facts_occurrences(done).contains(v) {
            let j = choose|j: int|
                0 <= j < done.len() && fact_occurrences(#[trigger] done[j]).contains(v);
            assert(visible(fs[j], b, v));
        }
        if visible_in(fs, env.bound, v) {
            let j = choose|j: int| 0 <= j < fs.len() && visible(#[trigger] fs[j], b, v);
            assert(fact_occurrences(done[j]).contains(v));
        }
    }
}

/// Lowering leaves nothing to lower: no command that it returns is a rule with a
/// disjunction, under any number of `fail`s.
pub proof fn law_lowering_leaves_no_or(
    command: CommandModel,
    reply: Reply,
    reserved: Name,
    n: nat,
)
    ensures
        lowered_command(command, reply, reserved, n).0 matches Ok(commands) ==> forall|i: int|
            0 <= i < commands.len() ==> disjunctive_rule(#[trigger] commands[i]) is None,
{
    if let Some(rule) = disjunctive_rule(command) {
        let outcome = typed_rule(rule, reply, reserved, n).0;
        if let Ok(commands) = outcome {
            let m = reply.left;
            let sorts = reply.typing->Ok_0;
            law_generated_rules_are_plain(rule, sorts, reserved, n, m);
            law_lowered_body_binds_visible_vars(rule, sorts, reserved, n, m);
            assert forall|i: int| 0 <= i < commands.len() implies disjunctive_rule(
                #[trigger] commands[i],
            ) is None by {
                if i < commands.len() - 1 {
                    assert(commands[i] == commands.drop_last()[i]);
                    assert(is_plain_rule(commands[i]));
                    let env = rule_env(rule, sorts, reserved, n);
                    lemma_facts_generated(rule.body, rule.body.len(), env, m);
                    let aux = lowered_facts(rule.body, rule.body.len(), env, m).aux;
                    assert(commands[i] == aux[i]);
                    assert(target(aux[i]) is Some);
                }
            }
            lemma_under_fails_plain(command, commands);
        }
    }
}

proof fn lemma_under_fails_plain(command: CommandModel, commands: Seq<CommandModel>)
    requires
        commands.len() > 0,
        forall|i: int|
            0 <= i < commands.len() ==> disjunctive_rule(#[trigger] commands[i]) is None,
    ensures
        under_fails(command, commands).len() == commands.len(),
        forall|i: int|
            0 <= i < commands.len() ==> disjunctive_rule(
                #[trigger] under_fails(command, commands)[i],
            ) is None,
    decreases command,
{
    match command {
        CommandModel::Fail(span, inner) => {
            lemma_under_fails_plain(*inner, commands);
            let inside = under_fails(*inner, commands);
            let all = under_fails(command, commands);
            assert forall|i: int| 0 <= i < commands.len() implies disjunctive_rule(
                #[trigger] all[i],
            ) is None by {
                assert(disjunctive_rule(inside[i]) is None);
                if i < inside.len() - 1 {
                    assert(all[i] == inside[i]);
                } else {
                    assert(all[i] == CommandModel::Fail(span, Box::new(inside.last())));
                }
            }
        },
        _ => {},
    }
}

/// A command under `fail` is lowered as the command is, from the same query and with the
/// same names and errors; only the last of the commands that come out is put under `fail`.
pub proof fn law_fail_wraps_the_last_command(
    span: Span,
    inner: CommandModel,
    reply: Reply,
    reserved: Name,
    n: nat,
)
    ensures
        disjunctive_rule(CommandModel::Fail(span, Box::new(inner))) == disjunctive_rule(inner),
        lowered_command(CommandModel::Fail(span, Box::new(inner)), reply, reserved, n).1
            == lowered_command(inner, reply, reserved, n).1,
        match lowered_command(inner, reply, reserved, n).0 {
            Err(e) => lowered_command(
                CommandModel::Fail(span, Box::new(inner)),
                reply,
                reserved,
                n,
            ).0 == Err::<Seq<CommandModel>, TypeErrorModel>(e),
            Ok(commands) => commands.len() > 0 && lowered_command(
                CommandModel::Fail(span, Box::new(inner)),
                reply,
                reserved,
                n,
            ).0 == Ok::<Seq<CommandModel>, TypeErrorModel>(
                commands.drop_last().push(CommandModel::Fail(span, Box::new(commands.last()))),
            ),
        },
{
    let failing = CommandModel::Fail(span, Box::new(inner));
    match disjunctive_rule(inner) {
        None => {
            assert(seq![inner].drop_last().push(CommandModel::Fail(span, Box::new(inner)))
                =~= seq![failing]);
        },
        Some(rule) => {
            if let Ok(commands) = typed_rule(rule, reply, reserved, n).0 {
                lemma_under_fails_len(inner, commands);
            }
        },
    }
}

/// Whether a type environment that is asked the query of a rule body, with the same supply
/// of names, always replies the same.
pub open spec fn replies_alike<T: TypeInfo>(
    type_info: &T,
    body: Seq<FactModel>,
    reserved: Name,
    n: nat,
) -> bool {
    forall|a: Reply, b: Reply| #[trigger]
        asked(type_info, body, reserved, n, a) && #[trigger] asked(
            type_info,
            body,
            reserved,
            n,
            b,
        ) ==> a == b
}

/// Two calls, one on a command and one on the same command under `fail`, from equal supplies
/// and with a type environment that replies alike to both: the second fails with the error
/// of the first, or returns what the first does with the last command put under `fail`, and
/// as many names are handed out.
pub proof fn law_fail_lowers_as_its_command<T: TypeInfo>(
    type_info: &T,
    span: Span,
    inner: CommandModel,
    reserved: Name,
    n: nat,
    first: Result<Seq<CommandModel>, TypeErrorModel>,
    first_next: nat,
    second: Result<Seq<CommandModel>, TypeErrorModel>,
    second_next: nat,
)
    requires
        disjunctive_rule(inner) matches Some(rule) ==> replies_alike(
            type_info,
            rule.body,
            reserved,
            n,
        ),
        lowering_of(type_info, inner, reserved, n, first, first_next),
        lowering_of(
            type_info,
            CommandModel::Fail(span, Box::new(inner)),
            reserved,
            n,
            second,
            second_next,
        ),
    ensures
        second_next == first_next,
        match first {
            Err(e) => second == Err::<Seq<CommandModel>, TypeErrorModel>(e),
            Ok(commands) => commands.len() > 0 && second == Ok::<
                Seq<CommandModel>,
                TypeErrorModel,
            >(commands.drop_last().push(CommandModel::Fail(span, Box::new(commands.last())))),
        },
{
    let failing = CommandModel::Fail(span, Box::new(inner));
    match disjunctive_rule(inner) {
        None => {
            assert(seq![inner].drop_last().push(failing) =~= seq![failing]);
        },
        Some(rule) => {
            let a = choose|a: Reply| #[trigger]
                asked(type_info, rule.body, reserved, n, a) && (first, first_next)
                    == lowered_command(inner, a, reserved, n);
            let b = choose|b: Reply| #[trigger]
                asked(type_info, rule.body, reserved, n, b) && (second, second_next)
                    == lowered_command(failing, b, reserved, n);
            assert(a == b);
            law_fail_wraps_the_last_command(span, inner, a, reserved, n);
        },
    }
}

/// Whether some commands hold no rule with a disjunction in its body.
pub open spec fn or_free(commands: Seq<CommandModel>) -> bool {
    forall|i: int|
        0 <= i < commands.len() ==> (#[trigger] commands[i] matches CommandModel::Rule { rule }
            ==> all_plain(rule.body))
}

proof fn lemma_or_free_add(a: Seq<CommandModel>, b: Seq<CommandModel>)
    requires
        or_free(a),
        or_free(b),
    ensures
        or_free(a + b),
{
    let all = a + b;
    assert forall|i: int| 0 <= i < all.len() implies (
    #[trigger] all[i] matches CommandModel::Rule { rule } ==> all_plain(rule.body)) by {
        if i < a.len() {
            assert(all[i] == a[i]);
        } else {
            assert(all[i] == b[i - a.len()]);
        }
    }
}

proof fn lemma_plain_add(a: Seq<FactModel>, b: Seq<FactModel>)
    requires
        all_plain(a),
        all_plain(b),
    ensures
        all_plain(a + b),
{
    let all = a + b;
    assert forall|i: int| 0 <= i < all.len() implies !is_or(#[trigger] all[i]) by {
        if i < a.len() {
            assert(all[i] == a[i]);
        } else {
            assert(all[i] == b[i - a.len()]);
        }
    }
}

proof fn lemma_facts_or_free(fs: Seq<FactModel>, k: nat, env: Env, n: nat)
    requires
        k <= fs.len(),
        all_plain(env.context),
    ensures
        or_free(lowered_facts(fs, k, env, n).aux),
    decreases fs, k,
{
    if k > 0 {
        let before = lowered_facts(fs, (k - 1) as nat, env, n);
        lemma_facts_or_free(fs, (k - 1) as nat, env, n);
        if before.result is Ok {
            match fs[k - 1] {
                FactModel::Or(span, branches) => {
                    let inner = surroundings_of(fs, k - 1, env);
                    lemma_plain_facts(fs);
                    lemma_plain_add(env.context, plain_facts(fs));
                    lemma_or_or_free(span, branches, inner, before.next);
                    lemma_or_free_add(
                        before.aux,
                        lowered_or(span, branches, inner, before.next).aux,
                    );
                },
                _ => {},
            }
        }
    }
}

proof fn lemma_branches_or_free(span: Span, bs: Seq<Seq<FactModel>>, k: nat, env: Env, n: nat)
    requires
        k <= bs.len(),
        all_plain(env.context),
    ensures
        or_free(lowered_branches(span, bs, k, env, n).aux),
    decreases bs, k,
{
    if k > 0 {
        let before = lowered_branches(span, bs, (k - 1) as nat, env, n);
        lemma_branches_or_free(span, bs, (k - 1) as nat, env, n);
        if before.result is Ok && bs[k - 1].len() > 0 {
            let fs = bs[k - 1];
            let inner = branch_env(span, bs, k - 1, env);
            lemma_facts_or_free(fs, fs.len(), inner, before.next);
            lemma_or_free_add(before.aux, lowered_facts(fs, fs.len(), inner, before.next).aux);
        }
    }
}

proof fn lemma_or_or_free(span: Span, bs: Seq<Seq<FactModel>>, env: Env, n: nat)
    requires
        all_plain(env.context),
    ensures
        or_free(lowered_or(span, bs, env, n).aux),
    decreases bs, bs.len() + 1,
{
    let inner = lowered_branches(span, bs, bs.len(), env, n);
    lemma_branches_or_free(span, bs, bs.len(), env, n);
    if inner.result is Ok {
        let done = inner.result->Ok_0;
        let or = materialized(span, done, env, inner.next);
        let key = key_of(done, env.bound);
        let relation = nth_name(env.reserved, inner.next, relation_hint());
        let rules = branch_rules(span, done, key, relation, env, inner.next + 1);
        lemma_lowered_branches_vars(span, bs, bs.len(), env, n);
        assert forall|i: int| 0 <= i < or.aux.len() implies (
        #[trigger] or.aux[i] matches CommandModel::Rule { rule } ==> all_plain(rule.body)) by {
            if i > 0 {
                assert(or.aux[i] == rules[i - 1]);
                assert(all_plain(done[i - 1]));
                lemma_plain_add(env.context, done[i - 1]);
            }
        }
        lemma_or_free_add(inner.aux, or.aux);
    }
}

/// Lowering a conjunction leaves no disjunction in its facts nor in the rules it adds.
/// Every relation it adds is declared exactly once, and before whatever calls it, with as
/// many columns as the call has arguments.
pub proof fn law_lowered_lists_are_in_order(fs: Seq<FactModel>, env: Env, n: nat)
    requires
        all_plain(env.context),
        lowered_facts(fs, fs.len(), env, n).result is Ok,
    ensures
        all_plain(lowered_facts(fs, fs.len(), env, n).result->Ok_0),
        or_free(lowered_facts(fs, fs.len(), env, n).aux),
        names_differ(lowered_facts(fs, fs.len(), env, n).aux),
        declared_before_use(lowered_facts(fs, fs.len(), env, n).aux, env.context + fs),
        forall|f: Name, k: nat| #[trigger]
            facts_call(lowered_facts(fs, fs.len(), env, n).result->Ok_0, f, k) ==> facts_call(
                fs,
                f,
                k,
            ) || declares(lowered_facts(fs, fs.len(), env, n).aux, f, k),
{
    lemma_lowered_vars(fs, fs.len(), env, n);
    lemma_facts_or_free(fs, fs.len(), env, n);
    law_generated_commands_are_numbered(fs, env, n);
    lemma_facts_calls(fs, fs.len(), env, n);
}

} // verus!
