//! The names of the commands that a lowering adds.

use vstd::prelude::*;

use crate::ast::{CommandModel, FactModel, Name, RuleModel, Span};
use crate::commands::{lowered_rule, rule_env};
use crate::lowering::{branch_env, lowered_branches, lowered_facts, lowered_or, surroundings_of};
use crate::materialize::{
    branch_hint, branch_rules, key_of, materialized, relation_decl, relation_hint, Env,
};
use crate::symbol_gen::{law_names_are_distinct, nth_name};

verus! {

/// The name of a relation or a rule.
pub open spec fn command_name(command: CommandModel) -> Option<Name> {
    match command {
        CommandModel::Relation { name, .. } => Some(name),
        CommandModel::Rule { rule } => Some(rule.name),
        _ => None,
    }
}

/// The hint in the name of a generated command.
pub open spec fn command_hint(command: CommandModel) -> Name {
    if command is Relation {
        relation_hint()
    } else {
        branch_hint()
    }
}

/// Whether some commands have the names of a supply one after another, from the `n`-th on.
pub open spec fn named_from(commands: Seq<CommandModel>, reserved: Name, n: nat) -> bool {
    forall|i: int|
        0 <= i < commands.len() ==> command_name(#[trigger] commands[i]) == Some(
            nth_name(reserved, (n + i) as nat, command_hint(commands[i])),
        )
}

/// Whether no two of some commands have the same name: in particular no relation is
/// declared twice.
pub open spec fn names_differ(commands: Seq<CommandModel>) -> bool {
    forall|i: int, j: int|
        0 <= i < j < commands.len() ==> command_name(#[trigger] commands[i]) != command_name(
            #[trigger] commands[j],
        )
}

proof fn lemma_named_add(
    a: Seq<CommandModel>,
    b: Seq<CommandModel>,
    reserved: Name,
    n: nat,
)
    requires
        named_from(a, reserved, n),
        named_from(b, reserved, n + a.len()),
    ensures
        named_from(a + b, reserved, n),
{
    let all = a + b;
    assert forall|i: int| 0 <= i < all.len() implies command_name(#[trigger] all[i]) == Some(
        nth_name(reserved, (n + i) as nat, command_hint(all[i])),
    ) by {
        if i < a.len() {
            assert(all[i] == a[i]);
        } else {
            assert(all[i] == b[i - a.len()]);
        }
    }
}

proof fn lemma_facts_named(fs: Seq<FactModel>, k: nat, env: Env, n: nat)
    ensures
        lowered_facts(fs, k, env, n).next == n + lowered_facts(fs, k, env, n).aux.len(),
        named_from(lowered_facts(fs, k, env, n).aux, env.reserved, n),
    decreases fs, k,
{
    if k == 0 || k > fs.len() {
    } else {
        let before = lowered_facts(fs, (k - 1) as nat, env, n);
        lemma_facts_named(fs, (k - 1) as nat, env, n);
        if before.result is Ok {
            match fs[k - 1] {
                FactModel::Or(span, branches) => {
                    let inner = surroundings_of(fs, k - 1, env);
                    let or = lowered_or(span, branches, inner, before.next);
                    lemma_or_named(span, branches, inner, before.next);
                    lemma_named_add(before.aux, or.aux, env.reserved, n);
                },
                _ => {},
            }
        }
    }
}

proof fn lemma_branches_named(span: Span, bs: Seq<Seq<FactModel>>, k: nat, env: Env, n: nat)
    ensures
        lowered_branches(span, bs, k, env, n).next == n + lowered_branches(
            span,
            bs,
            k,
            env,
            n,
        ).aux.len(),
        named_from(lowered_branches(span, bs, k, env, n).aux, env.reserved, n),
    decreases bs, k,
{
    if k == 0 || k > bs.len() {
    } else {
        let before = lowered_branches(span, bs, (k - 1) as nat, env, n);
        lemma_branches_named(span, bs, (k - 1) as nat, env, n);
        if before.result is Ok && bs[k - 1].len() > 0 {
            let fs = bs[k - 1];
            let inner = branch_env(span, bs, k - 1, env);
            let branch = lowered_facts(fs, fs.len(), inner, before.next);
            lemma_facts_named(fs, fs.len(), inner, before.next);
            lemma_named_add(before.aux, branch.aux, env.reserved, n);
        }
    }
}

proof fn lemma_or_named(span: Span, bs: Seq<Seq<FactModel>>, env: Env, n: nat)
    ensures
        lowered_or(span, bs, env, n).next == n + lowered_or(span, bs, env, n).aux.len(),
        named_from(lowered_or(span, bs, env, n).aux, env.reserved, n),
    decreases bs, bs.len() + 1,
{
    let inner = lowered_branches(span, bs, bs.len(), env, n);
    lemma_branches_named(span, bs, bs.len(), env, n);
    if inner.result is Ok {
        let done = inner.result->Ok_0;
        let or = materialized(span, done, env, inner.next);
        let key = key_of(done, env.bound);
        let relation = nth_name(env.reserved, inner.next, relation_hint());
        let rules = branch_rules(span, done, key, relation, env, inner.next + 1);
        if or.result is Ok {
            assert(or.aux == seq![relation_decl(span, key, relation, env.sorts, env.renaming)]
                + rules);
            assert forall|i: int| 0 <= i < or.aux.len() implies command_name(
                #[trigger] or.aux[i],
            ) == Some(
                nth_name(env.reserved, (inner.next + i) as nat, command_hint(or.aux[i])),
            ) by {
                if i > 0 {
                    assert(or.aux[i] == rules[i - 1]);
                }
            }
        }
        lemma_named_add(inner.aux, or.aux, env.reserved, n);
    }
}

/// The commands that the lowering of a conjunction adds have the names of the supply one
/// after another, so no two of them have the same name: every generated relation is
/// declared exactly once.
pub proof fn law_generated_commands_are_numbered(fs: Seq<FactModel>, env: Env, n: nat)
    ensures
        lowered_facts(fs, fs.len(), env, n).next == n + lowered_facts(
            fs,
            fs.len(),
            env,
            n,
        ).aux.len(),
        named_from(lowered_facts(fs, fs.len(), env, n).aux, env.reserved, n),
        names_differ(lowered_facts(fs, fs.len(), env, n).aux),
{
    let aux = lowered_facts(fs, fs.len(), env, n).aux;
    lemma_facts_named(fs, fs.len(), env, n);
    assert forall|i: int, j: int| 0 <= i < j < aux.len() implies command_name(#[trigger] aux[i])
        != command_name(#[trigger] aux[j]) by {
        law_names_are_distinct(
            env.reserved,
            (n + i) as nat,
            command_hint(aux[i]),
            (n + j) as nat,
            command_hint(aux[j]),
        );
    }
}

/// The same of a rule.
pub proof fn law_generated_names_differ(
    rule: RuleModel,
    sorts: Map<Name, Name>,
    reserved: Name,
    queried: nat,
    n: nat,
)
    requires
        lowered_rule(rule, sorts, reserved, queried, n).0 is Ok,
    ensures
        named_from(
            lowered_rule(rule, sorts, reserved, queried, n).0->Ok_0.drop_last(),
            reserved,
            n,
        ),
        names_differ(lowered_rule(rule, sorts, reserved, queried, n).0->Ok_0.drop_last()),
{
    let env = rule_env(rule, sorts, reserved, queried);
    let commands = lowered_rule(rule, sorts, reserved, queried, n).0->Ok_0;
    assert(commands.drop_last() =~= lowered_facts(rule.body, rule.body.len(), env, n).aux);
    law_generated_commands_are_numbered(rule.body, env, n);
}

} // verus!
