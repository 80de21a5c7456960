//! What rules inherit: the ruleset, the evaluation mode and the spans of what is generated.

use vstd::prelude::*;

use crate::ast::{CommandModel, FactModel, Name, RuleEvalMode, RuleModel, Span};
use crate::commands::{
    asked, disjunctive_rule, has_or, lowered_command, lowered_rule, lowering_of, rule_env,
    typed_rule, under_fails, Reply,
};
use crate::error::TypeErrorModel;
use crate::lowering::{branch_env, lowered_branches, lowered_facts, lowered_or, surroundings_of};
use crate::materialize::{branch_rules, key_of, materialized, relation_hint, Env};
use crate::scope::{all_plain, is_or};
use crate::shape::{
    is_plain_rule, law_generated_rules_are_plain, law_lowered_body_binds_visible_vars,
};
use crate::symbol_gen::nth_name;
use crate::typing::TypeInfo;

verus! {

/// A disjunction with this span stands among some facts or, at any depth, in a branch of one.
pub open spec fn has_or_at(fs: Seq<FactModel>, span: Span) -> bool
    decreases fs,
{
    exists|i: int| 0 <= i < fs.len() && is_or_at(#[trigger] fs[i], span)
}

/// A fact is a disjunction with this span, or one stands in a branch of it.
pub open spec fn is_or_at(f: FactModel, span: Span) -> bool
    decreases f,
{
    match f {
        FactModel::Or(at, branches) => at == span || exists|j: int|
            0 <= j < branches.len() && has_or_at(#[trigger] branches[j], span),
        _ => false,
    }
}

/// A command that lowering adds for a disjunction among some facts: the declaration of a
/// relation, or a rule of the given ruleset that is evaluated in the default way. Both have
/// the span of the disjunction.
pub open spec fn is_added(command: CommandModel, fs: Seq<FactModel>, ruleset: Name) -> bool {
    match command {
        CommandModel::Relation { span, .. } => has_or_at(fs, span),
        CommandModel::Rule { rule } => {
            &&& rule.ruleset == ruleset
            &&& rule.eval_mode == RuleEvalMode::Seminaive
            &&& !rule.no_decomp
            &&& !rule.include_subsumed
            &&& has_or_at(fs, rule.span)
        },
        _ => false,
    }
}

/// Some commands are all added for disjunctions among some facts.
pub open spec fn all_added(
    commands: Seq<CommandModel>,
    fs: Seq<FactModel>,
    ruleset: Name,
) -> bool {
    forall|i: int| 0 <= i < commands.len() ==> is_added(#[trigger] commands[i], fs, ruleset)
}

proof fn lemma_added_add(
    a: Seq<CommandModel>,
    b: Seq<CommandModel>,
    fs: Seq<FactModel>,
    ruleset: Name,
)
    requires
        all_added(a, fs, ruleset),
        all_added(b, fs, ruleset),
    ensures
        all_added(a + b, fs, ruleset),
{
    let all = a + b;
    assert forall|i: int| 0 <= i < all.len() implies is_added(#[trigger] all[i], fs, ruleset) by {
        if i < a.len() {
            assert(all[i] == a[i]);
        } else {
            assert(all[i] == b[i - a.len()]);
        }
    }
}

/// What is added for a branch of a disjunction is added for the disjunction.
proof fn lemma_added_outside(
    commands: Seq<CommandModel>,
    span: Span,
    bs: Seq<Seq<FactModel>>,
    i: int,
    ruleset: Name,
)
    requires
        0 <= i < bs.len(),
        all_added(commands, bs[i], ruleset),
    ensures
        all_added(commands, seq![FactModel::Or(span, bs)], ruleset),
{
    let one = seq![FactModel::Or(span, bs)];
    assert forall|at: Span| has_or_at(bs[i], at) implies #[trigger] has_or_at(one, at) by {
        lemma_or_at(span, bs, at);
        assert(is_or_at(one[0], at));
    }
    assert forall|c: int| 0 <= c < commands.len() implies is_added(
        #[trigger] commands[c],
        one,
        ruleset,
    ) by {
        assert(is_added(commands[c], bs[i], ruleset));
        match commands[c] {
            CommandModel::Relation { span: at, .. } => assert(has_or_at(one, at)),
            CommandModel::Rule { rule } => assert(has_or_at(one, rule.span)),
            _ => {},
        }
    }
}

proof fn lemma_or_at(span: Span, bs: Seq<Seq<FactModel>>, at: Span)
    ensures
        is_or_at(FactModel::Or(span, bs), at) <==> at == span || exists|j: int|
            0 <= j < bs.len() && has_or_at(#[trigger] bs[j], at),
{
    match FactModel::Or(span, bs) {
        FactModel::Or(_, branches) => {
            if exists|j: int| 0 <= j < bs.len() && has_or_at(#[trigger] bs[j], at) {
                let j = choose|j: int| 0 <= j < bs.len() && has_or_at(#[trigger] bs[j], at);
                assert(has_or_at(branches[j], at));
            }
        },
        _ => {},
    }
}

/// What is added for one fact of a conjunction is added for the conjunction.
proof fn lemma_added_among(
    commands: Seq<CommandModel>,
    fs: Seq<FactModel>,
    j: int,
    ruleset: Name,
)
    requires
        0 <= j < fs.len(),
        all_added(commands, seq![fs[j]], ruleset),
    ensures
        all_added(commands, fs, ruleset),
{
    let one = seq![fs[j]];
    assert forall|at: Span| has_or_at(one, at) implies #[trigger] has_or_at(fs, at) by {
        let i = choose|i: int| 0 <= i < one.len() && is_or_at(#[trigger] one[i], at);
        assert(is_or_at(fs[j], at));
    }
    assert forall|c: int| 0 <= c < commands.len() implies is_added(
        #[trigger] commands[c],
        fs,
        ruleset,
    ) by {
        assert(is_added(commands[c], one, ruleset));
        match commands[c] {
            CommandModel::Relation { span: at, .. } => assert(has_or_at(fs, at)),
            CommandModel::Rule { rule } => assert(has_or_at(fs, rule.span)),
            _ => {},
        }
    }
}

proof fn lemma_facts_added(fs: Seq<FactModel>, k: nat, env: Env, n: nat)
    requires
        k <= fs.len(),
    ensures
        all_added(lowered_facts(fs, k, env, n).aux, fs, env.ruleset),
    decreases fs, k,
{
    if k > 0 {
        let before = lowered_facts(fs, (k - 1) as nat, env, n);
        lemma_facts_added(fs, (k - 1) as nat, env, n);
        if before.result is Ok {
            if let FactModel::Or(span, branches) = fs[k - 1] {
                let inner = surroundings_of(fs, k - 1, env);
                let or = lowered_or(span, branches, inner, before.next);
                lemma_or_added(span, branches, inner, before.next);
                lemma_added_among(or.aux, fs, k - 1, env.ruleset);
                lemma_added_add(before.aux, or.aux, fs, env.ruleset);
            }
        }
    }
}

proof fn lemma_branches_added(span: Span, bs: Seq<Seq<FactModel>>, k: nat, env: Env, n: nat)
    requires
        k <= bs.len(),
    ensures
        all_added(
            lowered_branches(span, bs, k, env, n).aux,
            seq![FactModel::Or(span, bs)],
            env.ruleset,
        ),
    decreases bs, k,
{
    if k > 0 {
        let before = lowered_branches(span, bs, (k - 1) as nat, env, n);
        lemma_branches_added(span, bs, (k - 1) as nat, env, n);
        if before.result is Ok && bs[k - 1].len() > 0 {
            let fs = bs[k - 1];
            let inner = branch_env(span, bs, k - 1, env);
            let branch = lowered_facts(fs, fs.len(), inner, before.next);
            lemma_facts_added(fs, fs.len(), inner, before.next);
            lemma_added_outside(branch.aux, span, bs, k - 1, env.ruleset);
            lemma_added_add(
                before.aux,
                branch.aux,
                seq![FactModel::Or(span, bs)],
                env.ruleset,
            );
        }
    }
}

proof fn lemma_or_added(span: Span, bs: Seq<Seq<FactModel>>, env: Env, n: nat)
    ensures
        all_added(
            lowered_or(span, bs, env, n).aux,
            seq![FactModel::Or(span, bs)],
            env.ruleset,
        ),
    decreases bs, bs.len() + 1,
{
    let inner = lowered_branches(span, bs, bs.len(), env, n);
    let one = seq![FactModel::Or(span, bs)];
    lemma_branches_added(span, bs, bs.len(), env, n);
    if inner.result is Ok {
        let done = inner.result->Ok_0;
        let own = materialized(span, done, env, inner.next);
        let key = key_of(done, env.bound);
        let relation = nth_name(env.reserved, inner.next, relation_hint());
        let rules = branch_rules(span, done, key, relation, env, inner.next + 1);
        lemma_or_at(span, bs, span);
        assert(is_or_at(one[0], span));
        assert(has_or_at(one, span));
        assert forall|c: int| 0 <= c < own.aux.len() implies is_added(
            #[trigger] own.aux[c],
            one,
            env.ruleset,
        ) by {
            if c > 0 {
                assert(own.aux[c] == rules[c - 1]);
            }
        }
        lemma_added_add(inner.aux, own.aux, one, env.ruleset);
    }
}

/// Every rule that the lowering of a rule returns, generated or not, is in the ruleset of the
/// rule. What comes before the rule itself are relations and rules that are evaluated in the
/// default way, each with the span of a disjunction of the rule. The rule comes last, and
/// nothing of it has changed but its body.
pub proof fn law_generated_rules_share_the_ruleset(
    rule: RuleModel,
    sorts: Map<Name, Name>,
    reserved: Name,
    queried: nat,
    n: nat,
)
    requires
        lowered_rule(rule, sorts, reserved, queried, n).0 is Ok,
    ensures
        ({
            let commands = lowered_rule(rule, sorts, reserved, queried, n).0->Ok_0;
            &&& commands.len() > 0
            &&& forall|i: int|
                0 <= i < commands.len() ==> (#[trigger] commands[i] matches CommandModel::Rule {
                    rule: r,
                } ==> r.ruleset == rule.ruleset)
            &&& all_added(commands.drop_last(), rule.body, rule.ruleset)
            &&& commands.last() matches CommandModel::Rule { rule: lowered }
            &&& lowered.span == rule.span
            &&& lowered.head == rule.head
            &&& lowered.name == rule.name
            &&& lowered.ruleset == rule.ruleset
            &&& lowered.eval_mode == rule.eval_mode
            &&& lowered.no_decomp == rule.no_decomp
            &&& lowered.include_subsumed == rule.include_subsumed
        }),
{
    let env = rule_env(rule, sorts, reserved, queried);
    let outcome = lowered_facts(rule.body, rule.body.len(), env, n);
    let commands = lowered_rule(rule, sorts, reserved, queried, n).0->Ok_0;
    lemma_facts_added(rule.body, rule.body.len(), env, n);
    assert(commands.drop_last() =~= outcome.aux);
    assert forall|i: int| 0 <= i < commands.len() implies (
    #[trigger] commands[i] matches CommandModel::Rule { rule: r } ==> r.ruleset
        == rule.ruleset) by {
        if i < commands.len() - 1 {
            assert(commands[i] == outcome.aux[i]);
        }
    }
}

/// A command without the `fail`s around it.
pub open spec fn without_fails(command: CommandModel) -> CommandModel
    decreases command,
{
    match command {
        CommandModel::Fail(_, inner) => without_fails(*inner),
        _ => command,
    }
}

/// The rules of some commands, under any number of `fail`s, are in a ruleset and have no
/// disjunctions.
pub open spec fn all_in_ruleset(commands: Seq<CommandModel>, ruleset: Name) -> bool {
    forall|i: int|
        0 <= i < commands.len() ==> (without_fails(
            #[trigger] commands[i],
        ) matches CommandModel::Rule { rule } ==> rule.ruleset == ruleset && forall|j: int|
            0 <= j < rule.body.len() ==> !(#[trigger] rule.body[j] is Or))
}

pub proof fn lemma_disjunctive_rule(command: CommandModel, rule: RuleModel)
    requires
        without_fails(command) == (CommandModel::Rule { rule }),
    ensures
        disjunctive_rule(command) == if has_or(rule.body) {
            Some(rule)
        } else {
            None
        },
    decreases command,
{
    if let CommandModel::Fail(_, inner) = command {
        lemma_disjunctive_rule(*inner, rule);
    }
}

proof fn lemma_without_fails(command: CommandModel, lowered: Seq<CommandModel>, i: int)
    requires
        0 <= i < lowered.len(),
    ensures
        under_fails(command, lowered).len() == lowered.len(),
        without_fails(under_fails(command, lowered)[i]) == without_fails(lowered[i]),
    decreases command,
{
    if let CommandModel::Fail(_, inner) = command {
        lemma_without_fails(*inner, lowered, i);
    }
}

/// Every rule that the lowering of a command returns is in the ruleset of the rule that the
/// command consists of, and has no disjunctions, whether they stand under `fail` or not.
pub proof fn law_lowered_commands_share_the_ruleset(
    command: CommandModel,
    rule: RuleModel,
    reply: Reply,
    reserved: Name,
    n: nat,
)
    requires
        without_fails(command) == (CommandModel::Rule { rule }),
        lowered_command(command, reply, reserved, n).0 is Ok,
    ensures
        all_in_ruleset(lowered_command(command, reply, reserved, n).0->Ok_0, rule.ruleset),
{
    let all = lowered_command(command, reply, reserved, n).0->Ok_0;
    lemma_disjunctive_rule(command, rule);
    if has_or(rule.body) {
        let sorts = reply.typing->Ok_0;
        let lowered = typed_rule(rule, reply, reserved, n).0->Ok_0;
        lemma_rule_in_ruleset(rule, sorts, reserved, n, reply.left);
        lemma_without_fails(command, lowered, 0);
        assert forall|i: int| 0 <= i < all.len() implies (without_fails(
            #[trigger] all[i],
        ) matches CommandModel::Rule { rule: r } ==> r.ruleset == rule.ruleset && forall|j: int|
            0 <= j < r.body.len() ==> !(#[trigger] r.body[j] is Or)) by {
            lemma_without_fails(command, lowered, i);
            assert(without_fails(all[i]) == without_fails(lowered[i]));
        }
    } else {
        assert forall|j: int| 0 <= j < rule.body.len() implies !(#[trigger] rule.body[j] is Or) by {
            assert(!is_or(rule.body[j]));
        }
        assert(all =~= seq![command]);
    }
}

pub proof fn lemma_rule_in_ruleset(
    rule: RuleModel,
    sorts: Map<Name, Name>,
    reserved: Name,
    queried: nat,
    n: nat,
)
    requires
        lowered_rule(rule, sorts, reserved, queried, n).0 is Ok,
    ensures
        lowered_rule(rule, sorts, reserved, queried, n).0->Ok_0.len() > 0,
        all_in_ruleset(lowered_rule(rule, sorts, reserved, queried, n).0->Ok_0, rule.ruleset),
{
    let commands = lowered_rule(rule, sorts, reserved, queried, n).0->Ok_0;
    let added = commands.drop_last();
    law_generated_rules_share_the_ruleset(rule, sorts, reserved, queried, n);
    law_generated_rules_are_plain(rule, sorts, reserved, queried, n);
    law_lowered_body_binds_visible_vars(rule, sorts, reserved, queried, n);
    assert forall|i: int| 0 <= i < commands.len() implies (without_fails(
        #[trigger] commands[i],
    ) matches CommandModel::Rule { rule: r } ==> r.ruleset == rule.ruleset && forall|j: int|
        0 <= j < r.body.len() ==> !(#[trigger] r.body[j] is Or)) by {
        if i < added.len() {
            assert(added[i] == commands[i]);
            assert(is_added(added[i], rule.body, rule.ruleset));
            assert(is_plain_rule(added[i]));
        } else {
            assert(commands[i] == commands.last());
        }
        if let CommandModel::Rule { rule: r } = commands[i] {
            assert(all_plain(r.body));
            assert forall|j: int| 0 <= j < r.body.len() implies !(#[trigger] r.body[j] is Or) by {
                assert(!is_or(r.body[j]));
            }
        }
    }
}

/// The same of whatever the lowering of a command can return.
pub proof fn law_lowering_shares_the_ruleset<T: TypeInfo>(
    type_info: &T,
    command: CommandModel,
    rule: RuleModel,
    reserved: Name,
    n: nat,
    commands: Seq<CommandModel>,
    next: nat,
)
    requires
        without_fails(command) == (CommandModel::Rule { rule }),
        lowering_of(type_info, command, reserved, n, Ok(commands), next),
    ensures
        all_in_ruleset(commands, rule.ruleset),
{
    lemma_disjunctive_rule(command, rule);
    if let Some(found) = disjunctive_rule(command) {
        let reply = choose|reply: Reply| #[trigger]
            asked(type_info, found.body, reserved, n, reply) && (
                Ok::<Seq<CommandModel>, TypeErrorModel>(commands),
                next,
            ) == lowered_command(command, reply, reserved, n);
        law_lowered_commands_share_the_ruleset(command, rule, reply, reserved, n);
    } else {
        let reply = Reply { typing: Err(TypeErrorModel::Rejected(seq![])), left: n };
        law_lowered_commands_share_the_ruleset(command, rule, reply, reserved, n);
    }
}

} // verus!
