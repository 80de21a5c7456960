//! Which functions and relations are called where, and what a lowering declares.

use vstd::prelude::*;

use crate::ast::{CommandModel, ExprModel, FactModel, Name, RuleModel, Span};
use crate::commands::{lowered_rule, rule_env};
use crate::generated::lemma_plain_facts;
use crate::lowering::{
    branch_env, lowered_branches, lowered_facts, lowered_or, plain_facts, surroundings_of,
};
use crate::materialize::{
    branch_body, branch_rules, key_atom, key_of, materialized, relation_decl, relation_hint, Env,
};
use crate::numbering::{law_generated_names_differ, names_differ};
use crate::symbol_gen::nth_name;
use crate::vars::action_expr_models;

verus! {

/// Whether an expression has a call of `f` with `k` arguments.
pub open spec fn expr_calls(e: ExprModel, f: Name, k: nat) -> bool
    decreases e,
{
    match e {
        ExprModel::Call(_, g, args) => (g == f && args.len() == k) || exprs_call(args, f, k),
        _ => false,
    }
}

/// Whether one of some expressions has such a call.
pub open spec fn exprs_call(es: Seq<ExprModel>, f: Name, k: nat) -> bool
    decreases es,
{
    exists|i: int| 0 <= i < es.len() && expr_calls(#[trigger] es[i], f, k)
}

/// Whether a fact has such a call.
pub open spec fn fact_calls(fact: FactModel, f: Name, k: nat) -> bool
    decreases fact,
{
    match fact {
        FactModel::Eq(_, e1, e2) => expr_calls(e1, f, k) || expr_calls(e2, f, k),
        FactModel::Fact(e) => expr_calls(e, f, k),
        FactModel::Or(_, branches) => exists|i: int|
            0 <= i < branches.len() && facts_call(#[trigger] branches[i], f, k),
    }
}

/// Whether a conjunction has such a call.
pub open spec fn facts_call(fs: Seq<FactModel>, f: Name, k: nat) -> bool
    decreases fs,
{
    exists|i: int| 0 <= i < fs.len() && fact_calls(#[trigger] fs[i], f, k)
}

/// Whether a rule has such a call in its body or in an expression of its actions.
pub open spec fn command_calls(command: CommandModel, f: Name, k: nat) -> bool {
    command matches CommandModel::Rule { rule } && (facts_call(rule.body, f, k) || exists|j: int|
        0 <= j < rule.head.len() && exprs_call(action_expr_models(#[trigger] rule.head[j]), f, k))
}

/// Whether some commands declare the relation `f` with `k` columns.
pub open spec fn declares(commands: Seq<CommandModel>, f: Name, k: nat) -> bool {
    exists|j: int|
        0 <= j < commands.len() && (#[trigger] commands[j] matches CommandModel::Relation {
            name,
            inputs,
            ..
        } && name == f && inputs.len() == k)
}

/// Whether every relation that one of the commands calls is declared by an earlier one,
/// unless one of the given facts calls it too.
pub open spec fn declared_before_use(commands: Seq<CommandModel>, given: Seq<FactModel>) -> bool {
    forall|i: int, f: Name, k: nat|
        #![trigger command_calls(commands[i], f, k)]
        0 <= i < commands.len() && command_calls(commands[i], f, k) ==> facts_call(given, f, k)
            || declares(commands.take(i), f, k)
}

pub proof fn lemma_facts_call_add(a: Seq<FactModel>, b: Seq<FactModel>, f: Name, k: nat)
    ensures
        facts_call(a + b, f, k) <==> facts_call(a, f, k) || facts_call(b, f, k),
{
    let all = a + b;
    if facts_call(all, f, k) {
        let i = choose|i: int| 0 <= i < all.len() && fact_calls(#[trigger] all[i], f, k);
        if i < a.len() {
            assert(all[i] == a[i]);
        } else {
            assert(all[i] == b[i - a.len()]);
        }
    }
    if facts_call(a, f, k) {
        let i = choose|i: int| 0 <= i < a.len() && fact_calls(#[trigger] a[i], f, k);
        assert(all[i] == a[i]);
    }
    if facts_call(b, f, k) {
        let i = choose|i: int| 0 <= i < b.len() && fact_calls(#[trigger] b[i], f, k);
        assert(all[a.len() + i] == b[i]);
    }
}

pub proof fn lemma_facts_call_push(a: Seq<FactModel>, fact: FactModel, f: Name, k: nat)
    ensures
        facts_call(a.push(fact), f, k) <==> facts_call(a, f, k) || fact_calls(fact, f, k),
{
    let all = a.push(fact);
    if facts_call(all, f, k) {
        let i = choose|i: int| 0 <= i < all.len() && fact_calls(#[trigger] all[i], f, k);
        if i < a.len() {
            assert(all[i] == a[i]);
        }
    }
    if facts_call(a, f, k) {
        let i = choose|i: int| 0 <= i < a.len() && fact_calls(#[trigger] a[i], f, k);
        assert(all[i] == a[i]);
    }
    if fact_calls(fact, f, k) {
        assert(all[a.len() as int] == fact);
    }
}

pub proof fn lemma_or_calls(span: Span, bs: Seq<Seq<FactModel>>, i: int, f: Name, k: nat)
    requires
        0 <= i < bs.len(),
        facts_call(bs[i], f, k),
    ensures
        fact_calls(FactModel::Or(span, bs), f, k),
{
    match FactModel::Or(span, bs) {
        FactModel::Or(_, branches) => {
            assert(facts_call(branches[i], f, k));
        },
        _ => {},
    }
}

pub proof fn lemma_declares_add(a: Seq<CommandModel>, b: Seq<CommandModel>, f: Name, k: nat)
    ensures
        declares(a + b, f, k) <==> declares(a, f, k) || declares(b, f, k),
{
    let all = a + b;
    if declares(a, f, k) {
        let j = choose|j: int|
            0 <= j < a.len() && (#[trigger] a[j] matches CommandModel::Relation {
                name,
                inputs,
                ..
            } && name == f && inputs.len() == k);
        assert(all[j] == a[j]);
    }
    if declares(b, f, k) {
        let j = choose|j: int|
            0 <= j < b.len() && (#[trigger] b[j] matches CommandModel::Relation {
                name,
                inputs,
                ..
            } && name == f && inputs.len() == k);
        assert(all[a.len() + j] == b[j]);
    }
    if declares(all, f, k) {
        let j = choose|j: int|
            0 <= j < all.len() && (#[trigger] all[j] matches CommandModel::Relation {
                name,
                inputs,
                ..
            } && name == f && inputs.len() == k);
        if j < a.len() {
            assert(all[j] == a[j]);
        } else {
            assert(all[j] == b[j - a.len()]);
        }
    }
}

/// Two lists of commands in a row, where the second may call what the first declares.
pub proof fn lemma_declared_add(
    a: Seq<CommandModel>,
    b: Seq<CommandModel>,
    given: Seq<FactModel>,
)
    requires
        declared_before_use(a, given),
        forall|i: int, f: Name, k: nat|
            #![trigger command_calls(b[i], f, k)]
            0 <= i < b.len() && command_calls(b[i], f, k) ==> facts_call(given, f, k) || declares(
                a,
                f,
                k,
            ) || declares(b.take(i), f, k),
    ensures
        declared_before_use(a + b, given),
{
    let all = a + b;
    assert forall|i: int, f: Name, k: nat|
        #![trigger command_calls(all[i], f, k)]
        0 <= i < all.len() && command_calls(all[i], f, k) implies facts_call(given, f, k)
        || declares(all.take(i), f, k) by {
        if i < a.len() {
            assert(all[i] == a[i]);
            assert(all.take(i) =~= a.take(i));
            assert(command_calls(a[i], f, k));
        } else {
            let m = i - a.len();
            assert(all[i] == b[m]);
            assert(command_calls(b[m], f, k));
            assert(all.take(i) =~= a + b.take(m));
            lemma_declares_add(a, b.take(m), f, k);
        }
    }
}

/// The calls of a lowered conjunction and of the commands that its lowering adds.
pub proof fn lemma_facts_calls(fs: Seq<FactModel>, m: nat, env: Env, n: nat)
    requires
        m <= fs.len(),
    ensures
        lowered_facts(fs, m, env, n).result matches Ok(done) ==> forall|f: Name, k: nat| #[trigger]
            facts_call(done, f, k) ==> facts_call(fs, f, k) || declares(
                lowered_facts(fs, m, env, n).aux,
                f,
                k,
            ),
        declared_before_use(lowered_facts(fs, m, env, n).aux, env.context + fs),
    decreases fs, m,
{
    let outcome = lowered_facts(fs, m, env, n);
    let given = env.context + fs;
    if m > 0 {
        let before = lowered_facts(fs, (m - 1) as nat, env, n);
        lemma_facts_calls(fs, (m - 1) as nat, env, n);
        if before.result is Ok {
            let done = before.result->Ok_0;
            match fs[m - 1] {
                FactModel::Or(span, branches) => {
                    let inner = surroundings_of(fs, m - 1, env);
                    let or = lowered_or(span, branches, inner, before.next);
                    lemma_or_calls_declared(span, branches, inner, before.next);
                    let around = inner.context.push(fs[m - 1]);
                    assert forall|f: Name, k: nat| #[trigger]
                        facts_call(around, f, k) implies facts_call(given, f, k) by {
                        lemma_facts_call_push(inner.context, fs[m - 1], f, k);
                        lemma_facts_call_add(env.context, plain_facts(fs), f, k);
                        lemma_facts_call_add(env.context, fs, f, k);
                        lemma_plain_calls(fs, f, k);
                        if fact_calls(fs[m - 1], f, k) {
                            assert(facts_call(fs, f, k));
                        }
                    }
                    assert forall|i: int, f: Name, k: nat|
                        #![trigger command_calls(or.aux[i], f, k)]
                        0 <= i < or.aux.len() && command_calls(or.aux[i], f, k) implies facts_call(
                        given,
                        f,
                        k,
                    ) || declares(before.aux, f, k) || declares(or.aux.take(i), f, k) by {
                        assert(facts_call(around, f, k) || declares(or.aux.take(i), f, k));
                    }
                    lemma_declared_add(before.aux, or.aux, given);
                    if or.result is Ok {
                        let fact = or.result->Ok_0;
                        assert forall|f: Name, k: nat| #[trigger]
                            facts_call(done.push(fact), f, k) implies facts_call(fs, f, k)
                            || declares(outcome.aux, f, k) by {
                            lemma_facts_call_push(done, fact, f, k);
                            lemma_declares_add(before.aux, or.aux, f, k);
                        }
                    }
                },
                plain => {
                    assert forall|f: Name, k: nat| #[trigger]
                        facts_call(done.push(plain), f, k) implies facts_call(fs, f, k)
                        || declares(outcome.aux, f, k) by {
                        lemma_facts_call_push(done, plain, f, k);
                        if fact_calls(fs[m - 1], f, k) {
                            assert(facts_call(fs, f, k));
                        }
                    }
                },
            }
        }
    }
}

pub proof fn lemma_plain_calls(fs: Seq<FactModel>, f: Name, k: nat)
    ensures
        facts_call(plain_facts(fs), f, k) ==> facts_call(fs, f, k),
{
    let plain = plain_facts(fs);
    if facts_call(plain, f, k) {
        let i = choose|i: int| 0 <= i < plain.len() && fact_calls(#[trigger] plain[i], f, k);
        lemma_plain_facts(fs);
        assert(plain.contains(plain[i]));
        let m = choose|m: int| 0 <= m < fs.len() && fs[m] == plain[i];
        assert(fact_calls(fs[m], f, k));
    }
}

/// The calls of lowered branches, likewise.
pub proof fn lemma_branches_calls(span: Span, bs: Seq<Seq<FactModel>>, m: nat, env: Env, n: nat)
    requires
        m <= bs.len(),
    ensures
        lowered_branches(span, bs, m, env, n).result matches Ok(done) ==> forall|
            i: int,
            f: Name,
            k: nat,
        |
            #![trigger facts_call(done[i], f, k)]
            0 <= i < done.len() && facts_call(done[i], f, k) ==> fact_calls(
                FactModel::Or(span, bs),
                f,
                k,
            ) || declares(lowered_branches(span, bs, m, env, n).aux, f, k),
        declared_before_use(
            lowered_branches(span, bs, m, env, n).aux,
            env.context.push(FactModel::Or(span, bs)),
        ),
    decreases bs, m,
{
    let outcome = lowered_branches(span, bs, m, env, n);
    let or = FactModel::Or(span, bs);
    let given = env.context.push(or);
    if m > 0 {
        let before = lowered_branches(span, bs, (m - 1) as nat, env, n);
        lemma_branches_calls(span, bs, (m - 1) as nat, env, n);
        if before.result is Ok && bs[m - 1].len() > 0 {
            let done = before.result->Ok_0;
            let fs = bs[m - 1];
            let inner = branch_env(span, bs, m - 1, env);
            let branch = lowered_facts(fs, fs.len(), inner, before.next);
            lemma_facts_calls(fs, fs.len(), inner, before.next);
            let around = inner.context + fs;
            assert forall|f: Name, k: nat| #[trigger]
                facts_call(around, f, k) implies facts_call(given, f, k) by {
                lemma_facts_call_add(env.context, fs, f, k);
                lemma_facts_call_push(env.context, or, f, k);
                if facts_call(fs, f, k) {
                    lemma_or_calls(span, bs, m - 1, f, k);
                }
            }
            assert forall|i: int, f: Name, k: nat|
                #![trigger command_calls(branch.aux[i], f, k)]
                0 <= i < branch.aux.len() && command_calls(branch.aux[i], f, k) implies facts_call(
                given,
                f,
                k,
            ) || declares(before.aux, f, k) || declares(branch.aux.take(i), f, k) by {
                assert(facts_call(around, f, k) || declares(branch.aux.take(i), f, k));
            }
            lemma_declared_add(before.aux, branch.aux, given);
            if branch.result is Ok {
                let new = branch.result->Ok_0;
                let all = done.push(new);
                assert forall|i: int, f: Name, k: nat|
                    #![trigger facts_call(all[i], f, k)]
                    0 <= i < all.len() && facts_call(all[i], f, k) implies fact_calls(or, f, k)
                    || declares(outcome.aux, f, k) by {
                    lemma_declares_add(before.aux, branch.aux, f, k);
                    if i < done.len() {
                        assert(all[i] == done[i]);
                        assert(facts_call(done[i], f, k));
                    } else {
                        assert(facts_call(new, f, k));
                        if facts_call(fs, f, k) {
                            lemma_or_calls(span, bs, m - 1, f, k);
                        }
                    }
                }
            }
        }
    }
}

/// The calls of the atom that replaces a disjunction, likewise.
pub proof fn lemma_or_calls_declared(span: Span, bs: Seq<Seq<FactModel>>, env: Env, n: nat)
    ensures
        lowered_or(span, bs, env, n).result matches Ok(fact) ==> forall|f: Name, k: nat| #[trigger]
            fact_calls(fact, f, k) ==> declares(lowered_or(span, bs, env, n).aux, f, k),
        declared_before_use(
            lowered_or(span, bs, env, n).aux,
            env.context.push(FactModel::Or(span, bs)),
        ),
    decreases bs, bs.len() + 1,
{
    let fact = FactModel::Or(span, bs);
    let given = env.context.push(fact);
    let inner = lowered_branches(span, bs, bs.len(), env, n);
    lemma_branches_calls(span, bs, bs.len(), env, n);
    if inner.result is Ok {
        let done = inner.result->Ok_0;
        let or = materialized(span, done, env, inner.next);
        let key = key_of(done, env.bound);
        let relation = nth_name(env.reserved, inner.next, relation_hint());
        let rules = branch_rules(span, done, key, relation, env, inner.next + 1);
        let atom = key_atom(span, relation, key);
        if or.result is Ok {
            let decl = relation_decl(span, key, relation, env.sorts, env.renaming);
            assert(or.aux == seq![decl] + rules);
            assert(or.aux[0] == decl);
            assert(declares(or.aux, relation, key.len()));
            assert forall|f: Name, k: nat| #[trigger] expr_calls(atom, f, k) implies f == relation
                && k == key.len() by {
                lemma_atom_calls(span, relation, key, f, k);
            }
            assert forall|f: Name, k: nat| #[trigger]
                fact_calls(or.result->Ok_0, f, k) implies declares(inner.aux + or.aux, f, k) by {
                assert(expr_calls(atom, f, k));
                lemma_declares_add(inner.aux, or.aux, f, k);
            }
            assert forall|i: int, f: Name, k: nat|
                #![trigger command_calls(or.aux[i], f, k)]
                0 <= i < or.aux.len() && command_calls(or.aux[i], f, k) implies facts_call(
                given,
                f,
                k,
            ) || declares(inner.aux, f, k) || declares(or.aux.take(i), f, k) by {
                assert(i > 0);
                assert(or.aux[i] == rules[i - 1]);
                let rule = or.aux[i]->rule;
                let branch = done[i - 1];
                lemma_facts_call_push(env.context, fact, f, k);
                if facts_call(rule.body, f, k) {
                    assert(rule.body == branch_body(branch, key, env.bound, env.context));
                    lemma_facts_call_add(env.context, branch, f, k);
                    if facts_call(branch, f, k) {
                        assert(facts_call(done[i - 1], f, k));
                    }
                } else {
                    let es = action_expr_models(rule.head[0]);
                    assert(es =~= seq![atom]);
                    assert(expr_calls(es[0], f, k));
                    assert(or.aux.take(i)[0] == decl);
                    assert(declares(or.aux.take(i), f, k));
                }
            }
        }
        lemma_declared_add(inner.aux, or.aux, given);
    }
}

pub proof fn lemma_atom_calls(span: Span, relation: Name, key: Seq<Name>, f: Name, k: nat)
    requires
        expr_calls(key_atom(span, relation, key), f, k),
    ensures
        f == relation,
        k == key.len(),
{
    let args = Seq::new(key.len(), |i: int| ExprModel::Var(span, key[i]));
    if exprs_call(args, f, k) {
        let i = choose|i: int| 0 <= i < args.len() && expr_calls(#[trigger] args[i], f, k);
        assert(args[i] is Var);
    }
}

/// Every relation that a generated rule or the lowered body calls is declared before,
/// with as many columns as the call has arguments, unless the rule calls it itself. No
/// relation is declared twice.
pub proof fn law_relations_are_declared_before_use(
    rule: RuleModel,
    sorts: Map<Name, Name>,
    reserved: Name,
    queried: nat,
    n: nat,
)
    requires
        lowered_rule(rule, sorts, reserved, queried, n).0 is Ok,
    ensures
        declared_before_use(
            lowered_rule(rule, sorts, reserved, queried, n).0->Ok_0.drop_last(),
            rule.body,
        ),
        names_differ(lowered_rule(rule, sorts, reserved, queried, n).0->Ok_0.drop_last()),
        lowered_rule(rule, sorts, reserved, queried, n).0->Ok_0.last() matches CommandModel::Rule {
            rule: lowered,
        } && forall|f: Name, k: nat| #[trigger]
            facts_call(lowered.body, f, k) ==> facts_call(rule.body, f, k) || declares(
                lowered_rule(rule, sorts, reserved, queried, n).0->Ok_0.drop_last(),
                f,
                k,
            ),
{
    let env = rule_env(rule, sorts, reserved, queried);
    let body = lowered_facts(rule.body, rule.body.len(), env, n);
    let commands = lowered_rule(rule, sorts, reserved, queried, n).0->Ok_0;
    assert(commands.drop_last() =~= body.aux);
    assert(env.context + rule.body =~= rule.body);
    lemma_facts_calls(rule.body, rule.body.len(), env, n);
    law_generated_names_differ(rule, sorts, reserved, queried, n);
}

} // verus!
