//! How soon the generated relations are filled.

use vstd::prelude::*;

use crate::ast::{CommandModel, ExprModel, FactModel, Name, RuleModel, Span};
use crate::calls::{
    command_calls, declares, expr_calls, exprs_call, fact_calls, facts_call,
    law_relations_are_declared_before_use, lemma_declares_add, lemma_facts_call_add, lemma_or_calls,
    lemma_plain_calls,
};
use crate::commands::{lowered_rule, rule_env};
use crate::filling::{
    calls_none, generated_names, law_relations_can_be_filled, lemma_declares_generated,
    lemma_eval_all_same, lemma_fact_same, lemma_facts_same, same_but,
};
use crate::generated::{
    context_binds, lemma_branches_generated, lemma_context_binds, lemma_derives_target,
    lemma_facts_generated, lemma_fixpoint_split, lemma_materialized_generated, lemma_or_generated,
    target,
};
use crate::laws::law_lowering_preserves_matches;
use crate::lowering::{
    branch_env, lowered_branches, lowered_facts, lowered_or, plain_facts, surroundings_of,
};
use crate::materialize::{
    branch_body, branch_rules, key_of, materialized, relation_decl, relation_hint, Env,
};
use crate::scope::{is_or, scope};
use crate::semantics::{
    at_fixpoint, derives, eval, eval_all, holds, holds_all, in_relation, puts, settled, Assignment,
    Database, Value,
};
use crate::symbol_gen::nth_name;
use crate::vars::action_expr_models;

verus! {

/// The database after every rule of a program has been run once on what is there.
pub open spec fn round(db: Database, program: Seq<CommandModel>) -> Database {
    Database {
        call: |f: Name, args: Seq<Value>|
            if in_relation(db, f, args) || !(exists|j: int|
                0 <= j < program.len() && derives(#[trigger] program[j], f, args, db)) {
                (db.call)(f, args)
            } else {
                Some(0int)
            },
        ..db
    }
}

/// The database after some rounds.
pub open spec fn rounds(db: Database, program: Seq<CommandModel>, k: nat) -> Database
    decreases k,
{
    if k == 0 {
        db
    } else {
        round(rounds(db, program, (k - 1) as nat), program)
    }
}

/// The larger of two numbers.
pub open spec fn larger(a: nat, b: nat) -> nat {
    if a < b {
        b
    } else {
        a
    }
}

/// How deep disjunctions are nested in a fact.
pub open spec fn fact_depth(f: FactModel) -> nat
    decreases f, 0nat,
{
    match f {
        FactModel::Or(_, branches) => 1 + branches_depth(branches, branches.len()),
        _ => 0,
    }
}

/// How deep disjunctions are nested in the first `k` facts of a conjunction.
pub open spec fn facts_depth(fs: Seq<FactModel>, k: nat) -> nat
    decreases fs, k,
{
    if k == 0 || k > fs.len() {
        0
    } else {
        larger(facts_depth(fs, (k - 1) as nat), fact_depth(fs[k - 1]))
    }
}

/// How deep disjunctions are nested in the first `k` branches of a disjunction.
pub open spec fn branches_depth(branches: Seq<Seq<FactModel>>, k: nat) -> nat
    decreases branches, k,
{
    if k == 0 || k > branches.len() {
        0
    } else {
        larger(
            branches_depth(branches, (k - 1) as nat),
            facts_depth(branches[k - 1], branches[k - 1].len()),
        )
    }
}

/// The relations that some commands declare.
pub open spec fn declared_names(commands: Seq<CommandModel>) -> Set<Name> {
    Set::new(|f: Name| exists|k: nat| #[trigger] declares(commands, f, k))
}

/// A plain fact that either calls none of the named relations or looks one of those in
/// `own` up.
pub open spec fn is_simple(f: FactModel, own: Set<Name>, names: Set<Name>) -> bool {
    &&& !is_or(f)
    &&& {
        ||| forall|g: Name, k: nat| #[trigger] fact_calls(f, g, k) ==> !names.contains(g)
        ||| f matches FactModel::Fact(ExprModel::Call(_, r, es)) && own.contains(r) && forall|
            g: Name,
            k: nat,
        | #[trigger]
            exprs_call(es, g, k) ==> !names.contains(g)
    }
}

pub open spec fn all_simple(fs: Seq<FactModel>, own: Set<Name>, names: Set<Name>) -> bool {
    forall|j: int| 0 <= j < fs.len() ==> is_simple(#[trigger] fs[j], own, names)
}

/// A relation of one database is contained in that of another, for the named relations.
pub open spec fn contained(a: Database, b: Database, own: Set<Name>) -> bool {
    forall|f: Name, args: Seq<Value>|
        own.contains(f) && #[trigger] in_relation(a, f, args) ==> in_relation(b, f, args)
}

/// What holds keeps holding while the relations grow.
proof fn lemma_simple_grows(
    fs: Seq<FactModel>,
    a: Database,
    b: Database,
    s: Assignment,
    own: Set<Name>,
    names: Set<Name>,
)
    requires
        all_simple(fs, own, names),
        same_but(a, b, names),
        contained(a, b, own),
        holds_all(fs, a, s, Set::empty()),
    ensures
        holds_all(fs, b, s, Set::empty()),
{
    let inner = scope(Set::empty(), fs);
    assert forall|j: int| 0 <= j < fs.len() implies holds(#[trigger] fs[j], b, s, inner) by {
        let f = fs[j];
        assert(is_simple(f, own, names));
        assert(holds(f, a, s, inner));
        if forall|g: Name, k: nat| #[trigger] fact_calls(f, g, k) ==> !names.contains(g) {
            lemma_fact_same(f, a, b, s, inner, names);
        } else {
            let call = f->Fact_0;
            let r = call->Call_1;
            let es = call->Call_2;
            lemma_eval_all_same(es, a, b, s, names);
            assert(eval(call, a, s) is Some);
            let values = eval_all(es, a, s)->0;
            assert(in_relation(a, r, values));
            assert(in_relation(b, r, values));
            assert(eval(call, b, s) is Some);
        }
    }
}

proof fn lemma_simple_widens(
    fs: Seq<FactModel>,
    own: Set<Name>,
    wider: Set<Name>,
    names: Set<Name>,
)
    requires
        all_simple(fs, own, names),
        forall|f: Name| #[trigger] own.contains(f) ==> wider.contains(f),
    ensures
        all_simple(fs, wider, names),
{
    assert forall|j: int| 0 <= j < fs.len() implies is_simple(#[trigger] fs[j], wider, names) by {
        assert(is_simple(fs[j], own, names));
    }
}

proof fn lemma_declared_names_add(a: Seq<CommandModel>, b: Seq<CommandModel>)
    ensures
        forall|f: Name| #[trigger]
            declared_names(a + b).contains(f) <==> declared_names(a).contains(f)
                || declared_names(b).contains(f),
{
    assert forall|f: Name| #[trigger] declared_names(a + b).contains(f) <==> declared_names(
        a,
    ).contains(f) || declared_names(b).contains(f) by {
        if declared_names(a + b).contains(f) {
            let k = choose|k: nat| #[trigger] declares(a + b, f, k);
            lemma_declares_add(a, b, f, k);
        }
        if declared_names(a).contains(f) {
            let k = choose|k: nat| #[trigger] declares(a, f, k);
            lemma_declares_add(a, b, f, k);
        }
        if declared_names(b).contains(f) {
            let k = choose|k: nat| #[trigger] declares(b, f, k);
            lemma_declares_add(a, b, f, k);
        }
    }
}

/// Every fact of a lowered conjunction is simple.
proof fn lemma_facts_simple(fs: Seq<FactModel>, m: nat, env: Env, n: nat, names: Set<Name>)
    requires
        m <= fs.len(),
        lowered_facts(fs, m, env, n).result is Ok,
        calls_none(fs, names),
    ensures
        lowered_facts(fs, m, env, n).result->Ok_0.len() == m,
        all_simple(
            lowered_facts(fs, m, env, n).result->Ok_0,
            declared_names(lowered_facts(fs, m, env, n).aux),
            names,
        ),
    decreases m,
{
    if m > 0 {
        let before = lowered_facts(fs, (m - 1) as nat, env, n);
        let done = before.result->Ok_0;
        let outcome = lowered_facts(fs, m, env, n);
        let all = outcome.result->Ok_0;
        lemma_facts_simple(fs, (m - 1) as nat, env, n, names);
        match fs[m - 1] {
            FactModel::Or(span, branches) => {
                let inner = surroundings_of(fs, m - 1, env);
                let or = lowered_or(span, branches, inner, before.next);
                lemma_declared_names_add(before.aux, or.aux);
                lemma_simple_widens(
                    done,
                    declared_names(before.aux),
                    declared_names(outcome.aux),
                    names,
                );
                lemma_atom_simple(span, branches, inner, before.next, names);
                let atom = or.result->Ok_0;
                assert(is_simple(atom, declared_names(outcome.aux), names));
            },
            f => {
                assert forall|g: Name, k: nat| #[trigger] fact_calls(f, g, k) implies !names.contains(
                    g,
                ) by {
                    assert(fact_calls(fs[m - 1], g, k));
                    assert(facts_call(fs, g, k));
                }
            },
        }
        assert forall|j: int| 0 <= j < all.len() implies is_simple(
            #[trigger] all[j],
            declared_names(outcome.aux),
            names,
        ) by {
            if j < m - 1 {
                assert(all[j] == done[j]);
            }
        }
    }
}

/// The atom that replaces a disjunction looks a declared relation up.
proof fn lemma_atom_simple(
    span: Span,
    bs: Seq<Seq<FactModel>>,
    env: Env,
    n: nat,
    names: Set<Name>,
)
    requires
        lowered_or(span, bs, env, n).result is Ok,
    ensures
        is_simple(
            lowered_or(span, bs, env, n).result->Ok_0,
            declared_names(lowered_or(span, bs, env, n).aux),
            names,
        ),
{
    let inner = lowered_branches(span, bs, bs.len(), env, n);
    let done = inner.result->Ok_0;
    let or = materialized(span, done, env, inner.next);
    let key = key_of(done, env.bound);
    let relation = nth_name(env.reserved, inner.next, relation_hint());
    let es = Seq::new(key.len(), |i: int| ExprModel::Var(span, key[i]));
    assert(or.aux[0] == relation_decl(span, key, relation, env.sorts, env.renaming));
    assert(declares(or.aux, relation, key.len()));
    lemma_declared_names_add(inner.aux, or.aux);
    assert(declared_names(inner.aux + or.aux).contains(relation));
    assert forall|g: Name, k: nat| #[trigger] exprs_call(es, g, k) implies !names.contains(g) by {
        let i = choose|i: int| 0 <= i < es.len() && expr_calls(#[trigger] es[i], g, k);
        assert(es[i] is Var);
    }
}

proof fn lemma_branches_simple(
    span: Span,
    bs: Seq<Seq<FactModel>>,
    m: nat,
    env: Env,
    n: nat,
    names: Set<Name>,
)
    requires
        m <= bs.len(),
        lowered_branches(span, bs, m, env, n).result is Ok,
        forall|i: int| 0 <= i < bs.len() ==> calls_none(#[trigger] bs[i], names),
    ensures
        lowered_branches(span, bs, m, env, n).result->Ok_0.len() == m,
        forall|i: int|
            0 <= i < m ==> all_simple(
                #[trigger] lowered_branches(span, bs, m, env, n).result->Ok_0[i],
                declared_names(lowered_branches(span, bs, m, env, n).aux),
                names,
            ),
    decreases m,
{
    if m > 0 {
        let before = lowered_branches(span, bs, (m - 1) as nat, env, n);
        let done = before.result->Ok_0;
        let outcome = lowered_branches(span, bs, m, env, n);
        let all = outcome.result->Ok_0;
        let fs = bs[m - 1];
        let inner = branch_env(span, bs, m - 1, env);
        let branch = lowered_facts(fs, fs.len(), inner, before.next);
        lemma_branches_simple(span, bs, (m - 1) as nat, env, n, names);
        lemma_facts_simple(fs, fs.len(), inner, before.next, names);
        lemma_declared_names_add(before.aux, branch.aux);
        assert forall|i: int| 0 <= i < m implies all_simple(
            #[trigger] all[i],
            declared_names(outcome.aux),
            names,
        ) by {
            if i < m - 1 {
                assert(all[i] == done[i]);
                lemma_simple_widens(
                    done[i],
                    declared_names(before.aux),
                    declared_names(outcome.aux),
                    names,
                );
            } else {
                lemma_simple_widens(
                    all[i],
                    declared_names(branch.aux),
                    declared_names(outcome.aux),
                    names,
                );
            }
        }
    }
}

/// Every command of one program is one of another.
pub open spec fn within(a: Seq<CommandModel>, program: Seq<CommandModel>) -> bool {
    forall|j: int| 0 <= j < a.len() ==> program.contains(#[trigger] a[j])
}

pub proof fn lemma_within_add(
    a: Seq<CommandModel>,
    b: Seq<CommandModel>,
    program: Seq<CommandModel>,
)
    requires
        within(a + b, program),
    ensures
        within(a, program),
        within(b, program),
{
    let all = a + b;
    assert forall|j: int| 0 <= j < a.len() implies program.contains(#[trigger] a[j]) by {
        assert(all[j] == a[j]);
    }
    assert forall|j: int| 0 <= j < b.len() implies program.contains(#[trigger] b[j]) by {
        assert(all[a.len() + j] == b[j]);
    }
}

proof fn lemma_within_declares(a: Seq<CommandModel>, program: Seq<CommandModel>)
    requires
        within(a, program),
    ensures
        forall|f: Name| #[trigger]
            declared_names(a).contains(f) ==> declared_names(program).contains(f),
{
    assert forall|f: Name| #[trigger] declared_names(a).contains(f) implies declared_names(
        program,
    ).contains(f) by {
        let k = choose|k: nat| #[trigger] declares(a, f, k);
        let j = choose|j: int|
            0 <= j < a.len() && (#[trigger] a[j] matches CommandModel::Relation {
                name,
                inputs,
                ..
            } && name == f && inputs.len() == k);
        assert(program.contains(a[j]));
        let m = choose|m: int| 0 <= m < program.len() && program[m] == a[j];
        assert(declares(program, f, k));
    }
}

/// What is fixed while a lowering is taken apart: a program, the names of its relations,
/// and two databases that differ in these alone.
pub struct Setting {
    pub program: Seq<CommandModel>,
    pub names: Set<Name>,
    pub db: Database,
    pub filled: Database,
}

pub open spec fn is_setting(at: Setting) -> bool {
    &&& same_but(at.db, at.filled, at.names)
    &&& forall|j: int|
        0 <= j < at.program.len() ==> (target(#[trigger] at.program[j]) matches Some(f)
            && at.names.contains(f))
}

/// A rule that puts a tuple of variables into a relation.
pub open spec fn plain_head(rule: RuleModel) -> bool {
    forall|j: int, i: int|
        #![trigger rule.head[j]->Expr_1->Call_2[i]]
        0 <= j < rule.head.len() && rule.head[j] is Expr && rule.head[j]->Expr_1 is Call && 0 <= i
            < rule.head[j]->Expr_1->Call_2.len() ==> rule.head[j]->Expr_1->Call_2[i] is Var
}

/// A rule with a simple body that puts tuples of variables into relations.
pub open spec fn is_simple_rule(command: CommandModel, own: Set<Name>, names: Set<Name>) -> bool {
    command matches CommandModel::Rule { rule } ==> all_simple(rule.body, own, names)
        && plain_head(rule)
}

pub open spec fn simple_rules(
    program: Seq<CommandModel>,
    own: Set<Name>,
    names: Set<Name>,
) -> bool {
    forall|j: int|
        0 <= j < program.len() ==> is_simple_rule(#[trigger] program[j], own, names)
}

proof fn lemma_simple_rules_add(
    a: Seq<CommandModel>,
    b: Seq<CommandModel>,
    own: Set<Name>,
    names: Set<Name>,
)
    requires
        simple_rules(a, own, names),
        simple_rules(b, own, names),
    ensures
        simple_rules(a + b, own, names),
{
    let all = a + b;
    assert forall|j: int| 0 <= j < all.len() implies is_simple_rule(
        #[trigger] all[j],
        own,
        names,
    ) by {
        if j < a.len() {
            assert(all[j] == a[j]);
        } else {
            assert(all[j] == b[j - a.len()]);
        }
    }
}

/// The body of a branch's rule is simple.
proof fn lemma_body_simple(
    branch: Seq<FactModel>,
    key: Seq<Name>,
    env: Env,
    own: Set<Name>,
    names: Set<Name>,
)
    requires
        all_simple(branch, own, names),
        context_binds(env),
        calls_none(env.context, names),
    ensures
        all_simple(branch_body(branch, key, env.bound, env.context), own, names),
{
    let both = env.context + branch;
    assert forall|j: int| 0 <= j < both.len() implies is_simple(#[trigger] both[j], own, names) by {
        if j < env.context.len() {
            let f = env.context[j];
            assert(both[j] == f);
            assert forall|g: Name, k: nat| #[trigger] fact_calls(f, g, k) implies !names.contains(
                g,
            ) by {
                assert(facts_call(env.context, g, k));
            }
        } else {
            assert(both[j] == branch[j - env.context.len()]);
        }
    }
}

/// What holds of the context and of the facts of a conjunction holds of what surrounds one
/// of its facts.
proof fn lemma_inner_calls_none(fs: Seq<FactModel>, i: int, env: Env, names: Set<Name>)
    requires
        0 <= i < fs.len(),
        calls_none(env.context, names),
        calls_none(fs, names),
    ensures
        calls_none(surroundings_of(fs, i, env).context, names),
        fs[i] matches FactModel::Or(_, branches) ==> forall|j: int|
            0 <= j < branches.len() ==> calls_none(#[trigger] branches[j], names),
{
    let inner = surroundings_of(fs, i, env);
    assert forall|f: Name, k: nat| #[trigger] facts_call(inner.context, f, k) implies !names.contains(
        f,
    ) by {
        lemma_facts_call_add(env.context, plain_facts(fs), f, k);
        lemma_plain_calls(fs, f, k);
    }
    if let FactModel::Or(span, branches) = fs[i] {
        assert forall|j: int| 0 <= j < branches.len() implies calls_none(
            #[trigger] branches[j],
            names,
        ) by {
            assert forall|f: Name, k: nat| #[trigger]
                facts_call(branches[j], f, k) implies !names.contains(f) by {
                lemma_or_calls(span, branches, j, f, k);
                assert(fact_calls(fs[i], f, k));
                assert(facts_call(fs, f, k));
            }
        }
    }
}

proof fn lemma_facts_simple_rules(
    fs: Seq<FactModel>,
    m: nat,
    env: Env,
    n: nat,
    program: Seq<CommandModel>,
    names: Set<Name>,
)
    requires
        m <= fs.len(),
        lowered_facts(fs, m, env, n).result is Ok,
        within(lowered_facts(fs, m, env, n).aux, program),
        context_binds(env),
        calls_none(env.context, names),
        calls_none(fs, names),
    ensures
        simple_rules(lowered_facts(fs, m, env, n).aux, declared_names(program), names),
    decreases fs, m,
{
    if m > 0 {
        let before = lowered_facts(fs, (m - 1) as nat, env, n);
        match fs[m - 1] {
            FactModel::Or(span, branches) => {
                let inner = surroundings_of(fs, m - 1, env);
                let or = lowered_or(span, branches, inner, before.next);
                lemma_within_add(before.aux, or.aux, program);
                lemma_facts_simple_rules(fs, (m - 1) as nat, env, n, program, names);
                lemma_context_binds(fs, m - 1, env);
                lemma_inner_calls_none(fs, m - 1, env, names);
                lemma_or_simple_rules(span, branches, inner, before.next, program, names);
                lemma_simple_rules_add(before.aux, or.aux, declared_names(program), names);
            },
            _ => lemma_facts_simple_rules(fs, (m - 1) as nat, env, n, program, names),
        }
    }
}

proof fn lemma_branches_simple_rules(
    span: Span,
    bs: Seq<Seq<FactModel>>,
    m: nat,
    env: Env,
    n: nat,
    program: Seq<CommandModel>,
    names: Set<Name>,
)
    requires
        m <= bs.len(),
        lowered_branches(span, bs, m, env, n).result is Ok,
        within(lowered_branches(span, bs, m, env, n).aux, program),
        context_binds(env),
        calls_none(env.context, names),
        forall|i: int| 0 <= i < bs.len() ==> calls_none(#[trigger] bs[i], names),
    ensures
        simple_rules(lowered_branches(span, bs, m, env, n).aux, declared_names(program), names),
    decreases bs, m,
{
    if m > 0 {
        let before = lowered_branches(span, bs, (m - 1) as nat, env, n);
        let fs = bs[m - 1];
        let inner = branch_env(span, bs, m - 1, env);
        let branch = lowered_facts(fs, fs.len(), inner, before.next);
        lemma_within_add(before.aux, branch.aux, program);
        lemma_branches_simple_rules(span, bs, (m - 1) as nat, env, n, program, names);
        lemma_facts_simple_rules(fs, fs.len(), inner, before.next, program, names);
        lemma_simple_rules_add(before.aux, branch.aux, declared_names(program), names);
    }
}

proof fn lemma_or_simple_rules(
    span: Span,
    bs: Seq<Seq<FactModel>>,
    env: Env,
    n: nat,
    program: Seq<CommandModel>,
    names: Set<Name>,
)
    requires
        lowered_or(span, bs, env, n).result is Ok,
        within(lowered_or(span, bs, env, n).aux, program),
        context_binds(env),
        calls_none(env.context, names),
        forall|i: int| 0 <= i < bs.len() ==> calls_none(#[trigger] bs[i], names),
    ensures
        simple_rules(lowered_or(span, bs, env, n).aux, declared_names(program), names),
    decreases bs, bs.len() + 1,
{
    let inner = lowered_branches(span, bs, bs.len(), env, n);
    let done = inner.result->Ok_0;
    let or = materialized(span, done, env, inner.next);
    let key = key_of(done, env.bound);
    let relation = nth_name(env.reserved, inner.next, relation_hint());
    let rules = branch_rules(span, done, key, relation, env, inner.next + 1);
    let own = declared_names(program);
    lemma_within_add(inner.aux, or.aux, program);
    lemma_within_declares(inner.aux, program);
    lemma_branches_simple_rules(span, bs, bs.len(), env, n, program, names);
    lemma_branches_simple(span, bs, bs.len(), env, n, names);
    assert forall|j: int| 0 <= j < or.aux.len() implies is_simple_rule(
        #[trigger] or.aux[j],
        own,
        names,
    ) by {
        if j > 0 {
            assert(or.aux[j] == rules[j - 1]);
            lemma_simple_widens(done[j - 1], declared_names(inner.aux), own, names);
            lemma_body_simple(done[j - 1], key, env, own, names);
            let rule = or.aux[j]->rule;
            let es = Seq::new(key.len(), |i: int| ExprModel::Var(span, key[i]));
            assert(rule.head[0]->Expr_1->Call_2 == es);
            assert(plain_head(rule));
        }
    }
    lemma_simple_rules_add(inner.aux, or.aux, own, names);
}

/// A rule with a simple body that fires keeps firing while the relations grow.
proof fn lemma_derives_grows(
    command: CommandModel,
    f: Name,
    args: Seq<Value>,
    a: Database,
    b: Database,
    own: Set<Name>,
    names: Set<Name>,
)
    requires
        is_simple_rule(command, own, names),
        same_but(a, b, names),
        contained(a, b, own),
        derives(command, f, args, a),
    ensures
        derives(command, f, args, b),
{
    let rule = command->rule;
    let (s, j) = choose|s: Assignment, j: int|
        0 <= j < rule.head.len() && puts(#[trigger] rule.head[j], f, args, a, s)
            && #[trigger] holds_all(rule.body, a, s, Set::empty());
    lemma_simple_grows(rule.body, a, b, s, own, names);
    let es = rule.head[j]->Expr_1->Call_2;
    assert forall|g: Name, k: nat| #[trigger] exprs_call(es, g, k) implies !names.contains(g) by {
        let i = choose|i: int| 0 <= i < es.len() && expr_calls(#[trigger] es[i], g, k);
        assert(es[i] is Var);
    }
    lemma_eval_all_same(es, a, b, s, names);
    assert(puts(rule.head[j], f, args, b, s));
}

/// Rounds change nothing but the relations of the program.
proof fn lemma_rounds_same(at: Setting, k: nat)
    requires
        is_setting(at),
    ensures
        same_but(at.db, rounds(at.db, at.program, k), at.names),
        same_but(at.filled, rounds(at.db, at.program, k), at.names),
        same_but(rounds(at.db, at.program, k), at.filled, at.names),
    decreases k,
{
    let now = rounds(at.db, at.program, k);
    if k > 0 {
        let before = rounds(at.db, at.program, (k - 1) as nat);
        lemma_rounds_same(at, (k - 1) as nat);
        assert forall|f: Name, args: Seq<Value>| !at.names.contains(f) implies #[trigger] (
        at.db.call)(f, args) == (now.call)(f, args) by {
            assert((at.db.call)(f, args) == (before.call)(f, args));
            if exists|j: int|
                0 <= j < at.program.len() && derives(
                    #[trigger] at.program[j],
                    f,
                    args,
                    before,
                ) {
                let j = choose|j: int|
                    0 <= j < at.program.len() && derives(
                        #[trigger] at.program[j],
                        f,
                        args,
                        before,
                    );
                assert(target(at.program[j]) is Some);
                lemma_derives_target(at.program[j], f, args, before);
            }
        }
    }
    assert forall|f: Name, args: Seq<Value>| !at.names.contains(f) implies #[trigger] (
    at.filled.call)(f, args) == (now.call)(f, args) by {
        assert((at.db.call)(f, args) == (at.filled.call)(f, args));
        assert((at.db.call)(f, args) == (now.call)(f, args));
    }
    assert forall|f: Name, args: Seq<Value>| !at.names.contains(f) implies #[trigger] (now.call)(
        f,
        args,
    ) == (at.filled.call)(f, args) by {
        assert((at.filled.call)(f, args) == (now.call)(f, args));
    }
}

/// No round puts more into a relation than the fixpoint has.
proof fn lemma_rounds_below(at: Setting, k: nat)
    requires
        is_setting(at),
        simple_rules(at.program, declared_names(at.program), at.names),
        at_fixpoint(at.filled, at.program),
        forall|j: int|
            0 <= j < at.program.len() ==> (target(#[trigger] at.program[j]) matches Some(f)
                && declared_names(at.program).contains(f)),
        forall|f: Name, args: Seq<Value>|
            at.names.contains(f) ==> !#[trigger] in_relation(at.db, f, args),
        forall|f: Name| #[trigger]
            declared_names(at.program).contains(f) ==> at.names.contains(f),
    ensures
        contained(rounds(at.db, at.program, k), at.filled, declared_names(at.program)),
    decreases k,
{
    let own = declared_names(at.program);
    let now = rounds(at.db, at.program, k);
    if k > 0 {
        let before = rounds(at.db, at.program, (k - 1) as nat);
        lemma_rounds_below(at, (k - 1) as nat);
        lemma_rounds_same(at, (k - 1) as nat);
        assert forall|f: Name, args: Seq<Value>|
            own.contains(f) && #[trigger] in_relation(now, f, args) implies in_relation(
            at.filled,
            f,
            args,
        ) by {
            if in_relation(before, f, args) {
            } else {
                let j = choose|j: int|
                    0 <= j < at.program.len() && derives(
                        #[trigger] at.program[j],
                        f,
                        args,
                        before,
                    );
                assert(is_simple_rule(at.program[j], own, at.names));
                lemma_derives_grows(
                    at.program[j],
                    f,
                    args,
                    before,
                    at.filled,
                    own,
                    at.names,
                );
                lemma_declared_settled(at.filled, at.program, f);
            }
        }
    }
}

proof fn lemma_declared_settled(db: Database, program: Seq<CommandModel>, f: Name)
    requires
        at_fixpoint(db, program),
        declared_names(program).contains(f),
    ensures
        settled(db, f, program),
{
    let k = choose|k: nat| #[trigger] declares(program, f, k);
    let j = choose|j: int|
        0 <= j < program.len() && (#[trigger] program[j] matches CommandModel::Relation {
            name,
            inputs,
            ..
        } && name == f && inputs.len() == k);
    assert(program[j] is Relation);
}

/// After as many rounds as disjunctions are nested, the relations of a lowered conjunction
/// hold what they hold at the fixpoint.
proof fn lemma_facts_reached(fs: Seq<FactModel>, m: nat, env: Env, n: nat, at: Setting, k: nat)
    requires
        m <= fs.len(),
        lowered_facts(fs, m, env, n).result is Ok,
        within(lowered_facts(fs, m, env, n).aux, at.program),
        at_fixpoint(at.filled, lowered_facts(fs, m, env, n).aux),
        is_setting(at),
        context_binds(env),
        calls_none(env.context, at.names),
        calls_none(fs, at.names),
        facts_depth(fs, m) <= k,
    ensures
        contained(
            at.filled,
            rounds(at.db, at.program, k),
            declared_names(lowered_facts(fs, m, env, n).aux),
        ),
    decreases fs, m,
{
    let outcome = lowered_facts(fs, m, env, n);
    if m > 0 {
        let before = lowered_facts(fs, (m - 1) as nat, env, n);
        match fs[m - 1] {
            FactModel::Or(span, branches) => {
                let inner = surroundings_of(fs, m - 1, env);
                let or = lowered_or(span, branches, inner, before.next);
                assert(fs[m - 1] == FactModel::Or(span, branches));
                lemma_within_add(before.aux, or.aux, at.program);
                lemma_facts_generated(fs, (m - 1) as nat, env, n);
                lemma_or_generated(span, branches, inner, before.next);
                lemma_fixpoint_split(
                    at.filled,
                    before.aux,
                    or.aux,
                    env.reserved,
                    n,
                    before.next,
                    or.next,
                );
                lemma_facts_reached(fs, (m - 1) as nat, env, n, at, k);
                lemma_context_binds(fs, m - 1, env);
                lemma_inner_calls_none(fs, m - 1, env, at.names);
                lemma_or_reached(span, branches, inner, before.next, at, k);
                lemma_declared_names_add(before.aux, or.aux);
            },
            _ => lemma_facts_reached(fs, (m - 1) as nat, env, n, at, k),
        }
    } else {
        assert forall|f: Name| !declared_names(outcome.aux).contains(f) by {
            if declared_names(outcome.aux).contains(f) {
                let c = choose|c: nat| #[trigger] declares(outcome.aux, f, c);
                assert(false);
            }
        }
    }
}

proof fn lemma_branches_reached(
    span: Span,
    bs: Seq<Seq<FactModel>>,
    m: nat,
    env: Env,
    n: nat,
    at: Setting,
    k: nat,
)
    requires
        m <= bs.len(),
        lowered_branches(span, bs, m, env, n).result is Ok,
        within(lowered_branches(span, bs, m, env, n).aux, at.program),
        at_fixpoint(at.filled, lowered_branches(span, bs, m, env, n).aux),
        is_setting(at),
        context_binds(env),
        calls_none(env.context, at.names),
        forall|i: int| 0 <= i < bs.len() ==> calls_none(#[trigger] bs[i], at.names),
        branches_depth(bs, m) <= k,
    ensures
        contained(
            at.filled,
            rounds(at.db, at.program, k),
            declared_names(lowered_branches(span, bs, m, env, n).aux),
        ),
    decreases bs, m,
{
    let outcome = lowered_branches(span, bs, m, env, n);
    if m > 0 {
        let before = lowered_branches(span, bs, (m - 1) as nat, env, n);
        let fs = bs[m - 1];
        let inner = branch_env(span, bs, m - 1, env);
        let branch = lowered_facts(fs, fs.len(), inner, before.next);
        lemma_within_add(before.aux, branch.aux, at.program);
        lemma_branches_generated(span, bs, (m - 1) as nat, env, n);
        lemma_facts_generated(fs, fs.len(), inner, before.next);
        lemma_fixpoint_split(
            at.filled,
            before.aux,
            branch.aux,
            env.reserved,
            n,
            before.next,
            branch.next,
        );
        lemma_branches_reached(span, bs, (m - 1) as nat, env, n, at, k);
        lemma_facts_reached(fs, fs.len(), inner, before.next, at, k);
        lemma_declared_names_add(before.aux, branch.aux);
    } else {
        assert forall|f: Name| !declared_names(outcome.aux).contains(f) by {
            if declared_names(outcome.aux).contains(f) {
                let c = choose|c: nat| #[trigger] declares(outcome.aux, f, c);
                assert(false);
            }
        }
    }
}

proof fn lemma_or_reached(
    span: Span,
    bs: Seq<Seq<FactModel>>,
    env: Env,
    n: nat,
    at: Setting,
    k: nat,
)
    requires
        lowered_or(span, bs, env, n).result is Ok,
        within(lowered_or(span, bs, env, n).aux, at.program),
        at_fixpoint(at.filled, lowered_or(span, bs, env, n).aux),
        is_setting(at),
        context_binds(env),
        calls_none(env.context, at.names),
        forall|i: int| 0 <= i < bs.len() ==> calls_none(#[trigger] bs[i], at.names),
        fact_depth(FactModel::Or(span, bs)) <= k,
    ensures
        contained(
            at.filled,
            rounds(at.db, at.program, k),
            declared_names(lowered_or(span, bs, env, n).aux),
        ),
    decreases bs, bs.len() + 1,
{
    let inner = lowered_branches(span, bs, bs.len(), env, n);
    let done = inner.result->Ok_0;
    let or = materialized(span, done, env, inner.next);
    let key = key_of(done, env.bound);
    let relation = nth_name(env.reserved, inner.next, relation_hint());
    let decl = relation_decl(span, key, relation, env.sorts, env.renaming);
    let rules = branch_rules(span, done, key, relation, env, inner.next + 1);
    let own = declared_names(inner.aux);
    let now = rounds(at.db, at.program, k);
    let before = rounds(at.db, at.program, (k - 1) as nat);
    lemma_within_add(inner.aux, or.aux, at.program);
    lemma_branches_generated(span, bs, bs.len(), env, n);
    lemma_materialized_generated(span, done, env, inner.next);
    lemma_fixpoint_split(
        at.filled,
        inner.aux,
        or.aux,
        env.reserved,
        n,
        inner.next,
        or.next,
    );
    lemma_branches_reached(span, bs, bs.len(), env, n, at, k);
    lemma_branches_reached(span, bs, bs.len(), env, n, at, (k - 1) as nat);
    lemma_branches_simple(span, bs, bs.len(), env, n, at.names);
    lemma_rounds_same(at, (k - 1) as nat);
    lemma_declared_names_add(inner.aux, or.aux);
    assert(or.aux == seq![decl] + rules);
    assert(or.aux[0] == decl);
    assert(settled(at.filled, relation, or.aux));
    assert forall|f: Name| #[trigger] declared_names(or.aux).contains(f) implies f == relation by {
        let c = choose|c: nat| #[trigger] declares(or.aux, f, c);
        let j = choose|j: int|
            0 <= j < or.aux.len() && (#[trigger] or.aux[j] matches CommandModel::Relation {
                name,
                inputs,
                ..
            } && name == f && inputs.len() == c);
        if j > 0 {
            assert(or.aux[j] == rules[j - 1]);
        }
    }
    assert forall|args: Seq<Value>| #[trigger]
        in_relation(at.filled, relation, args) implies in_relation(now, relation, args) by {
        let j = choose|j: int|
            0 <= j < or.aux.len() && derives(#[trigger] or.aux[j], relation, args, at.filled);
        assert(or.aux[j] == rules[j - 1]);
        let rule = or.aux[j]->rule;
        let es = Seq::new(key.len(), |i: int| ExprModel::Var(span, key[i]));
        lemma_body_simple(done[j - 1], key, env, own, at.names);
        assert(rule.head[0]->Expr_1->Call_2 == es);
        assert(is_simple_rule(or.aux[j], own, at.names));
        lemma_derives_grows(or.aux[j], relation, args, at.filled, before, own, at.names);
        assert(at.program.contains(or.aux[j]));
        let i = choose|i: int| 0 <= i < at.program.len() && at.program[i] == or.aux[j];
        assert(derives(at.program[i], relation, args, before));
        assert(now == round(before, at.program));
    }
}

/// The generated relations are filled in as many rounds as disjunctions are nested in the
/// rule: one where none is nested in another. From then on the lowered body holds under
/// exactly the values under which the body holds.
///
/// The relations start out empty, and the rule does not call them itself.
pub proof fn law_relations_fill_in_rounds(
    rule: RuleModel,
    sorts: Map<Name, Name>,
    reserved: Name,
    queried: nat,
    n: nat,
    db: Database,
    k: nat,
)
    requires
        lowered_rule(rule, sorts, reserved, queried, n).0 is Ok,
        calls_none(
            rule.body,
            generated_names(reserved, n, lowered_rule(rule, sorts, reserved, queried, n).1),
        ),
        forall|f: Name, args: Seq<Value>|
            generated_names(
                reserved,
                n,
                lowered_rule(rule, sorts, reserved, queried, n).1,
            ).contains(f) ==> !#[trigger] in_relation(db, f, args),
        facts_depth(rule.body, rule.body.len()) <= k,
    ensures
        at_fixpoint(
            rounds(db, lowered_rule(rule, sorts, reserved, queried, n).0->Ok_0.drop_last(), k),
            lowered_rule(rule, sorts, reserved, queried, n).0->Ok_0.drop_last(),
        ),
        lowered_rule(rule, sorts, reserved, queried, n).0->Ok_0.last() matches CommandModel::Rule {
            rule: lowered,
        } && forall|s: Assignment| #[trigger]
            holds_all(
                lowered.body,
                rounds(db, lowered_rule(rule, sorts, reserved, queried, n).0->Ok_0.drop_last(), k),
                s,
                Set::empty(),
            ) <==> holds_all(rule.body, db, s, Set::empty()),
{
    let env = rule_env(rule, sorts, reserved, queried);
    let body = lowered_facts(rule.body, rule.body.len(), env, n);
    let commands = lowered_rule(rule, sorts, reserved, queried, n).0->Ok_0;
    let program = commands.drop_last();
    let names = generated_names(reserved, n, body.next);
    assert(program =~= body.aux);
    law_relations_can_be_filled(rule, sorts, reserved, queried, n, db);
    let filled = choose|filled: Database|
        {
            &&& #[trigger] same_but(db, filled, names)
            &&& at_fixpoint(filled, program)
            &&& forall|s: Assignment| #[trigger]
                holds_all(rule.body, filled, s, Set::empty()) <==> holds_all(
                    rule.body,
                    db,
                    s,
                    Set::empty(),
                )
        };
    let at = Setting { program, names, db, filled };
    let own = declared_names(program);
    let now = rounds(db, program, k);
    lemma_facts_generated(rule.body, rule.body.len(), env, n);
    assert(is_setting(at)) by {
        assert forall|j: int| 0 <= j < program.len() implies (
        target(#[trigger] program[j]) matches Some(f) && names.contains(f)) by {
            assert(target(program[j]) is Some);
        }
    }
    assert forall|f: Name| #[trigger] own.contains(f) implies names.contains(f) by {
        let c = choose|c: nat| #[trigger] declares(program, f, c);
        lemma_declares_generated(program, f, c, reserved, n, body.next);
    }
    lemma_targets_declared(rule, sorts, reserved, queried, n);
    assert(context_binds(env));
    assert(calls_none(env.context, names));
    assert(within(program, program));
    lemma_facts_simple_rules(rule.body, rule.body.len(), env, n, program, names);
    lemma_rounds_below(at, k);
    lemma_facts_reached(rule.body, rule.body.len(), env, n, at, k);
    lemma_rounds_same(at, k);
    assert forall|i: int| 0 <= i < program.len() implies (
    #[trigger] program[i] matches CommandModel::Relation { name, .. } ==> settled(
        now,
        name,
        program,
    )) by {
        if let CommandModel::Relation { name, inputs, .. } = program[i] {
            assert(declares(program, name, inputs.len()));
            assert(own.contains(name));
            assert(settled(filled, name, program));
            assert forall|args: Seq<Value>| #[trigger]
                in_relation(now, name, args) <==> exists|j: int|
                    0 <= j < program.len() && derives(#[trigger] program[j], name, args, now) by {
                assert(in_relation(now, name, args) <==> in_relation(filled, name, args));
                if in_relation(filled, name, args) {
                    let j = choose|j: int|
                        0 <= j < program.len() && derives(#[trigger] program[j], name, args, filled);
                    assert(is_simple_rule(program[j], own, names));
                    lemma_derives_grows(program[j], name, args, filled, now, own, names);
                }
                if exists|j: int|
                    0 <= j < program.len() && derives(#[trigger] program[j], name, args, now) {
                    let j = choose|j: int|
                        0 <= j < program.len() && derives(#[trigger] program[j], name, args, now);
                    assert(is_simple_rule(program[j], own, names));
                    lemma_derives_grows(program[j], name, args, now, filled, own, names);
                }
            }
        }
    }
    assert forall|s: Assignment| #[trigger]
        holds_all(body.result->Ok_0, now, s, Set::empty()) <==> holds_all(
            rule.body,
            db,
            s,
            Set::empty(),
        ) by {
        law_lowering_preserves_matches(rule, sorts, reserved, queried, n, now, s);
        lemma_facts_same(rule.body, db, now, s, Set::empty(), names);
    }
}

/// Every generated rule puts tuples into a declared relation.
proof fn lemma_targets_declared(
    rule: RuleModel,
    sorts: Map<Name, Name>,
    reserved: Name,
    queried: nat,
    n: nat,
)
    requires
        lowered_rule(rule, sorts, reserved, queried, n).0 is Ok,
        calls_none(
            rule.body,
            generated_names(reserved, n, lowered_rule(rule, sorts, reserved, queried, n).1),
        ),
    ensures
        forall|j: int|
            0 <= j < lowered_rule(rule, sorts, reserved, queried, n).0->Ok_0.drop_last().len()
                ==> (target(
                #[trigger] lowered_rule(rule, sorts, reserved, queried, n).0->Ok_0.drop_last()[j],
            ) matches Some(f) && declared_names(
                lowered_rule(rule, sorts, reserved, queried, n).0->Ok_0.drop_last(),
            ).contains(f)),
{
    let env = rule_env(rule, sorts, reserved, queried);
    let body = lowered_facts(rule.body, rule.body.len(), env, n);
    let commands = lowered_rule(rule, sorts, reserved, queried, n).0->Ok_0;
    let program = commands.drop_last();
    let names = generated_names(reserved, n, body.next);
    assert(program =~= body.aux);
    lemma_facts_generated(rule.body, rule.body.len(), env, n);
    law_relations_are_declared_before_use(rule, sorts, reserved, queried, n);
    assert forall|j: int| 0 <= j < program.len() implies (
    target(#[trigger] program[j]) matches Some(f) && declared_names(program).contains(f)) by {
        assert(target(program[j]) is Some);
        let f = target(program[j])->0;
        match program[j] {
            CommandModel::Relation { name, inputs, .. } => {
                assert(declares(program, name, inputs.len()));
            },
            CommandModel::Rule { rule: generated } => {
                let call = generated.head[0]->Expr_1;
                let c = call->Call_2.len();
                let es = action_expr_models(generated.head[0]);
                assert(es[0] == call);
                assert(expr_calls(es[0], f, c));
                assert(exprs_call(es, f, c));
                assert(command_calls(program[j], f, c));
                assert(names.contains(f));
                assert(declares(program.take(j), f, c));
                assert(program =~= program.take(j) + program.skip(j));
                lemma_declares_add(program.take(j), program.skip(j), f, c);
            },
            _ => {},
        }
    }
}

} // verus!
