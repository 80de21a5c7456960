//! The generated relations can always be filled.

use vstd::prelude::*;

use crate::ast::{CommandModel, ExprModel, FactModel, Name, RuleModel, Span};
use crate::calls::{
    command_calls, declared_before_use, declares, expr_calls, exprs_call, fact_calls, facts_call,
    lemma_branches_calls, lemma_facts_call_add, lemma_facts_call_push, lemma_facts_calls,
    lemma_or_calls, lemma_plain_calls,
};
use crate::commands::{lowered_rule, rule_env};
use crate::generated::{
    all_generated, is_generated, lemma_branches_generated, lemma_derives_target,
    lemma_facts_generated, lemma_materialized_generated, lemma_or_generated, lemma_ranges_disjoint,
    target,
};
use crate::laws::{lemma_eval_key, values_of};
use crate::lowered_vars::lemma_key_not_global;
use crate::lowering::{
    branch_env, lowered_branches, lowered_facts, lowered_or, plain_facts, surroundings_of,
};
use crate::materialize::{
    branch_body, branch_rules, key_of, materialized, relation_decl, relation_hint, Env,
};
use crate::scope::{scope, visible_vars};
use crate::semantics::{
    agree, at_fixpoint, derives, eval, eval_all, holds, holds_all, in_relation, puts, settled,
    Assignment, Database, Value,
};
use crate::symbol_gen::nth_name;
use crate::vars::action_expr_models;

verus! {

/// Two databases differ at most in the rows of the named functions and relations.
pub open spec fn same_but(a: Database, b: Database, names: Set<Name>) -> bool {
    &&& a.literal == b.literal
    &&& a.global == b.global
    &&& forall|f: Name, args: Seq<Value>|
        !names.contains(f) ==> #[trigger] (a.call)(f, args) == (b.call)(f, args)
}

/// The names of the relations that were handed out as one of the names from `lo` up to
/// `hi`.
pub open spec fn generated_names(reserved: Name, lo: nat, hi: nat) -> Set<Name> {
    Set::new(|name: Name| is_generated(name, reserved, lo, hi))
}

/// Whether a conjunction calls none of the named functions and relations.
pub open spec fn calls_none(fs: Seq<FactModel>, names: Set<Name>) -> bool {
    forall|f: Name, k: nat| #[trigger] facts_call(fs, f, k) ==> !names.contains(f)
}

proof fn lemma_eval_same(e: ExprModel, a: Database, b: Database, s: Assignment, names: Set<Name>)
    requires
        same_but(a, b, names),
        forall|f: Name, k: nat| #[trigger] expr_calls(e, f, k) ==> !names.contains(f),
    ensures
        eval(e, a, s) == eval(e, b, s),
    decreases e,
{
    match e {
        ExprModel::Call(_, f, args) => {
            assert forall|g: Name, k: nat| #[trigger] exprs_call(args, g, k) implies !names.contains(
                g,
            ) by {
                assert(expr_calls(e, g, k));
            }
            lemma_eval_all_same(args, a, b, s, names);
            assert(expr_calls(e, f, args.len()));
            assert(!names.contains(f));
        },
        _ => {},
    }
}

pub proof fn lemma_eval_all_same(
    es: Seq<ExprModel>,
    a: Database,
    b: Database,
    s: Assignment,
    names: Set<Name>,
)
    requires
        same_but(a, b, names),
        forall|f: Name, k: nat| #[trigger] exprs_call(es, f, k) ==> !names.contains(f),
    ensures
        eval_all(es, a, s) == eval_all(es, b, s),
    decreases es,
{
    if es.len() > 0 {
        let front = es.drop_last();
        assert forall|f: Name, k: nat| #[trigger] exprs_call(front, f, k) implies !names.contains(
            f,
        ) by {
            let i = choose|i: int| 0 <= i < front.len() && expr_calls(#[trigger] front[i], f, k);
            assert(es[i] == front[i]);
            assert(exprs_call(es, f, k));
        }
        assert forall|f: Name, k: nat| #[trigger]
            expr_calls(es.last(), f, k) implies !names.contains(f) by {
            assert(expr_calls(es[es.len() - 1], f, k));
            assert(exprs_call(es, f, k));
        }
        lemma_eval_all_same(front, a, b, s, names);
        lemma_eval_same(es.last(), a, b, s, names);
    }
}

pub proof fn lemma_fact_same(
    fact: FactModel,
    a: Database,
    b: Database,
    s: Assignment,
    bound: Set<Name>,
    names: Set<Name>,
)
    requires
        same_but(a, b, names),
        forall|f: Name, k: nat| #[trigger] fact_calls(fact, f, k) ==> !names.contains(f),
    ensures
        holds(fact, a, s, bound) == holds(fact, b, s, bound),
    decreases fact,
{
    match fact {
        FactModel::Eq(_, e1, e2) => {
            assert forall|f: Name, k: nat|
                #![trigger expr_calls(e1, f, k)]
                #![trigger expr_calls(e2, f, k)]
                expr_calls(e1, f, k) || expr_calls(e2, f, k) implies !names.contains(f) by {
                assert(fact_calls(fact, f, k));
            }
            lemma_eval_same(e1, a, b, s, names);
            lemma_eval_same(e2, a, b, s, names);
        },
        FactModel::Fact(e) => {
            assert forall|f: Name, k: nat| #[trigger] expr_calls(e, f, k) implies !names.contains(
                f,
            ) by {
                assert(fact_calls(fact, f, k));
            }
            lemma_eval_same(e, a, b, s, names);
        },
        FactModel::Or(span, branches) => {
            assert forall|i: int, t: Assignment|
                #![trigger holds_all(branches[i], a, t, bound)]
                #![trigger holds_all(branches[i], b, t, bound)]
                0 <= i < branches.len() implies holds_all(branches[i], a, t, bound) == holds_all(
                branches[i],
                b,
                t,
                bound,
            ) by {
                assert forall|f: Name, k: nat| #[trigger]
                    facts_call(branches[i], f, k) implies !names.contains(f) by {
                    lemma_or_calls(span, branches, i, f, k);
                    assert(fact_calls(fact, f, k));
                }
                lemma_facts_same(branches[i], a, b, t, bound, names);
            }
            let seen = visible_vars(fact, bound);
            if holds(fact, a, s, bound) {
                let (i, t) = choose|i: int, t: Assignment|
                    0 <= i < branches.len() && #[trigger] agree(s, t, seen) && holds_all(
                        #[trigger] branches[i],
                        a,
                        t,
                        bound,
                    );
                assert(holds_all(branches[i], b, t, bound));
                assert(agree(s, t, seen));
            }
            if holds(fact, b, s, bound) {
                let (i, t) = choose|i: int, t: Assignment|
                    0 <= i < branches.len() && #[trigger] agree(s, t, seen) && holds_all(
                        #[trigger] branches[i],
                        b,
                        t,
                        bound,
                    );
                assert(holds_all(branches[i], a, t, bound));
                assert(agree(s, t, seen));
            }
        },
    }
}

/// Facts read only the rows of what they call.
pub proof fn lemma_facts_same(
    fs: Seq<FactModel>,
    a: Database,
    b: Database,
    s: Assignment,
    bound: Set<Name>,
    names: Set<Name>,
)
    requires
        same_but(a, b, names),
        calls_none(fs, names),
    ensures
        holds_all(fs, a, s, bound) == holds_all(fs, b, s, bound),
    decreases fs,
{
    let inner = scope(bound, fs);
    assert forall|i: int| 0 <= i < fs.len() implies holds(#[trigger] fs[i], a, s, inner) == holds(
        fs[i],
        b,
        s,
        inner,
    ) by {
        assert forall|f: Name, k: nat| #[trigger] fact_calls(fs[i], f, k) implies !names.contains(
            f,
        ) by {
            assert(facts_call(fs, f, k));
        }
        lemma_fact_same(fs[i], a, b, s, inner, names);
    }
}

/// Whether a command calls none of the named functions and relations.
pub open spec fn command_calls_none(command: CommandModel, names: Set<Name>) -> bool {
    forall|f: Name, k: nat| #[trigger] command_calls(command, f, k) ==> !names.contains(f)
}

proof fn lemma_derives_same(
    command: CommandModel,
    relation: Name,
    args: Seq<Value>,
    a: Database,
    b: Database,
    names: Set<Name>,
)
    requires
        same_but(a, b, names),
        command_calls_none(command, names),
        derives(command, relation, args, a),
    ensures
        derives(command, relation, args, b),
{
    let rule = command->rule;
    let (s, j) = choose|s: Assignment, j: int|
        0 <= j < rule.head.len() && puts(#[trigger] rule.head[j], relation, args, a, s)
            && #[trigger] holds_all(rule.body, a, s, Set::empty());
    assert forall|f: Name, k: nat| #[trigger] facts_call(rule.body, f, k) implies !names.contains(
        f,
    ) by {
        assert(command_calls(command, f, k));
    }
    lemma_facts_same(rule.body, a, b, s, Set::empty(), names);
    let call = rule.head[j]->Expr_1;
    let es = call->Call_2;
    assert forall|f: Name, k: nat| #[trigger] exprs_call(es, f, k) implies !names.contains(f) by {
        let all = action_expr_models(rule.head[j]);
        assert(all[0] == call);
        assert(expr_calls(all[0], f, k));
        assert(exprs_call(all, f, k));
        assert(command_calls(command, f, k));
    }
    lemma_eval_all_same(es, a, b, s, names);
    assert(puts(rule.head[j], relation, args, b, s));
}

/// A program stays at its fixpoint while only rows change that it neither declares nor
/// reads.
proof fn lemma_fixpoint_same(
    program: Seq<CommandModel>,
    a: Database,
    b: Database,
    names: Set<Name>,
)
    requires
        same_but(a, b, names),
        at_fixpoint(a, program),
        forall|i: int| 0 <= i < program.len() ==> command_calls_none(#[trigger] program[i], names),
        forall|i: int|
            0 <= i < program.len() ==> (#[trigger] program[i] matches CommandModel::Relation {
                name,
                ..
            } ==> !names.contains(name)),
    ensures
        at_fixpoint(b, program),
{
    assert(same_but(b, a, names)) by {
        assert forall|f: Name, args: Seq<Value>| !names.contains(f) implies #[trigger] (b.call)(
            f,
            args,
        ) == (a.call)(f, args) by {
            assert((a.call)(f, args) == (b.call)(f, args));
        }
    }
    assert forall|i: int| 0 <= i < program.len() implies (
    #[trigger] program[i] matches CommandModel::Relation { name, .. } ==> settled(
        b,
        name,
        program,
    )) by {
        if let CommandModel::Relation { name, .. } = program[i] {
            assert(settled(a, name, program));
            assert forall|args: Seq<Value>| #[trigger]
                in_relation(b, name, args) <==> exists|j: int|
                    0 <= j < program.len() && derives(#[trigger] program[j], name, args, b) by {
                assert((a.call)(name, args) == (b.call)(name, args));
                assert(in_relation(a, name, args) == in_relation(b, name, args));
                if in_relation(a, name, args) {
                    let j = choose|j: int|
                        0 <= j < program.len() && derives(#[trigger] program[j], name, args, a);
                    lemma_derives_same(program[j], name, args, a, b, names);
                }
                if exists|j: int|
                    0 <= j < program.len() && derives(#[trigger] program[j], name, args, b) {
                    let j = choose|j: int|
                        0 <= j < program.len() && derives(#[trigger] program[j], name, args, b);
                    lemma_derives_same(program[j], name, args, b, a, names);
                }
            }
        }
    }
}

/// Two programs that declare relations of their own settle together.
proof fn lemma_fixpoint_join(
    db: Database,
    a: Seq<CommandModel>,
    b: Seq<CommandModel>,
    reserved: Name,
    lo: nat,
    mid: nat,
    hi: nat,
)
    requires
        all_generated(a, reserved, lo, mid),
        all_generated(b, reserved, mid, hi),
        at_fixpoint(db, a),
        at_fixpoint(db, b),
    ensures
        at_fixpoint(db, a + b),
{
    let all = a + b;
    assert forall|i: int| 0 <= i < all.len() implies (
    #[trigger] all[i] matches CommandModel::Relation { name, .. } ==> settled(db, name, all)) by {
        if let CommandModel::Relation { name, .. } = all[i] {
            assert forall|args: Seq<Value>| #[trigger]
                in_relation(db, name, args) <==> exists|j: int|
                    0 <= j < all.len() && derives(#[trigger] all[j], name, args, db) by {
                if i < a.len() {
                    assert(all[i] == a[i]);
                    assert(settled(db, name, a));
                    if in_relation(db, name, args) {
                        let j = choose|j: int|
                            0 <= j < a.len() && derives(#[trigger] a[j], name, args, db);
                        assert(all[j] == a[j]);
                    }
                    if exists|j: int|
                        0 <= j < all.len() && derives(#[trigger] all[j], name, args, db) {
                        let j = choose|j: int|
                            0 <= j < all.len() && derives(#[trigger] all[j], name, args, db);
                        if j < a.len() {
                            assert(all[j] == a[j]);
                        } else {
                            assert(all[j] == b[j - a.len()]);
                            assert(target(b[j - a.len()]) is Some);
                            lemma_derives_target(all[j], name, args, db);
                            lemma_ranges_disjoint(name, reserved, lo, mid, hi);
                        }
                    }
                } else {
                    assert(all[i] == b[i - a.len()]);
                    assert(settled(db, name, b));
                    if in_relation(db, name, args) {
                        let j = choose|j: int|
                            0 <= j < b.len() && derives(#[trigger] b[j], name, args, db);
                        assert(all[a.len() + j] == b[j]);
                    }
                    if exists|j: int|
                        0 <= j < all.len() && derives(#[trigger] all[j], name, args, db) {
                        let j = choose|j: int|
                            0 <= j < all.len() && derives(#[trigger] all[j], name, args, db);
                        if j < a.len() {
                            assert(all[j] == a[j]);
                            assert(target(a[j]) is Some);
                            lemma_derives_target(all[j], name, args, db);
                            lemma_ranges_disjoint(name, reserved, lo, mid, hi);
                        } else {
                            assert(all[j] == b[j - a.len()]);
                        }
                    }
                }
            }
        }
    }
}

proof fn lemma_generated_names(reserved: Name, lo: nat, mid: nat, hi: nat)
    requires
        lo <= mid <= hi,
    ensures
        forall|f: Name| #[trigger]
            generated_names(reserved, lo, hi).contains(f) <==> generated_names(
                reserved,
                lo,
                mid,
            ).contains(f) || generated_names(reserved, mid, hi).contains(f),
        forall|f: Name|
            !(#[trigger] generated_names(reserved, lo, mid).contains(f) && generated_names(
                reserved,
                mid,
                hi,
            ).contains(f)),
{
    assert forall|f: Name| #[trigger]
        generated_names(reserved, lo, hi).contains(f) <==> generated_names(
            reserved,
            lo,
            mid,
        ).contains(f) || generated_names(reserved, mid, hi).contains(f) by {
        if is_generated(f, reserved, lo, hi) {
            let p = choose|p: nat|
                lo <= p < hi && f == #[trigger] nth_name(reserved, p, relation_hint());
            assert(f == nth_name(reserved, p, relation_hint()));
        }
        if is_generated(f, reserved, lo, mid) {
            let p = choose|p: nat|
                lo <= p < mid && f == #[trigger] nth_name(reserved, p, relation_hint());
            assert(f == nth_name(reserved, p, relation_hint()));
        }
        if is_generated(f, reserved, mid, hi) {
            let p = choose|p: nat|
                mid <= p < hi && f == #[trigger] nth_name(reserved, p, relation_hint());
            assert(f == nth_name(reserved, p, relation_hint()));
        }
    }
    assert forall|f: Name|
        !(#[trigger] generated_names(reserved, lo, mid).contains(f) && generated_names(
            reserved,
            mid,
            hi,
        ).contains(f)) by {
        lemma_ranges_disjoint(f, reserved, lo, mid, hi);
    }
}

proof fn lemma_same_trans(
    a: Database,
    b: Database,
    c: Database,
    reserved: Name,
    lo: nat,
    mid: nat,
    hi: nat,
)
    requires
        lo <= mid <= hi,
        same_but(a, b, generated_names(reserved, lo, mid)),
        same_but(b, c, generated_names(reserved, mid, hi)),
    ensures
        same_but(a, c, generated_names(reserved, lo, hi)),
{
    lemma_generated_names(reserved, lo, mid, hi);
    assert forall|f: Name, args: Seq<Value>|
        !generated_names(reserved, lo, hi).contains(f) implies #[trigger] (a.call)(f, args)
        == (c.call)(f, args) by {
        assert((a.call)(f, args) == (b.call)(f, args));
        assert((b.call)(f, args) == (c.call)(f, args));
    }
}

/// What a program declares is not called by what came before it.
proof fn lemma_independent(
    program: Seq<CommandModel>,
    given: Seq<FactModel>,
    a: Database,
    b: Database,
    reserved: Name,
    lo: nat,
    mid: nat,
    hi: nat,
)
    requires
        lo <= mid <= hi,
        declared_before_use(program, given),
        all_generated(program, reserved, lo, mid),
        calls_none(given, generated_names(reserved, mid, hi)),
        same_but(a, b, generated_names(reserved, mid, hi)),
        at_fixpoint(a, program),
    ensures
        at_fixpoint(b, program),
{
    let names = generated_names(reserved, mid, hi);
    lemma_generated_names(reserved, lo, mid, hi);
    assert forall|i: int| 0 <= i < program.len() implies command_calls_none(
        #[trigger] program[i],
        names,
    ) by {
        assert forall|f: Name, k: nat| #[trigger]
            command_calls(program[i], f, k) implies !names.contains(f) by {
            if !facts_call(given, f, k) {
                lemma_declares_generated(program.take(i), f, k, reserved, lo, mid);
                assert(generated_names(reserved, lo, mid).contains(f));
            }
        }
    }
    assert forall|i: int| 0 <= i < program.len() implies (
    #[trigger] program[i] matches CommandModel::Relation { name, .. } ==> !names.contains(
        name,
    )) by {
        if let CommandModel::Relation { name, .. } = program[i] {
            assert(target(program[i]) == Some(name));
            assert(generated_names(reserved, lo, mid).contains(name));
        }
    }
    lemma_fixpoint_same(program, a, b, names);
}

pub proof fn lemma_declares_generated(
    program: Seq<CommandModel>,
    f: Name,
    k: nat,
    reserved: Name,
    lo: nat,
    hi: nat,
)
    requires
        declares(program, f, k),
        all_generated(program, reserved, lo, hi),
    ensures
        is_generated(f, reserved, lo, hi),
{
    let j = choose|j: int|
        0 <= j < program.len() && (#[trigger] program[j] matches CommandModel::Relation {
            name,
            inputs,
            ..
        } && name == f && inputs.len() == k);
    assert(target(program[j]) == Some(f));
}

/// A database in which the relations of a lowered conjunction have been filled.
proof fn fill_facts(fs: Seq<FactModel>, m: nat, env: Env, n: nat, db: Database) -> (filled: Database)
    requires
        m <= fs.len(),
        lowered_facts(fs, m, env, n).result is Ok,
        calls_none(
            env.context + fs,
            generated_names(env.reserved, n, lowered_facts(fs, m, env, n).next),
        ),
    ensures
        same_but(
            db,
            filled,
            generated_names(env.reserved, n, lowered_facts(fs, m, env, n).next),
        ),
        at_fixpoint(filled, lowered_facts(fs, m, env, n).aux),
    decreases fs, m,
{
    let given = env.context + fs;
    if m == 0 {
        db
    } else {
        let before = lowered_facts(fs, (m - 1) as nat, env, n);
        let next = lowered_facts(fs, m, env, n).next;
        lemma_facts_generated(fs, (m - 1) as nat, env, n);
        lemma_facts_generated(fs, m, env, n);
        match fs[m - 1] {
            FactModel::Or(span, branches) => {
                let inner = surroundings_of(fs, m - 1, env);
                let or = lowered_or(span, branches, inner, before.next);
                lemma_or_generated(span, branches, inner, before.next);
                lemma_generated_names(env.reserved, n, before.next, next);
                let first = fill_facts(fs, (m - 1) as nat, env, n, db);
                assert forall|f: Name, k: nat| #[trigger]
                    facts_call(inner.context.push(fs[m - 1]), f, k) implies !generated_names(
                    env.reserved,
                    before.next,
                    next,
                ).contains(f) by {
                    lemma_facts_call_push(inner.context, fs[m - 1], f, k);
                    lemma_facts_call_add(env.context, plain_facts(fs), f, k);
                    lemma_facts_call_add(env.context, fs, f, k);
                    lemma_plain_calls(fs, f, k);
                    if fact_calls(fs[m - 1], f, k) {
                        assert(facts_call(fs, f, k));
                    }
                    assert(facts_call(given, f, k));
                }
                let filled = fill_or(span, branches, inner, before.next, first);
                lemma_facts_calls(fs, (m - 1) as nat, env, n);
                assert(calls_none(given, generated_names(env.reserved, before.next, next)));
                lemma_independent(
                    before.aux,
                    given,
                    first,
                    filled,
                    env.reserved,
                    n,
                    before.next,
                    next,
                );
                lemma_fixpoint_join(
                    filled,
                    before.aux,
                    or.aux,
                    env.reserved,
                    n,
                    before.next,
                    next,
                );
                lemma_same_trans(db, first, filled, env.reserved, n, before.next, next);
                filled
            },
            _ => fill_facts(fs, (m - 1) as nat, env, n, db),
        }
    }
}

/// A database in which the relations of some lowered branches have been filled.
proof fn fill_branches(
    span: Span,
    bs: Seq<Seq<FactModel>>,
    m: nat,
    env: Env,
    n: nat,
    db: Database,
) -> (filled: Database)
    requires
        m <= bs.len(),
        lowered_branches(span, bs, m, env, n).result is Ok,
        calls_none(
            env.context.push(FactModel::Or(span, bs)),
            generated_names(env.reserved, n, lowered_branches(span, bs, m, env, n).next),
        ),
    ensures
        same_but(
            db,
            filled,
            generated_names(env.reserved, n, lowered_branches(span, bs, m, env, n).next),
        ),
        at_fixpoint(filled, lowered_branches(span, bs, m, env, n).aux),
    decreases bs, m,
{
    let fact = FactModel::Or(span, bs);
    let given = env.context.push(fact);
    if m == 0 {
        db
    } else {
        let before = lowered_branches(span, bs, (m - 1) as nat, env, n);
        let next = lowered_branches(span, bs, m, env, n).next;
        let fs = bs[m - 1];
        let inner = branch_env(span, bs, m - 1, env);
        let branch = lowered_facts(fs, fs.len(), inner, before.next);
        lemma_branches_generated(span, bs, (m - 1) as nat, env, n);
        lemma_facts_generated(fs, fs.len(), inner, before.next);
        lemma_generated_names(env.reserved, n, before.next, next);
        let first = fill_branches(span, bs, (m - 1) as nat, env, n, db);
        assert forall|f: Name, k: nat| #[trigger]
            facts_call(inner.context + fs, f, k) implies !generated_names(
            env.reserved,
            before.next,
            next,
        ).contains(f) by {
            lemma_facts_call_add(env.context, fs, f, k);
            lemma_facts_call_push(env.context, fact, f, k);
            if facts_call(fs, f, k) {
                lemma_or_calls(span, bs, m - 1, f, k);
            }
            assert(facts_call(given, f, k));
        }
        let filled = fill_facts(fs, fs.len(), inner, before.next, first);
        lemma_branches_calls(span, bs, (m - 1) as nat, env, n);
        assert(calls_none(given, generated_names(env.reserved, before.next, next)));
        lemma_independent(
            before.aux,
            given,
            first,
            filled,
            env.reserved,
            n,
            before.next,
            next,
        );
        lemma_fixpoint_join(filled, before.aux, branch.aux, env.reserved, n, before.next, next);
        lemma_same_trans(db, first, filled, env.reserved, n, before.next, next);
        filled
    }
}

/// Whether a branch of a disjunction puts a tuple into the disjunction's relation.
pub open spec fn branch_puts(
    done: Seq<Seq<FactModel>>,
    key: Seq<Name>,
    bound: Set<Name>,
    context: Seq<FactModel>,
    db: Database,
    args: Seq<Value>,
) -> bool {
    exists|i: int, t: Assignment|
        0 <= i < done.len() && args == values_of(key, t) && #[trigger] holds_all(
            branch_body(#[trigger] done[i], key, bound, context),
            db,
            t,
            Set::empty(),
        )
}

/// A database in which the relations of a lowered disjunction have been filled.
proof fn fill_or(span: Span, bs: Seq<Seq<FactModel>>, env: Env, n: nat, db: Database) -> (filled:
    Database)
    requires
        lowered_or(span, bs, env, n).result is Ok,
        calls_none(
            env.context.push(FactModel::Or(span, bs)),
            generated_names(env.reserved, n, lowered_or(span, bs, env, n).next),
        ),
    ensures
        same_but(
            db,
            filled,
            generated_names(env.reserved, n, lowered_or(span, bs, env, n).next),
        ),
        at_fixpoint(filled, lowered_or(span, bs, env, n).aux),
    decreases bs, bs.len() + 1,
{
    let fact = FactModel::Or(span, bs);
    let given = env.context.push(fact);
    let inner = lowered_branches(span, bs, bs.len(), env, n);
    let done = inner.result->Ok_0;
    let or = materialized(span, done, env, inner.next);
    let key = key_of(done, env.bound);
    let relation = nth_name(env.reserved, inner.next, relation_hint());
    let names = generated_names(env.reserved, inner.next, or.next);
    lemma_branches_generated(span, bs, bs.len(), env, n);
    lemma_materialized_generated(span, done, env, inner.next);
    lemma_generated_names(env.reserved, n, inner.next, or.next);
    let first = fill_branches(span, bs, bs.len(), env, n, db);
    let call = |f: Name, args: Seq<Value>|
        if f == relation {
            if branch_puts(done, key, env.bound, env.context, first, args) {
                Some(0int)
            } else {
                None
            }
        } else {
            (first.call)(f, args)
        };
    let filled = Database { call, ..first };
    assert(is_generated(relation, env.reserved, inner.next, or.next));
    assert(same_but(first, filled, names)) by {
        assert forall|f: Name, args: Seq<Value>| !names.contains(f) implies #[trigger] (first.call)(
            f,
            args,
        ) == (filled.call)(f, args) by {
            assert(names.contains(relation));
        }
    }
    lemma_branches_calls(span, bs, bs.len(), env, n);
    assert(calls_none(given, names));
    lemma_independent(
        inner.aux,
        given,
        first,
        filled,
        env.reserved,
        n,
        inner.next,
        or.next,
    );
    assert forall|i: int| 0 <= i < done.len() implies calls_none(
        branch_body(#[trigger] done[i], key, env.bound, env.context),
        names,
    ) by {
        let body = branch_body(done[i], key, env.bound, env.context);
        assert forall|f: Name, k: nat| #[trigger] facts_call(body, f, k) implies !names.contains(
            f,
        ) by {
            lemma_facts_call_add(env.context, done[i], f, k);
            lemma_facts_call_push(env.context, fact, f, k);
            if facts_call(env.context, f, k) || fact_calls(fact, f, k) {
                assert(facts_call(given, f, k));
            } else {
                assert(facts_call(done[i], f, k));
                lemma_declares_generated(inner.aux, f, k, env.reserved, n, inner.next);
                assert(generated_names(env.reserved, n, inner.next).contains(f));
            }
        }
    }
    lemma_filled_relation(span, done, env, inner.next, first, filled);
    lemma_fixpoint_join(filled, inner.aux, or.aux, env.reserved, n, inner.next, or.next);
    lemma_same_trans(db, first, filled, env.reserved, n, inner.next, or.next);
    filled
}

/// The relation of one disjunction settles once it holds what its branches put into it.
proof fn lemma_filled_relation(
    span: Span,
    done: Seq<Seq<FactModel>>,
    env: Env,
    n: nat,
    first: Database,
    filled: Database,
)
    requires
        materialized(span, done, env, n).result is Ok,
        same_but(
            first,
            filled,
            generated_names(env.reserved, n, materialized(span, done, env, n).next),
        ),
        forall|i: int|
            0 <= i < done.len() ==> calls_none(
                branch_body(#[trigger] done[i], key_of(done, env.bound), env.bound, env.context),
                generated_names(env.reserved, n, materialized(span, done, env, n).next),
            ),
        forall|args: Seq<Value>| #[trigger]
            in_relation(filled, nth_name(env.reserved, n, relation_hint()), args) <==> branch_puts(
                done,
                key_of(done, env.bound),
                env.bound,
                env.context,
                first,
                args,
            ),
    ensures
        at_fixpoint(filled, materialized(span, done, env, n).aux),
{
    let or = materialized(span, done, env, n);
    let key = key_of(done, env.bound);
    let relation = nth_name(env.reserved, n, relation_hint());
    let names = generated_names(env.reserved, n, or.next);
    let decl = relation_decl(span, key, relation, env.sorts, env.renaming);
    let rules = branch_rules(span, done, key, relation, env, n + 1);
    let aux = seq![decl] + rules;
    lemma_key_not_global(done, env.bound);
    assert forall|args: Seq<Value>| #[trigger]
        in_relation(filled, relation, args) <==> exists|j: int|
            0 <= j < aux.len() && derives(#[trigger] aux[j], relation, args, filled) by {
        if in_relation(filled, relation, args) {
            let (i, t) = choose|i: int, t: Assignment|
                0 <= i < done.len() && args == values_of(key, t) && #[trigger] holds_all(
                    branch_body(#[trigger] done[i], key, env.bound, env.context),
                    first,
                    t,
                    Set::empty(),
                );
            let body = branch_body(done[i], key, env.bound, env.context);
            lemma_facts_same(body, first, filled, t, Set::empty(), names);
            assert(aux[i + 1] == rules[i]);
            let rule = aux[i + 1]->rule;
            lemma_eval_key(span, key, filled, t);
            assert(rule.body == body);
            assert(puts(rule.head[0], relation, args, filled, t));
            assert(holds_all(rule.body, filled, t, Set::empty()));
            assert(derives(aux[i + 1], relation, args, filled));
        }
        if exists|j: int| 0 <= j < aux.len() && derives(#[trigger] aux[j], relation, args, filled) {
            let j = choose|j: int|
                0 <= j < aux.len() && derives(#[trigger] aux[j], relation, args, filled);
            let i = j - 1;
            assert(aux[j] == rules[i]);
            let rule = aux[j]->rule;
            let (t, k) = choose|t: Assignment, k: int|
                0 <= k < rule.head.len() && puts(#[trigger] rule.head[k], relation, args, filled, t)
                    && #[trigger] holds_all(rule.body, filled, t, Set::empty());
            assert(k == 0);
            lemma_eval_key(span, key, filled, t);
            let body = branch_body(done[i], key, env.bound, env.context);
            assert(rule.body == body);
            lemma_facts_same(body, first, filled, t, Set::empty(), names);
            assert(holds_all(branch_body(done[i], key, env.bound, env.context), first, t, Set::empty()));
            assert(branch_puts(done, key, env.bound, env.context, first, args));
        }
    }
    assert forall|i: int| 0 <= i < aux.len() implies (
    #[trigger] aux[i] matches CommandModel::Relation { name, .. } ==> settled(
        filled,
        name,
        aux,
    )) by {
        if i > 0 {
            assert(aux[i] == rules[i - 1]);
        }
    }
}

/// The generated rules can always be run to a fixpoint: every database can be extended by
/// rows of the generated relations so that they hold exactly what the generated rules put
/// into them. Nothing else changes, so the rule still matches what it matched.
///
/// The rule must not call a generated relation itself.
pub proof fn law_relations_can_be_filled(
    rule: RuleModel,
    sorts: Map<Name, Name>,
    reserved: Name,
    queried: nat,
    n: nat,
    db: Database,
)
    requires
        lowered_rule(rule, sorts, reserved, queried, n).0 is Ok,
        calls_none(
            rule.body,
            generated_names(reserved, n, lowered_rule(rule, sorts, reserved, queried, n).1),
        ),
    ensures
        exists|filled: Database|
            {
                &&& #[trigger] same_but(
                    db,
                    filled,
                    generated_names(reserved, n, lowered_rule(rule, sorts, reserved, queried, n).1),
                )
                &&& at_fixpoint(
                    filled,
                    lowered_rule(rule, sorts, reserved, queried, n).0->Ok_0.drop_last(),
                )
                &&& forall|s: Assignment| #[trigger]
                    holds_all(rule.body, filled, s, Set::empty()) <==> holds_all(
                        rule.body,
                        db,
                        s,
                        Set::empty(),
                    )
            },
{
    let env = rule_env(rule, sorts, reserved, queried);
    let body = lowered_facts(rule.body, rule.body.len(), env, n);
    let commands = lowered_rule(rule, sorts, reserved, queried, n).0->Ok_0;
    let names = generated_names(reserved, n, body.next);
    assert(commands.drop_last() =~= body.aux);
    assert(env.context + rule.body =~= rule.body);
    let filled = fill_facts(rule.body, rule.body.len(), env, n, db);
    assert forall|s: Assignment| #[trigger]
        holds_all(rule.body, filled, s, Set::empty()) <==> holds_all(
            rule.body,
            db,
            s,
            Set::empty(),
        ) by {
        lemma_facts_same(rule.body, db, filled, s, Set::empty(), names);
    }
    assert(same_but(db, filled, names));
}

} // verus!
