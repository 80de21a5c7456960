//! The relations and rules that a lowering adds to the program.

use vstd::prelude::*;

use crate::ast::{ActionModel, CommandModel, ExprModel, FactModel, Name, Span};
use crate::lowered_vars::lemma_facts_occurrences_contains;
use crate::lowering::{
    branch_env, lowered_branches, lowered_facts, lowered_or, plain_facts, surroundings_of,
};
use crate::materialize::{branch_rules, key_of, materialized, relation_hint, Env};
use crate::scope::{all_plain, is_or};
use crate::semantics::{at_fixpoint, derives, in_relation, settled, Database, Value};
use crate::symbol_gen::{law_names_are_distinct, nth_name};
use crate::vars::{fact_occurrences, facts_occurrences};

verus! {

pub proof fn lemma_plain_facts(fs: Seq<FactModel>)
    ensures
        all_plain(plain_facts(fs)),
        forall|f: FactModel| #[trigger]
            plain_facts(fs).contains(f) <==> fs.contains(f) && !is_or(f),
{
    let p = |f: FactModel| !is_or(f);
    assert forall|i: int| 0 <= i < plain_facts(fs).len() implies !is_or(
        #[trigger] plain_facts(fs)[i],
    ) by {
        fs.lemma_filter_pred(p, i);
    }
    assert forall|f: FactModel| #[trigger] plain_facts(fs).contains(f) implies fs.contains(f)
        && !is_or(f) by {
        fs.lemma_filter_contains_rev(p, f);
        let i = choose|i: int| 0 <= i < plain_facts(fs).len() && plain_facts(fs)[i] == f;
        fs.lemma_filter_pred(p, i);
    }
    assert forall|f: FactModel| fs.contains(f) && !is_or(f) implies #[trigger] plain_facts(
        fs,
    ).contains(f) by {
        let i = choose|i: int| 0 <= i < fs.len() && fs[i] == f;
        fs.lemma_filter_contains(p, i);
    }
}

/// The surrounding facts are plain, and they bind exactly the bound variables.
pub open spec fn context_binds(env: Env) -> bool {
    &&& all_plain(env.context)
    &&& forall|v: Name|
        #![trigger env.bound.contains(v)]
        env.bound.contains(v) <==> facts_occurrences(env.context).contains(v)
}

pub proof fn lemma_context_binds(fs: Seq<FactModel>, i: int, env: Env)
    requires
        context_binds(env),
    ensures
        context_binds(surroundings_of(fs, i, env)),
{
    let inner = surroundings_of(fs, i, env);
    let extra = plain_facts(fs);
    let all = env.context + extra;
    lemma_plain_facts(fs);
    assert forall|j: int| 0 <= j < all.len() implies !is_or(#[trigger] all[j]) by {
        if j < env.context.len() {
            assert(all[j] == env.context[j]);
        } else {
            assert(all[j] == extra[j - env.context.len()]);
        }
    }
    assert forall|v: Name|
        #![trigger inner.bound.contains(v)]
        inner.bound.contains(v) <==> facts_occurrences(inner.context).contains(v) by {
        lemma_facts_occurrences_contains(env.context, v);
        lemma_facts_occurrences_contains(all, v);
        assert(env.bound.contains(v) <==> facts_occurrences(env.context).contains(v));
        if facts_occurrences(all).contains(v) {
            let j = choose|j: int| 0 <= j < all.len() && fact_occurrences(
                #[trigger] all[j],
            ).contains(v);
            if j < env.context.len() {
                assert(all[j] == env.context[j]);
            } else {
                let f = extra[j - env.context.len()];
                assert(all[j] == f);
                assert(extra.contains(f));
                let m = choose|m: int| 0 <= m < fs.len() && fs[m] == f;
                assert(!is_or(fs[m]) && fact_occurrences(fs[m]).contains(v));
            }
        }
        if env.bound.contains(v) {
            let j = choose|j: int|
                0 <= j < env.context.len() && fact_occurrences(
                    #[trigger] env.context[j],
                ).contains(v);
            assert(all[j] == env.context[j]);
        } else if inner.bound.contains(v) {
            let m = choose|m: int|
                0 <= m < fs.len() && !is_or(#[trigger] fs[m]) && fact_occurrences(fs[m]).contains(
                    v,
                );
            assert(extra.contains(fs[m]));
            let j = choose|j: int| 0 <= j < extra.len() && extra[j] == fs[m];
            assert(all[env.context.len() + j] == fs[m]);
        }
    }
}

/// A name of a relation that was handed out as one of the names from `lo` up to `hi`.
pub open spec fn is_generated(name: Name, reserved: Name, lo: nat, hi: nat) -> bool {
    exists|p: nat| lo <= p < hi && name == #[trigger] nth_name(reserved, p, relation_hint())
}

/// The relation that a generated command declares or puts tuples into.
pub open spec fn target(command: CommandModel) -> Option<Name> {
    match command {
        CommandModel::Relation { name, .. } => Some(name),
        CommandModel::Rule { rule } => if rule.head.len() == 1 {
            match rule.head[0] {
                ActionModel::Expr(_, ExprModel::Call(_, f, _)) => Some(f),
                _ => None,
            }
        } else {
            None
        },
        _ => None,
    }
}

pub open spec fn all_generated(
    commands: Seq<CommandModel>,
    reserved: Name,
    lo: nat,
    hi: nat,
) -> bool {
    forall|i: int|
        0 <= i < commands.len() ==> (target(#[trigger] commands[i]) matches Some(name)
            && is_generated(name, reserved, lo, hi))
}

pub proof fn lemma_generated_add(
    a: Seq<CommandModel>,
    b: Seq<CommandModel>,
    reserved: Name,
    lo: nat,
    mid: nat,
    hi: nat,
)
    requires
        lo <= mid <= hi,
        all_generated(a, reserved, lo, mid),
        all_generated(b, reserved, mid, hi),
    ensures
        all_generated(a + b, reserved, lo, hi),
{
    let all = a + b;
    assert forall|i: int| 0 <= i < all.len() implies (target(#[trigger] all[i]) matches Some(name)
        && is_generated(name, reserved, lo, hi)) by {
        if i < a.len() {
            assert(all[i] == a[i]);
            let name = target(a[i])->0;
            let p = choose|p: nat|
                lo <= p < mid && name == #[trigger] nth_name(reserved, p, relation_hint());
            assert(lo <= p < hi && name == nth_name(reserved, p, relation_hint()));
        } else {
            assert(all[i] == b[i - a.len()]);
            let name = target(b[i - a.len()])->0;
            let p = choose|p: nat|
                mid <= p < hi && name == #[trigger] nth_name(reserved, p, relation_hint());
            assert(lo <= p < hi && name == nth_name(reserved, p, relation_hint()));
        }
    }
}

pub proof fn lemma_materialized_generated(span: Span, bs: Seq<Seq<FactModel>>, env: Env, n: nat)
    ensures
        n <= materialized(span, bs, env, n).next,
        all_generated(
            materialized(span, bs, env, n).aux,
            env.reserved,
            n,
            materialized(span, bs, env, n).next,
        ),
{
    let outcome = materialized(span, bs, env, n);
    let name = nth_name(env.reserved, n, relation_hint());
    if outcome.result is Ok {
        assert forall|i: int| 0 <= i < outcome.aux.len() implies target(#[trigger] outcome.aux[i])
            == Some(name) by {
            if i > 0 {
                let key = key_of(bs, env.bound);
                let rules = branch_rules(span, bs, key, name, env, n + 1);
                assert(outcome.aux[i] == rules[i - 1]);
            }
        }
        assert(is_generated(name, env.reserved, n, outcome.next)) by {
            assert(n <= n < outcome.next && name == nth_name(env.reserved, n, relation_hint()));
        }
    }
}

pub proof fn lemma_facts_generated(fs: Seq<FactModel>, k: nat, env: Env, n: nat)
    ensures
        n <= lowered_facts(fs, k, env, n).next,
        all_generated(
            lowered_facts(fs, k, env, n).aux,
            env.reserved,
            n,
            lowered_facts(fs, k, env, n).next,
        ),
    decreases fs, k,
{
    if k == 0 || k > fs.len() {
    } else {
        let before = lowered_facts(fs, (k - 1) as nat, env, n);
        lemma_facts_generated(fs, (k - 1) as nat, env, n);
        if before.result is Ok {
            match fs[k - 1] {
                FactModel::Or(span, branches) => {
                    let inner = surroundings_of(fs, k - 1, env);
                    lemma_or_generated(span, branches, inner, before.next);
                    let or = lowered_or(span, branches, inner, before.next);
                    lemma_generated_add(
                        before.aux,
                        or.aux,
                        env.reserved,
                        n,
                        before.next,
                        or.next,
                    );
                },
                _ => {},
            }
        }
    }
}

pub proof fn lemma_branches_generated(
    span: Span,
    bs: Seq<Seq<FactModel>>,
    k: nat,
    env: Env,
    n: nat,
)
    ensures
        n <= lowered_branches(span, bs, k, env, n).next,
        all_generated(
            lowered_branches(span, bs, k, env, n).aux,
            env.reserved,
            n,
            lowered_branches(span, bs, k, env, n).next,
        ),
    decreases bs, k,
{
    if k == 0 || k > bs.len() {
    } else {
        let before = lowered_branches(span, bs, (k - 1) as nat, env, n);
        lemma_branches_generated(span, bs, (k - 1) as nat, env, n);
        if before.result is Ok && bs[k - 1].len() > 0 {
            let fs = bs[k - 1];
            let inner = branch_env(span, bs, k - 1, env);
            lemma_facts_generated(fs, fs.len(), inner, before.next);
            let branch = lowered_facts(fs, fs.len(), inner, before.next);
            lemma_generated_add(
                before.aux,
                branch.aux,
                env.reserved,
                n,
                before.next,
                branch.next,
            );
        }
    }
}

pub proof fn lemma_or_generated(span: Span, bs: Seq<Seq<FactModel>>, env: Env, n: nat)
    ensures
        n <= lowered_or(span, bs, env, n).next,
        all_generated(
            lowered_or(span, bs, env, n).aux,
            env.reserved,
            n,
            lowered_or(span, bs, env, n).next,
        ),
    decreases bs, bs.len() + 1,
{
    let inner = lowered_branches(span, bs, bs.len(), env, n);
    lemma_branches_generated(span, bs, bs.len(), env, n);
    if inner.result is Ok {
        let done = inner.result->Ok_0;
        lemma_materialized_generated(span, done, env, inner.next);
        let or = materialized(span, done, env, inner.next);
        lemma_generated_add(inner.aux, or.aux, env.reserved, n, inner.next, or.next);
    }
}

pub proof fn lemma_derives_target(
    command: CommandModel,
    relation: Name,
    args: Seq<Value>,
    db: Database,
)
    requires
        target(command) is Some,
        derives(command, relation, args, db),
    ensures
        target(command) == Some(relation),
{
}

/// Two programs that declare relations of their own settle independently.
pub proof fn lemma_fixpoint_split(
    db: Database,
    a: Seq<CommandModel>,
    b: Seq<CommandModel>,
    reserved: Name,
    lo: nat,
    mid: nat,
    hi: nat,
)
    requires
        all_generated(a, reserved, lo, mid),
        all_generated(b, reserved, mid, hi),
        at_fixpoint(db, a + b),
    ensures
        at_fixpoint(db, a),
        at_fixpoint(db, b),
{
    let all = a + b;
    assert forall|i: int| 0 <= i < a.len() implies (
    #[trigger] a[i] matches CommandModel::Relation { name, .. } ==> settled(db, name, a)) by {
        assert(all[i] == a[i]);
        if let CommandModel::Relation { name, .. } = a[i] {
            assert forall|args: Seq<Value>| #[trigger]
                in_relation(db, name, args) <==> exists|j: int|
                    0 <= j < a.len() && derives(#[trigger] a[j], name, args, db) by {
                assert(settled(db, name, all));
                if in_relation(db, name, args) {
                    let j = choose|j: int|
                        0 <= j < all.len() && derives(#[trigger] all[j], name, args, db);
                    if j < a.len() {
                        assert(all[j] == a[j]);
                    } else {
                        assert(all[j] == b[j - a.len()]);
                        assert(target(b[j - a.len()]) is Some);
                        lemma_derives_target(all[j], name, args, db);
                        lemma_ranges_disjoint(name, reserved, lo, mid, hi);
                    }
                }
                if exists|j: int| 0 <= j < a.len() && derives(#[trigger] a[j], name, args, db) {
                    let j = choose|j: int|
                        0 <= j < a.len() && derives(#[trigger] a[j], name, args, db);
                    assert(all[j] == a[j]);
                }
            }
        }
    }
    assert forall|i: int| 0 <= i < b.len() implies (
    #[trigger] b[i] matches CommandModel::Relation { name, .. } ==> settled(db, name, b)) by {
        assert(all[a.len() + i] == b[i]);
        if let CommandModel::Relation { name, .. } = b[i] {
            assert forall|args: Seq<Value>| #[trigger]
                in_relation(db, name, args) <==> exists|j: int|
                    0 <= j < b.len() && derives(#[trigger] b[j], name, args, db) by {
                assert(settled(db, name, all));
                if in_relation(db, name, args) {
                    let j = choose|j: int|
                        0 <= j < all.len() && derives(#[trigger] all[j], name, args, db);
                    if j < a.len() {
                        assert(all[j] == a[j]);
                        assert(target(a[j]) is Some);
                        lemma_derives_target(all[j], name, args, db);
                        lemma_ranges_disjoint(name, reserved, lo, mid, hi);
                    } else {
                        assert(all[j] == b[j - a.len()]);
                    }
                }
                if exists|j: int| 0 <= j < b.len() && derives(#[trigger] b[j], name, args, db) {
                    let j = choose|j: int|
                        0 <= j < b.len() && derives(#[trigger] b[j], name, args, db);
                    assert(all[a.len() + j] == b[j]);
                }
            }
        }
    }
}

pub proof fn lemma_ranges_disjoint(name: Name, reserved: Name, lo: nat, mid: nat, hi: nat)
    ensures
        !(is_generated(name, reserved, lo, mid) && is_generated(name, reserved, mid, hi)),
{
    if is_generated(name, reserved, lo, mid) && is_generated(name, reserved, mid, hi) {
        let p = choose|p: nat|
            lo <= p < mid && name == #[trigger] nth_name(reserved, p, relation_hint());
        let q = choose|q: nat|
            mid <= q < hi && name == #[trigger] nth_name(reserved, q, relation_hint());
        law_names_are_distinct(reserved, p, relation_hint(), q, relation_hint());
    }
}

} // verus!
