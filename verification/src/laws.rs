//! What the lowering promises of whole rules.

use vstd::prelude::*;

use crate::ast::{CommandModel, ExprModel, FactModel, Name, RuleModel, Span};
use crate::commands::{lowered_rule, rule_env};
use crate::flatten::local_vars;
use crate::generated::{
    context_binds, lemma_branches_generated, lemma_context_binds, lemma_facts_generated,
    lemma_fixpoint_split, lemma_materialized_generated, lemma_or_generated, lemma_plain_facts,
};
use crate::lowered_vars::{
    lemma_facts_occurrences_contains, lemma_key_not_global, lemma_key_visible,
    lemma_lowered_branches_vars, lemma_lowered_vars,
};
use crate::lowering::{
    branch_env, lowered_branches, lowered_facts, lowered_or, plain_facts, surroundings_of,
};
use crate::materialize::{
    branch_body, branch_rules, key_atom, key_of, materialized, relation_decl, relation_hint,
    stands_alone, Env,
};
use crate::query::lemma_locals;
use crate::scope::{all_plain, is_or, lemma_visible_or, scope, visible, visible_in, visible_vars};
use crate::semantics::{
    agree, at_fixpoint, derives, eval, eval_all, holds, holds_all, in_relation,
    law_conjunction_reads_visible_vars, puts, settled, Assignment, Database, Value,
};
use crate::symbol_gen::nth_name;
use crate::vars::{fact_occurrences, facts_occurrences, is_global_name};

verus! {

/// The values that an assignment gives to some variables.
pub open spec fn values_of(key: Seq<Name>, s: Assignment) -> Seq<Value> {
    Seq::new(key.len(), |i: int| s(key[i]))
}

pub proof fn lemma_eval_key(span: Span, key: Seq<Name>, db: Database, s: Assignment)
    requires
        forall|i: int| 0 <= i < key.len() ==> !is_global_name(#[trigger] key[i]),
    ensures
        eval_all(Seq::new(key.len(), |i: int| ExprModel::Var(span, key[i])), db, s) == Some(
            values_of(key, s),
        ),
    decreases key.len(),
{
    let args = Seq::new(key.len(), |i: int| ExprModel::Var(span, key[i]));
    if key.len() > 0 {
        let front = key.drop_last();
        lemma_eval_key(span, front, db, s);
        assert(args.drop_last() =~= Seq::new(front.len(), |i: int| ExprModel::Var(span, front[i])));
        assert(!is_global_name(key[key.len() - 1]));
        assert(eval(args.last(), db, s) == Some(s(key.last())));
        assert(eval_all(args.drop_last(), db, s) == Some(values_of(front, s)));
        assert(values_of(front, s).push(s(key.last())) =~= values_of(key, s));
    } else {
        assert(values_of(key, s) =~= Seq::<Value>::empty());
    }
}

proof fn lemma_plain_agree(fs: Seq<FactModel>, db: Database, s: Assignment, t: Assignment)
    requires
        all_plain(fs),
        forall|v: Name| facts_occurrences(fs).contains(v) ==> #[trigger] s(v) == t(v),
    ensures
        holds_all(fs, db, s, Set::empty()) == holds_all(fs, db, t, Set::empty()),
{
    let seen = Set::new(|v: Name| visible_in(fs, Set::empty(), v));
    assert forall|v: Name| seen.contains(v) implies #[trigger] s(v) == t(v) by {
        let b = scope(Set::empty(), fs);
        let i = choose|i: int| 0 <= i < fs.len() && visible(#[trigger] fs[i], b, v);
        assert(!is_or(fs[i]));
        assert(fact_occurrences(fs[i]).contains(v));
        lemma_facts_occurrences_contains(fs, v);
    }
    law_conjunction_reads_visible_vars(fs, db, s, t, Set::empty());
}

proof fn lemma_plain_add(a: Seq<FactModel>, b: Seq<FactModel>, db: Database, s: Assignment)
    requires
        all_plain(a),
        all_plain(b),
    ensures
        all_plain(a + b),
        holds_all(a + b, db, s, Set::empty()) <==> holds_all(a, db, s, Set::empty()) && holds_all(
            b,
            db,
            s,
            Set::empty(),
        ),
{
    let all = a + b;
    let none = Set::<Name>::empty();
    assert forall|i: int| 0 <= i < all.len() implies !is_or(#[trigger] all[i]) by {
        if i < a.len() {
            assert(all[i] == a[i]);
        } else {
            assert(all[i] == b[i - a.len()]);
        }
    }
    if holds_all(all, db, s, none) {
        assert forall|i: int| 0 <= i < a.len() implies holds(
            #[trigger] a[i],
            db,
            s,
            scope(none, a),
        ) by {
            assert(all[i] == a[i]);
            assert(!is_or(a[i]));
        }
        assert forall|i: int| 0 <= i < b.len() implies holds(
            #[trigger] b[i],
            db,
            s,
            scope(none, b),
        ) by {
            assert(all[a.len() + i] == b[i]);
            assert(!is_or(b[i]));
        }
    }
    if holds_all(a, db, s, none) && holds_all(b, db, s, none) {
        assert forall|i: int| 0 <= i < all.len() implies holds(
            #[trigger] all[i],
            db,
            s,
            scope(none, all),
        ) by {
            if i < a.len() {
                assert(all[i] == a[i]);
                assert(holds(a[i], db, s, scope(none, a)));
            } else {
                assert(all[i] == b[i - a.len()]);
                assert(holds(b[i - a.len()], db, s, scope(none, b)));
            }
        }
    }
}

/// Lowering leaves plain facts as they are.
proof fn lemma_plain_kept(fs: Seq<FactModel>, k: nat, env: Env, n: nat)
    requires
        k <= fs.len(),
        lowered_facts(fs, k, env, n).result is Ok,
    ensures
        lowered_facts(fs, k, env, n).result->Ok_0.len() == k,
        forall|j: int|
            #![trigger lowered_facts(fs, k, env, n).result->Ok_0[j]]
            #![trigger fs[j]]
            0 <= j < k && !is_or(fs[j]) ==> lowered_facts(fs, k, env, n).result->Ok_0[j] == fs[j],
    decreases k,
{
    if k > 0 {
        lemma_plain_kept(fs, (k - 1) as nat, env, n);
    }
}

/// Where the surrounding and the plain facts hold, a lowered fact holds exactly where the
/// fact it stands for does.
proof fn lemma_facts_equiv(
    fs: Seq<FactModel>,
    k: nat,
    env: Env,
    n: nat,
    db: Database,
    s: Assignment,
)
    requires
        k <= fs.len(),
        lowered_facts(fs, k, env, n).result is Ok,
        context_binds(env),
        at_fixpoint(db, lowered_facts(fs, k, env, n).aux),
        holds_all(env.context, db, s, Set::empty()),
        holds_all(plain_facts(fs), db, s, Set::empty()),
    ensures
        lowered_facts(fs, k, env, n).result->Ok_0.len() == k,
        forall|j: int|
            #![trigger lowered_facts(fs, k, env, n).result->Ok_0[j]]
            0 <= j < k ==> holds(
                lowered_facts(fs, k, env, n).result->Ok_0[j],
                db,
                s,
                Set::empty(),
            ) == holds(fs[j], db, s, scope(env.bound, fs)),
    decreases fs, k,
{
    if k > 0 {
        let before = lowered_facts(fs, (k - 1) as nat, env, n);
        let done = before.result->Ok_0;
        let all = lowered_facts(fs, k, env, n).result->Ok_0;
        match fs[k - 1] {
            FactModel::Or(span, branches) => {
                let inner = surroundings_of(fs, k - 1, env);
                let or = lowered_or(span, branches, inner, before.next);
                lemma_facts_generated(fs, (k - 1) as nat, env, n);
                lemma_or_generated(span, branches, inner, before.next);
                lemma_fixpoint_split(
                    db,
                    before.aux,
                    or.aux,
                    env.reserved,
                    n,
                    before.next,
                    or.next,
                );
                lemma_context_binds(fs, k - 1, env);
                lemma_plain_facts(fs);
                lemma_plain_add(env.context, plain_facts(fs), db, s);
                lemma_or_equiv(span, branches, inner, before.next, db, s);
            },
            _ => {},
        }
        lemma_facts_equiv(fs, (k - 1) as nat, env, n, db, s);
        assert forall|j: int|
            #![trigger all[j]]
            0 <= j < k implies holds(all[j], db, s, Set::empty()) == holds(
            fs[j],
            db,
            s,
            scope(env.bound, fs),
        ) by {
            if j < k - 1 {
                assert(all[j] == done[j]);
            }
        }
    }
}

/// Where the surrounding facts hold, a lowered conjunction holds exactly where the
/// conjunction it stands for does.
proof fn lemma_list_equiv(fs: Seq<FactModel>, env: Env, n: nat, db: Database, s: Assignment)
    requires
        lowered_facts(fs, fs.len(), env, n).result is Ok,
        context_binds(env),
        at_fixpoint(db, lowered_facts(fs, fs.len(), env, n).aux),
        holds_all(env.context, db, s, Set::empty()),
    ensures
        holds_all(lowered_facts(fs, fs.len(), env, n).result->Ok_0, db, s, Set::empty())
            == holds_all(fs, db, s, env.bound),
    decreases fs, fs.len() + 1,
{
    let done = lowered_facts(fs, fs.len(), env, n).result->Ok_0;
    let plain = plain_facts(fs);
    let none = Set::<Name>::empty();
    lemma_plain_facts(fs);
    lemma_plain_kept(fs, fs.len(), env, n);
    lemma_lowered_vars(fs, fs.len(), env, n);
    if holds_all(plain, db, s, none) {
        lemma_facts_equiv(fs, fs.len(), env, n, db, s);
        if holds_all(done, db, s, none) {
            assert forall|j: int| 0 <= j < fs.len() implies holds(
                #[trigger] fs[j],
                db,
                s,
                scope(env.bound, fs),
            ) by {
                assert(!is_or(done[j]));
                assert(holds(done[j], db, s, scope(none, done)));
            }
        }
        if holds_all(fs, db, s, env.bound) {
            assert forall|j: int| 0 <= j < done.len() implies holds(
                #[trigger] done[j],
                db,
                s,
                scope(none, done),
            ) by {
                assert(!is_or(done[j]));
                assert(holds(fs[j], db, s, scope(env.bound, fs)));
            }
        }
    } else {
        let j = choose|j: int|
            0 <= j < plain.len() && !holds(#[trigger] plain[j], db, s, scope(none, plain));
        assert(plain.contains(plain[j]));
        let m = choose|m: int| 0 <= m < fs.len() && fs[m] == plain[j];
        assert(!is_or(fs[m]));
        assert(done[m] == fs[m]);
        assert(!holds(fs[m], db, s, scope(env.bound, fs)));
        assert(!holds(done[m], db, s, scope(none, done)));
    }
}

proof fn lemma_branches_equiv(
    span: Span,
    bs: Seq<Seq<FactModel>>,
    k: nat,
    env: Env,
    n: nat,
    db: Database,
    i: int,
    s: Assignment,
)
    requires
        0 <= i < k <= bs.len(),
        lowered_branches(span, bs, k, env, n).result is Ok,
        context_binds(env),
        at_fixpoint(db, lowered_branches(span, bs, k, env, n).aux),
        holds_all(env.context, db, s, Set::empty()),
    ensures
        holds_all(lowered_branches(span, bs, k, env, n).result->Ok_0[i], db, s, Set::empty())
            == holds_all(bs[i], db, s, env.bound),
    decreases bs, k,
{
    let before = lowered_branches(span, bs, (k - 1) as nat, env, n);
    let fs = bs[k - 1];
    let inner = branch_env(span, bs, k - 1, env);
    let branch = lowered_facts(fs, fs.len(), inner, before.next);
    lemma_branches_generated(span, bs, (k - 1) as nat, env, n);
    lemma_facts_generated(fs, fs.len(), inner, before.next);
    lemma_fixpoint_split(
        db,
        before.aux,
        branch.aux,
        env.reserved,
        n,
        before.next,
        branch.next,
    );
    lemma_lowered_branches_vars(span, bs, (k - 1) as nat, env, n);
    if i < k - 1 {
        lemma_branches_equiv(span, bs, (k - 1) as nat, env, n, db, i, s);
    } else {
        lemma_list_equiv(fs, inner, before.next, db, s);
    }
}

/// The second assignment on the variables that can be seen outside a conjunction, the
/// first on all others.
pub open spec fn overlaid(
    s: Assignment,
    t: Assignment,
    fs: Seq<FactModel>,
    bound: Set<Name>,
) -> Assignment {
    |v: Name|
        if visible_in(fs, bound, v) {
            t(v)
        } else {
            s(v)
        }
}

/// What holds of the relation of one disjunction, once the program is at its fixpoint.
proof fn lemma_relation(
    span: Span,
    done: Seq<Seq<FactModel>>,
    env: Env,
    n: nat,
    db: Database,
    s: Assignment,
)
    requires
        materialized(span, done, env, n).result is Ok,
        at_fixpoint(db, materialized(span, done, env, n).aux),
    ensures
        holds(materialized(span, done, env, n).result->Ok_0, db, s, Set::empty()) <==> exists|
            i: int,
            t: Assignment,
        |
            0 <= i < done.len() && values_of(key_of(done, env.bound), s) == values_of(
                key_of(done, env.bound),
                t,
            ) && #[trigger] holds_all(
                branch_body(#[trigger] done[i], key_of(done, env.bound), env.bound, env.context),
                db,
                t,
                Set::empty(),
            ),
{
    let key = key_of(done, env.bound);
    let relation = nth_name(env.reserved, n, relation_hint());
    let decl = relation_decl(span, key, relation, env.sorts, env.renaming);
    let rules = branch_rules(span, done, key, relation, env, n + 1);
    let aux = seq![decl] + rules;
    let args = values_of(key, s);
    let atom = key_atom(span, relation, key);
    lemma_key_not_global(done, env.bound);
    lemma_eval_key(span, key, db, s);
    assert(holds(FactModel::Fact(atom), db, s, Set::empty()) <==> in_relation(
        db,
        relation,
        args,
    ));
    assert(aux[0] == decl);
    assert(settled(db, relation, aux));
    if in_relation(db, relation, args) {
        let j = choose|j: int| 0 <= j < aux.len() && derives(#[trigger] aux[j], relation, args, db);
        let i = j - 1;
        assert(aux[j] == rules[i]);
        let rule = aux[j]->rule;
        let (t, k) = choose|t: Assignment, k: int|
            0 <= k < rule.head.len() && puts(#[trigger] rule.head[k], relation, args, db, t)
                && #[trigger] holds_all(rule.body, db, t, Set::empty());
        assert(k == 0);
        lemma_eval_key(span, key, db, t);
        assert(values_of(key, t) == args);
        assert(holds_all(branch_body(done[i], key, env.bound, env.context), db, t, Set::empty()));
    }
    if exists|i: int, t: Assignment|
        0 <= i < done.len() && args == values_of(key, t) && #[trigger] holds_all(
            branch_body(#[trigger] done[i], key, env.bound, env.context),
            db,
            t,
            Set::empty(),
        ) {
        let (i, t) = choose|i: int, t: Assignment|
            0 <= i < done.len() && args == values_of(key, t) && #[trigger] holds_all(
                branch_body(#[trigger] done[i], key, env.bound, env.context),
                db,
                t,
                Set::empty(),
            );
        assert(aux[i + 1] == rules[i]);
        let rule = aux[i + 1]->rule;
        lemma_eval_key(span, key, db, t);
        assert(rule.body == branch_body(done[i], key, env.bound, env.context));
        assert(puts(rule.head[0], relation, args, db, t));
        assert(holds_all(rule.body, db, t, Set::empty()));
        assert(derives(aux[i + 1], relation, args, db));
    }
}

/// Where the surrounding facts hold, the atom that replaces a disjunction holds exactly
/// where the disjunction does.
proof fn lemma_or_equiv(
    span: Span,
    bs: Seq<Seq<FactModel>>,
    env: Env,
    n: nat,
    db: Database,
    s: Assignment,
)
    requires
        lowered_or(span, bs, env, n).result is Ok,
        context_binds(env),
        at_fixpoint(db, lowered_or(span, bs, env, n).aux),
        holds_all(env.context, db, s, Set::empty()),
    ensures
        holds(lowered_or(span, bs, env, n).result->Ok_0, db, s, Set::empty()) == holds(
            FactModel::Or(span, bs),
            db,
            s,
            env.bound,
        ),
    decreases bs, bs.len() + 1,
{
    let f = FactModel::Or(span, bs);
    let none = Set::<Name>::empty();
    let inner = lowered_branches(span, bs, bs.len(), env, n);
    let done = inner.result->Ok_0;
    let or = materialized(span, done, env, inner.next);
    let key = key_of(done, env.bound);
    let atom = or.result->Ok_0;
    lemma_branches_generated(span, bs, bs.len(), env, n);
    lemma_materialized_generated(span, done, env, inner.next);
    lemma_fixpoint_split(db, inner.aux, or.aux, env.reserved, n, inner.next, or.next);
    lemma_lowered_branches_vars(span, bs, bs.len(), env, n);
    lemma_relation(span, done, env, inner.next, db, s);
    assert forall|v: Name| #[trigger] key.contains(v) <==> visible(f, env.bound, v) by {
        lemma_key_visible(span, bs, done, env.bound, v);
    }
    if holds(atom, db, s, none) {
        let (i, t) = choose|i: int, t: Assignment|
            0 <= i < done.len() && values_of(key, s) == values_of(key, t) && #[trigger] holds_all(
                branch_body(#[trigger] done[i], key, env.bound, env.context),
                db,
                t,
                none,
            );
        lemma_same_key(key, s, t);
        assert forall|v: Name| #[trigger] visible(f, env.bound, v) implies s(v) == t(v) by {
            assert(key.contains(v));
        }
        if stands_alone(done[i], key, env.bound) {
            let u = overlaid(s, t, bs[i], env.bound);
            lemma_overlay(span, bs, env, i, s, t, db);
            lemma_plain_agree(done[i], db, t, u);
            lemma_branches_equiv(span, bs, bs.len(), env, n, db, i, u);
            assert(agree(s, u, visible_vars(f, env.bound)));
            assert(holds_all(bs[i], db, u, env.bound));
        } else {
            lemma_plain_add(env.context, done[i], db, t);
            lemma_branches_equiv(span, bs, bs.len(), env, n, db, i, t);
            assert forall|v: Name| visible_vars(f, env.bound).contains(v) implies #[trigger] s(v)
                == t(v) by {
                assert(key.contains(v));
            }
            assert(agree(s, t, visible_vars(f, env.bound)));
            assert(holds_all(bs[i], db, t, env.bound));
        }
        assert(holds(f, db, s, env.bound));
    }
    if holds(f, db, s, env.bound) {
        let (i, t) = choose|i: int, t: Assignment|
            0 <= i < bs.len() && #[trigger] agree(s, t, visible_vars(f, env.bound)) && holds_all(
                #[trigger] bs[i],
                db,
                t,
                env.bound,
            );
        let u = overlaid(s, t, bs[i], env.bound);
        assert forall|v: Name| #[trigger] key.contains(v) implies s(v) == t(v) by {
            assert(visible_vars(f, env.bound).contains(v));
            assert(s(v) == t(v));
        }
        lemma_overlay(span, bs, env, i, s, t, db);
        assert(agree(t, u, Set::new(|v: Name| visible_in(bs[i], env.bound, v))));
        law_conjunction_reads_visible_vars(bs[i], db, t, u, env.bound);
        lemma_branches_equiv(span, bs, bs.len(), env, n, db, i, u);
        lemma_plain_add(env.context, done[i], db, u);
        assert(holds_all(branch_body(done[i], key, env.bound, env.context), db, u, none));
        assert(values_of(key, s) =~= values_of(key, u)) by {
            assert forall|k: int| 0 <= k < key.len() implies s(#[trigger] key[k]) == u(key[k]) by {
                assert(key.contains(key[k]));
            }
        }
        assert(holds(atom, db, s, none));
    }
}

proof fn lemma_same_key(key: Seq<Name>, s: Assignment, t: Assignment)
    requires
        values_of(key, s) == values_of(key, t),
    ensures
        forall|v: Name| #[trigger] key.contains(v) ==> s(v) == t(v),
{
    assert forall|v: Name| #[trigger] key.contains(v) implies s(v) == t(v) by {
        let k = choose|k: int| 0 <= k < key.len() && key[k] == v;
        assert(values_of(key, s)[k] == s(v));
        assert(values_of(key, t)[k] == t(v));
    }
}

/// Two assignments that agree on what can be seen outside a disjunction can be overlaid on
/// one of its branches without a change to that, nor to whether the surrounding facts
/// hold.
proof fn lemma_overlay(
    span: Span,
    bs: Seq<Seq<FactModel>>,
    env: Env,
    i: int,
    s: Assignment,
    t: Assignment,
    db: Database,
)
    requires
        0 <= i < bs.len(),
        context_binds(env),
        holds_all(env.context, db, s, Set::empty()),
        forall|v: Name| #[trigger]
            visible(FactModel::Or(span, bs), env.bound, v) ==> s(v) == t(v),
    ensures
        agree(
            s,
            overlaid(s, t, bs[i], env.bound),
            visible_vars(FactModel::Or(span, bs), env.bound),
        ),
        holds_all(env.context, db, overlaid(s, t, bs[i], env.bound), Set::empty()),
{
    let f = FactModel::Or(span, bs);
    let u = overlaid(s, t, bs[i], env.bound);
    assert forall|v: Name| visible_vars(f, env.bound).contains(v) implies #[trigger] s(v) == u(
        v,
    ) by {
        assert(visible(f, env.bound, v));
    }
    assert forall|v: Name| facts_occurrences(env.context).contains(v) implies #[trigger] s(v)
        == u(v) by {
        if visible_in(bs[i], env.bound, v) {
            lemma_visible_or(span, bs, env.bound, v);
        }
    }
    lemma_plain_agree(env.context, db, s, u);
}

/// A disjunction holds if and only if one of its branches does, under the same values for
/// all variables but those that are local to the branch.
pub proof fn law_disjunction_holds_if_a_branch_does(
    span: Span,
    branches: Seq<Seq<FactModel>>,
    db: Database,
    s: Assignment,
    bound: Set<Name>,
)
    ensures
        holds(FactModel::Or(span, branches), db, s, bound) <==> exists|i: int, t: Assignment|
            {
                &&& 0 <= i < branches.len()
                &&& #[trigger] holds_all(branches[i], db, t, bound)
                &&& forall|v: Name|
                    #![trigger s(v)]
                    s(v) == t(v) || local_vars(FactModel::Or(span, branches), i, bound).contains(v)
            },
{
    let f = FactModel::Or(span, branches);
    if holds(f, db, s, bound) {
        let (i, t) = choose|i: int, t: Assignment|
            0 <= i < branches.len() && #[trigger] agree(s, t, visible_vars(f, bound)) && holds_all(
                #[trigger] branches[i],
                db,
                t,
                bound,
            );
        let u = overlaid(s, t, branches[i], bound);
        assert(agree(t, u, Set::new(|v: Name| visible_in(branches[i], bound, v))));
        law_conjunction_reads_visible_vars(branches[i], db, t, u, bound);
        assert forall|v: Name|
            #![trigger s(v)]
            s(v) == u(v) || local_vars(f, i, bound).contains(v) by {
            lemma_locals(f, i, bound, v);
            if visible(f, bound, v) {
                assert(visible_vars(f, bound).contains(v));
                assert(s(v) == t(v));
            }
        }
        assert(holds_all(branches[i], db, u, bound));
    }
    if exists|i: int, t: Assignment|
        {
            &&& 0 <= i < branches.len()
            &&& #[trigger] holds_all(branches[i], db, t, bound)
            &&& forall|v: Name|
                #![trigger s(v)]
                s(v) == t(v) || local_vars(f, i, bound).contains(v)
        } {
        let (i, t) = choose|i: int, t: Assignment|
            {
                &&& 0 <= i < branches.len()
                &&& #[trigger] holds_all(branches[i], db, t, bound)
                &&& forall|v: Name|
                    #![trigger s(v)]
                    s(v) == t(v) || local_vars(f, i, bound).contains(v)
            };
        assert forall|v: Name| visible_vars(f, bound).contains(v) implies #[trigger] s(v) == t(
            v,
        ) by {
            lemma_locals(f, i, bound, v);
        }
        assert(agree(s, t, visible_vars(f, bound)));
        match f {
            FactModel::Or(_, bs) => {
                assert(holds_all(bs[i], db, t, bound));
            },
            _ => {},
        }
    }
}

/// Lowering preserves what a rule matches: in every database that the generated rules
/// have been run to their fixpoint in, the lowered body holds under exactly the values
/// under which the body holds, and nothing else of the rule changes.
pub proof fn law_lowering_preserves_matches(
    rule: RuleModel,
    sorts: Map<Name, Name>,
    reserved: Name,
    queried: nat,
    n: nat,
    db: Database,
    s: Assignment,
)
    requires
        lowered_rule(rule, sorts, reserved, queried, n).0 is Ok,
        at_fixpoint(db, lowered_rule(rule, sorts, reserved, queried, n).0->Ok_0.drop_last()),
    ensures
        lowered_rule(rule, sorts, reserved, queried, n).0->Ok_0.len() > 0,
        lowered_rule(rule, sorts, reserved, queried, n).0->Ok_0.last() matches CommandModel::Rule {
            rule: lowered,
        } && lowered == (RuleModel { body: lowered.body, ..rule }) && (holds_all(
            lowered.body,
            db,
            s,
            Set::empty(),
        ) <==> holds_all(rule.body, db, s, Set::empty())),
{
    let env = rule_env(rule, sorts, reserved, queried);
    let body = lowered_facts(rule.body, rule.body.len(), env, n);
    let commands = lowered_rule(rule, sorts, reserved, queried, n).0->Ok_0;
    assert(commands.drop_last() =~= body.aux);
    assert(context_binds(env));
    lemma_list_equiv(rule.body, env, n, db, s);
}

} // verus!
