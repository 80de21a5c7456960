//! The columns of the generated relations.

use vstd::prelude::*;

use crate::ast::{ActionModel, CommandModel, ExprModel, FactModel, Name, RuleModel, Span};
use crate::commands::{lowered_rule, rule_env};
use crate::flatten::{flattened_branches, fresh_names, local_vars, renamed_var};
use crate::lowered_vars::{lemma_key_contains, lemma_key_not_global};
use crate::lowering::{branch_env, lowered_branches, lowered_facts, lowered_or, surroundings_of};
use crate::materialize::{
    branch_rules, branch_var_sets, first_untyped, key_of, lemma_first_such_none, materialized, Env,
};
use crate::mentions::{facts_mention, law_facts_vars_are_mentioned};
use crate::symbol_gen::nth_name;
use crate::vars::{
    branches_occurrences, fact_occurrences, facts_occurrences, is_global_name, key_var,
    lemma_with_all_contains, lemma_with_all_no_duplicates, with, with_all,
};

verus! {

/// The lowering of one disjunction. The relation that is declared has one column for each
/// argument of the atom that takes the disjunction's place, and each argument is a variable.
/// The column's sort is the one that the variable's name in the typing query has. Every
/// branch has a rule, in its place, whose head is that very atom.
pub proof fn law_columns_have_the_sorts_of_their_variables(
    span: Span,
    branches: Seq<Seq<FactModel>>,
    env: Env,
    n: nat,
)
    requires
        materialized(span, branches, env, n).result is Ok,
    ensures
        ({
            let outcome = materialized(span, branches, env, n);
            &&& outcome.aux.len() == branches.len() + 1
            &&& outcome.result->Ok_0 matches FactModel::Fact(atom)
            &&& atom matches ExprModel::Call(at, relation, args)
            &&& outcome.aux[0] matches CommandModel::Relation { span: decl_at, name, inputs }
            &&& at == span
            &&& decl_at == span
            &&& name == relation
            &&& inputs.len() == args.len()
            &&& forall|i: int|
                0 <= i < args.len() ==> (#[trigger] args[i] matches ExprModel::Var(var_at, v)
                    && var_at == span && env.sorts.contains_key(renamed_var(v, env.renaming))
                    && inputs[i] == env.sorts[renamed_var(v, env.renaming)])
            &&& forall|j: int|
                0 < j <= branches.len() ==> (#[trigger] outcome.aux[j] matches CommandModel::Rule {
                    rule,
                } && rule.span == span && rule.head == seq![ActionModel::Expr(span, atom)])
        }),
{
    let outcome = materialized(span, branches, env, n);
    let key = key_of(branches, env.bound);
    let untyped = |v: Name| !env.sorts.contains_key(renamed_var(v, env.renaming));
    let atom = outcome.result->Ok_0->Fact_0;
    let args = atom->Call_2;
    let rules = branch_rules(span, branches, key, atom->Call_1, env, n + 1);
    assert(first_untyped(key, env.sorts, env.renaming) is None);
    lemma_first_such_none(key, untyped);
    assert forall|i: int| 0 <= i < args.len() implies (
    #[trigger] args[i] matches ExprModel::Var(var_at, v) && var_at == span
        && env.sorts.contains_key(renamed_var(v, env.renaming))) by {
        assert(args[i] == ExprModel::Var(span, key[i]));
        assert(key.contains(key[i]));
        assert(!untyped(key[i]));
    }
    assert forall|j: int| 0 < j <= branches.len() implies (
    #[trigger] outcome.aux[j] matches CommandModel::Rule { rule } && rule.span == span && rule.head
        == seq![ActionModel::Expr(span, atom)]) by {
        assert(outcome.aux[j] == rules[j - 1]);
    }
}

/// A name that a variable can have in the typing query: its own, or a fresh one made of it.
pub open spec fn stands_for(name: Name, v: Name, reserved: Name) -> bool {
    name == v || exists|p: nat| name == #[trigger] nth_name(reserved, p, v)
}

/// A relation is declared among some commands with a column for each argument of a call. Each
/// argument is a variable, and its column has the sort of a name that the variable can have
/// in the typing query.
pub open spec fn call_is_declared(
    e: ExprModel,
    commands: Seq<CommandModel>,
    sorts: Map<Name, Name>,
    reserved: Name,
) -> bool {
    e matches ExprModel::Call(_, relation, args) && exists|p: int|
        0 <= p < commands.len() && (#[trigger] commands[p] matches CommandModel::Relation {
            name,
            inputs,
            ..
        } && name == relation && inputs.len() == args.len() && forall|i: int|
            0 <= i < args.len() ==> (#[trigger] args[i] matches ExprModel::Var(_, v) && exists|
                w: Name,
            | #[trigger]
                stands_for(w, v, reserved) && sorts.contains_key(w) && sorts[w] == inputs[i]))
}

/// Every rule among some commands has one action, which puts a tuple into a relation that is
/// declared among them.
pub open spec fn heads_are_declared(
    commands: Seq<CommandModel>,
    sorts: Map<Name, Name>,
    reserved: Name,
) -> bool {
    forall|q: int|
        0 <= q < commands.len() ==> (#[trigger] commands[q] matches CommandModel::Rule { rule }
            ==> (rule.head[0] matches ActionModel::Expr(_, e) && rule.head.len() == 1
            && call_is_declared(e, commands, sorts, reserved)))
}

proof fn lemma_call_is_declared(
    e: ExprModel,
    a: Seq<CommandModel>,
    b: Seq<CommandModel>,
    sorts: Map<Name, Name>,
    reserved: Name,
)
    ensures
        call_is_declared(e, a, sorts, reserved) ==> call_is_declared(e, a + b, sorts, reserved),
        call_is_declared(e, b, sorts, reserved) ==> call_is_declared(e, a + b, sorts, reserved),
{
    let all = a + b;
    if call_is_declared(e, a, sorts, reserved) {
        let args = e->Call_2;
        let p = choose|p: int|
            0 <= p < a.len() && (#[trigger] a[p] matches CommandModel::Relation {
                name,
                inputs,
                ..
            } && name == e->Call_1 && inputs.len() == args.len() && forall|i: int|
                0 <= i < args.len() ==> (#[trigger] args[i] matches ExprModel::Var(_, v) && exists|
                    w: Name,
                | #[trigger]
                    stands_for(w, v, reserved) && sorts.contains_key(w) && sorts[w] == inputs[i]));
        assert(all[p] == a[p]);
    }
    if call_is_declared(e, b, sorts, reserved) {
        let args = e->Call_2;
        let p = choose|p: int|
            0 <= p < b.len() && (#[trigger] b[p] matches CommandModel::Relation {
                name,
                inputs,
                ..
            } && name == e->Call_1 && inputs.len() == args.len() && forall|i: int|
                0 <= i < args.len() ==> (#[trigger] args[i] matches ExprModel::Var(_, v) && exists|
                    w: Name,
                | #[trigger]
                    stands_for(w, v, reserved) && sorts.contains_key(w) && sorts[w] == inputs[i]));
        assert(all[a.len() + p] == b[p]);
    }
}

proof fn lemma_heads_add(
    a: Seq<CommandModel>,
    b: Seq<CommandModel>,
    sorts: Map<Name, Name>,
    reserved: Name,
)
    requires
        heads_are_declared(a, sorts, reserved),
        heads_are_declared(b, sorts, reserved),
    ensures
        heads_are_declared(a + b, sorts, reserved),
{
    let all = a + b;
    assert forall|q: int| 0 <= q < all.len() implies (#[trigger] all[q] matches CommandModel::Rule {
        rule,
    } ==> (rule.head[0] matches ActionModel::Expr(_, e) && rule.head.len() == 1
        && call_is_declared(e, all, sorts, reserved))) by {
        if q < a.len() {
            assert(all[q] == a[q]);
        } else {
            assert(all[q] == b[q - a.len()]);
        }
        if let CommandModel::Rule { rule } = all[q] {
            if let ActionModel::Expr(_, e) = rule.head[0] {
                lemma_call_is_declared(e, a, b, sorts, reserved);
            }
        }
    }
}

/// A renaming gives every variable a name made of it.
pub open spec fn names_stand_for(renaming: Seq<(Name, Name)>, reserved: Name) -> bool {
    forall|i: int|
        0 <= i < renaming.len() ==> stands_for(
            (#[trigger] renaming[i]).1,
            renaming[i].0,
            reserved,
        )
}

pub proof fn lemma_renamed_stands_for(v: Name, renaming: Seq<(Name, Name)>, reserved: Name)
    requires
        names_stand_for(renaming, reserved),
    ensures
        stands_for(renamed_var(v, renaming), v, reserved),
    decreases renaming.len(),
{
    if renaming.len() > 0 {
        let front = renaming.drop_last();
        assert(renaming[renaming.len() - 1] == renaming.last());
        assert forall|i: int| 0 <= i < front.len() implies stands_for(
            (#[trigger] front[i]).1,
            front[i].0,
            reserved,
        ) by {
            assert(front[i] == renaming[i]);
        }
        lemma_renamed_stands_for(v, front, reserved);
    }
}

pub proof fn lemma_branch_names(span: Span, bs: Seq<Seq<FactModel>>, i: int, env: Env)
    requires
        0 <= i < bs.len(),
        names_stand_for(env.renaming, env.reserved),
    ensures
        names_stand_for(branch_env(span, bs, i, env).renaming, env.reserved),
{
    let queried = flattened_branches(
        span,
        bs,
        i as nat,
        env.bound,
        env.renaming,
        env.reserved,
        env.queried,
    ).1;
    let locals = local_vars(FactModel::Or(span, bs), i, env.bound);
    let fresh = fresh_names(locals, env.reserved, queried);
    let all = env.renaming + fresh;
    assert forall|j: int| 0 <= j < all.len() implies stands_for(
        (#[trigger] all[j]).1,
        all[j].0,
        env.reserved,
    ) by {
        if j < env.renaming.len() {
            assert(all[j] == env.renaming[j]);
        } else {
            assert(all[j] == fresh[j - env.renaming.len()]);
        }
    }
}

proof fn lemma_facts_heads(fs: Seq<FactModel>, k: nat, env: Env, n: nat)
    requires
        k <= fs.len(),
        names_stand_for(env.renaming, env.reserved),
        lowered_facts(fs, k, env, n).result is Ok,
    ensures
        heads_are_declared(lowered_facts(fs, k, env, n).aux, env.sorts, env.reserved),
    decreases fs, k,
{
    if k > 0 {
        let before = lowered_facts(fs, (k - 1) as nat, env, n);
        lemma_facts_heads(fs, (k - 1) as nat, env, n);
        if let FactModel::Or(span, branches) = fs[k - 1] {
            let inner = surroundings_of(fs, k - 1, env);
            lemma_or_heads(span, branches, inner, before.next);
            lemma_heads_add(
                before.aux,
                lowered_or(span, branches, inner, before.next).aux,
                env.sorts,
                env.reserved,
            );
        }
    }
}

proof fn lemma_branches_heads(span: Span, bs: Seq<Seq<FactModel>>, k: nat, env: Env, n: nat)
    requires
        k <= bs.len(),
        names_stand_for(env.renaming, env.reserved),
        lowered_branches(span, bs, k, env, n).result is Ok,
    ensures
        heads_are_declared(lowered_branches(span, bs, k, env, n).aux, env.sorts, env.reserved),
    decreases bs, k,
{
    if k > 0 {
        let before = lowered_branches(span, bs, (k - 1) as nat, env, n);
        let fs = bs[k - 1];
        let inner = branch_env(span, bs, k - 1, env);
        lemma_branches_heads(span, bs, (k - 1) as nat, env, n);
        lemma_branch_names(span, bs, k - 1, env);
        lemma_facts_heads(fs, fs.len(), inner, before.next);
        lemma_heads_add(
            before.aux,
            lowered_facts(fs, fs.len(), inner, before.next).aux,
            env.sorts,
            env.reserved,
        );
    }
}

proof fn lemma_or_heads(span: Span, bs: Seq<Seq<FactModel>>, env: Env, n: nat)
    requires
        names_stand_for(env.renaming, env.reserved),
        lowered_or(span, bs, env, n).result is Ok,
    ensures
        heads_are_declared(lowered_or(span, bs, env, n).aux, env.sorts, env.reserved),
    decreases bs, bs.len() + 1,
{
    let inner = lowered_branches(span, bs, bs.len(), env, n);
    let done = inner.result->Ok_0;
    let own = materialized(span, done, env, inner.next);
    let atom = own.result->Ok_0->Fact_0;
    lemma_branches_heads(span, bs, bs.len(), env, n);
    law_columns_have_the_sorts_of_their_variables(span, done, env, inner.next);
    let args = atom->Call_2;
    let inputs = own.aux[0]->inputs;
    assert forall|i: int| 0 <= i < args.len() implies (
    #[trigger] args[i] matches ExprModel::Var(_, v) && exists|w: Name| #[trigger]
        stands_for(w, v, env.reserved) && env.sorts.contains_key(w) && env.sorts[w]
            == inputs[i]) by {
        let v = args[i]->Var_1;
        lemma_renamed_stands_for(v, env.renaming, env.reserved);
        assert(stands_for(renamed_var(v, env.renaming), v, env.reserved));
    }
    assert(call_is_declared(atom, own.aux, env.sorts, env.reserved));
    assert forall|q: int| 0 <= q < own.aux.len() implies (
    #[trigger] own.aux[q] matches CommandModel::Rule { rule } ==> (
    rule.head[0] matches ActionModel::Expr(_, e) && rule.head.len() == 1 && call_is_declared(
        e,
        own.aux,
        env.sorts,
        env.reserved,
    ))) by {}
    lemma_heads_add(inner.aux, own.aux, env.sorts, env.reserved);
}

/// The atom that takes the place of a disjunction of a rule's body reads a relation that is
/// declared with the sorts of its arguments.
pub open spec fn atom_is_declared(
    f: FactModel,
    commands: Seq<CommandModel>,
    sorts: Map<Name, Name>,
) -> bool {
    f matches FactModel::Fact(e) && e matches ExprModel::Call(_, relation, args) && exists|p: int|
        0 <= p < commands.len() && (#[trigger] commands[p] matches CommandModel::Relation {
            name,
            inputs,
            ..
        } && name == relation && inputs.len() == args.len() && forall|i: int|
            0 <= i < args.len() ==> (#[trigger] args[i] matches ExprModel::Var(_, v)
                && sorts.contains_key(v) && sorts[v] == inputs[i]))
}

proof fn lemma_atom_is_declared(
    f: FactModel,
    a: Seq<CommandModel>,
    b: Seq<CommandModel>,
    sorts: Map<Name, Name>,
)
    ensures
        atom_is_declared(f, a, sorts) ==> atom_is_declared(f, a + b, sorts),
        atom_is_declared(f, b, sorts) ==> atom_is_declared(f, a + b, sorts),
{
    let all = a + b;
    let e = f->Fact_0;
    let args = e->Call_2;
    if atom_is_declared(f, a, sorts) {
        let p = choose|p: int|
            0 <= p < a.len() && (#[trigger] a[p] matches CommandModel::Relation {
                name,
                inputs,
                ..
            } && name == e->Call_1 && inputs.len() == args.len() && forall|i: int|
                0 <= i < args.len() ==> (#[trigger] args[i] matches ExprModel::Var(_, v)
                    && sorts.contains_key(v) && sorts[v] == inputs[i]));
        assert(all[p] == a[p]);
    }
    if atom_is_declared(f, b, sorts) {
        let p = choose|p: int|
            0 <= p < b.len() && (#[trigger] b[p] matches CommandModel::Relation {
                name,
                inputs,
                ..
            } && name == e->Call_1 && inputs.len() == args.len() && forall|i: int|
                0 <= i < args.len() ==> (#[trigger] args[i] matches ExprModel::Var(_, v)
                    && sorts.contains_key(v) && sorts[v] == inputs[i]));
        assert(all[a.len() + p] == b[p]);
    }
}

proof fn lemma_atoms_are_declared(fs: Seq<FactModel>, k: nat, env: Env, n: nat)
    requires
        k <= fs.len(),
        env.renaming.len() == 0,
        lowered_facts(fs, k, env, n).result is Ok,
    ensures
        lowered_facts(fs, k, env, n).result->Ok_0.len() == k,
        forall|j: int|
            #![trigger fs[j]]
            0 <= j < k && fs[j] is Or ==> atom_is_declared(
                lowered_facts(fs, k, env, n).result->Ok_0[j],
                lowered_facts(fs, k, env, n).aux,
                env.sorts,
            ),
    decreases k,
{
    if k > 0 {
        let before = lowered_facts(fs, (k - 1) as nat, env, n);
        let after = lowered_facts(fs, k, env, n);
        let done = before.result->Ok_0;
        lemma_atoms_are_declared(fs, (k - 1) as nat, env, n);
        if let FactModel::Or(span, branches) = fs[k - 1] {
            let inner = surroundings_of(fs, k - 1, env);
            let or = lowered_or(span, branches, inner, before.next);
            let nested = lowered_branches(span, branches, branches.len(), inner, before.next);
            let own = materialized(span, nested.result->Ok_0, inner, nested.next);
            law_columns_have_the_sorts_of_their_variables(
                span,
                nested.result->Ok_0,
                inner,
                nested.next,
            );
            assert(atom_is_declared(own.result->Ok_0, own.aux, env.sorts)) by {
                let args = own.result->Ok_0->Fact_0->Call_2;
                assert forall|i: int| 0 <= i < args.len() implies (
                #[trigger] args[i] matches ExprModel::Var(_, v) && env.sorts.contains_key(v)
                    && env.sorts[v] == own.aux[0]->inputs[i]) by {
                    assert(renamed_var(args[i]->Var_1, inner.renaming) == args[i]->Var_1);
                }
            }
            lemma_atom_is_declared(own.result->Ok_0, nested.aux, own.aux, env.sorts);
            lemma_atom_is_declared(own.result->Ok_0, before.aux, or.aux, env.sorts);
            assert forall|j: int| #![trigger fs[j]] 0 <= j < k && fs[j] is Or implies atom_is_declared(
                after.result->Ok_0[j],
                after.aux,
                env.sorts,
            ) by {
                if j < k - 1 {
                    assert(after.result->Ok_0[j] == done[j]);
                    lemma_atom_is_declared(done[j], before.aux, or.aux, env.sorts);
                }
            }
        } else {
            assert forall|j: int| #![trigger fs[j]] 0 <= j < k && fs[j] is Or implies atom_is_declared(
                after.result->Ok_0[j],
                after.aux,
                env.sorts,
            ) by {
                assert(after.result->Ok_0[j] == done[j]);
            }
        }
    }
}

/// Every disjunction of a rule's body is read from a relation whose declared columns have,
/// position by position, the sorts of the variables that the atom in its place is applied
/// to. Every generated rule has one action. It puts variables into a relation whose declared
/// columns have, position by position, the sorts of these variables under their names in the
/// typing query: a variable that is local to a branch has a name of its own there.
pub proof fn law_relations_are_declared_with_the_sorts_of_their_variables(
    rule: RuleModel,
    sorts: Map<Name, Name>,
    reserved: Name,
    queried: nat,
    n: nat,
)
    requires
        lowered_rule(rule, sorts, reserved, queried, n).0 is Ok,
    ensures
        heads_are_declared(
            lowered_rule(rule, sorts, reserved, queried, n).0->Ok_0.drop_last(),
            sorts,
            reserved,
        ),
        lowered_rule(rule, sorts, reserved, queried, n).0->Ok_0.last() matches CommandModel::Rule {
            rule: lowered,
        } && lowered.body.len() == rule.body.len() && forall|j: int|
            0 <= j < rule.body.len() && #[trigger] rule.body[j] is Or ==> atom_is_declared(
                lowered.body[j],
                lowered_rule(rule, sorts, reserved, queried, n).0->Ok_0.drop_last(),
                sorts,
            ),
{
    let env = rule_env(rule, sorts, reserved, queried);
    let outcome = lowered_facts(rule.body, rule.body.len(), env, n);
    assert(lowered_rule(rule, sorts, reserved, queried, n).0->Ok_0.drop_last() =~= outcome.aux);
    lemma_facts_heads(rule.body, rule.body.len(), env, n);
    lemma_atoms_are_declared(rule.body, rule.body.len(), env, n);
}

/// What is kept of a set of variables stands in the order of their first mention.
proof fn lemma_first_mentions(seen: Seq<Name>, keep: spec_fn(Name) -> bool, i: int, j: int)
    requires
        0 <= i < j < with_all(seq![], seen).filter(keep).len(),
    ensures
        exists|p: int|
            0 <= p < seen.len() && #[trigger] seen[p] == with_all(seq![], seen).filter(keep)[i]
                && !seen.take(p + 1).contains(with_all(seq![], seen).filter(keep)[j]),
    decreases seen.len(),
{
    reveal(Seq::filter);
    if seen.len() > 0 {
        let front = seen.drop_last();
        let before = with_all(seq![], front);
        let all = with_all(seq![], seen);
        let kept = all.filter(keep);
        if before.contains(seen.last()) {
            assert(all == before);
        } else {
            assert(all.drop_last() =~= before);
        }
        if j < before.filter(keep).len() {
            assert(kept[i] == before.filter(keep)[i]);
            assert(kept[j] == before.filter(keep)[j]);
            lemma_first_mentions(front, keep, i, j);
            let p = choose|p: int|
                0 <= p < front.len() && #[trigger] front[p] == before.filter(keep)[i]
                    && !front.take(p + 1).contains(before.filter(keep)[j]);
            assert(seen[p] == front[p]);
            assert(seen.take(p + 1) =~= front.take(p + 1));
        } else {
            assert(kept =~= before.filter(keep).push(seen.last()));
            let v = kept[i];
            assert(v == before.filter(keep)[i]);
            assert(before.filter(keep).contains(v));
            before.lemma_filter_contains_rev(keep, v);
            lemma_with_all_contains(seq![], front, v);
            lemma_with_all_contains(seq![], front, seen.last());
            let p = choose|p: int| 0 <= p < front.len() && front[p] == v;
            assert(seen[p] == v);
            let until = seen.take(p + 1);
            if until.contains(seen.last()) {
                let q = choose|q: int| 0 <= q < until.len() && until[q] == seen.last();
                assert(front[q] == seen.last());
            }
        }
    } else {
        assert(with_all(seq![], seen).filter(keep) =~= Seq::<Name>::empty());
    }
}

proof fn lemma_filter_distinct(s: Seq<Name>, keep: spec_fn(Name) -> bool)
    requires
        s.no_duplicates(),
    ensures
        s.filter(keep).no_duplicates(),
    decreases s.len(),
{
    reveal(Seq::filter);
    if s.len() > 0 {
        let front = s.drop_last();
        lemma_filter_distinct(front, keep);
        if front.filter(keep).contains(s.last()) {
            front.lemma_filter_contains_rev(keep, s.last());
        }
    }
}

/// The arguments of the atom that takes the place of a disjunction are the variables that
/// every branch mentions, and those that some branch mentions and the surrounding
/// conjunctions bind. Each is there once.
pub proof fn law_columns_are_the_shared_variables(
    span: Span,
    branches: Seq<Seq<FactModel>>,
    env: Env,
    n: nat,
    v: Name,
)
    requires
        materialized(span, branches, env, n).result is Ok,
    ensures
        ({
            &&& materialized(span, branches, env, n).result->Ok_0 matches FactModel::Fact(atom)
            &&& atom matches ExprModel::Call(_, _, args)
            &&& args.no_duplicates()
            &&& args.contains(ExprModel::Var(span, v)) <==> {
                &&& !is_global_name(v)
                &&& exists|b: int|
                    0 <= b < branches.len() && facts_mention(#[trigger] branches[b], v)
                &&& env.bound.contains(v) || forall|b: int|
                    0 <= b < branches.len() ==> facts_mention(#[trigger] branches[b], v)
            }
        }),
{
    let key = key_of(branches, env.bound);
    let seen = branches_occurrences(branches);
    let keep = |w: Name| key_var(w, env.bound, branch_var_sets(branches));
    let args = materialized(span, branches, env, n).result->Ok_0->Fact_0->Call_2;
    let var = ExprModel::Var(span, v);
    lemma_with_all_no_duplicates(seq![], seen);
    lemma_filter_distinct(with_all(seq![], seen), keep);
    assert(key.no_duplicates());
    assert forall|i: int| 0 <= i < args.len() implies #[trigger] args[i] == ExprModel::Var(
        span,
        key[i],
    ) by {}
    lemma_key_contains(branches, env.bound, v);
    lemma_key_not_global(branches, env.bound);
    assert forall|b: int| 0 <= b < branches.len() implies (facts_occurrences(
        #[trigger] branches[b],
    ).contains(v) <==> facts_mention(branches[b], v) && !is_global_name(v)) by {
        law_facts_vars_are_mentioned(branches[b], v);
    }
    if key.contains(v) {
        let i = choose|i: int| 0 <= i < key.len() && key[i] == v;
        assert(args[i] == var);
        assert(!is_global_name(key[i]));
    }
    if args.contains(var) {
        let i = choose|i: int| 0 <= i < args.len() && args[i] == var;
        assert(key[i] == v);
        assert(key.contains(v));
    }
}

/// The arguments of the atom that takes the place of a disjunction stand in the order in
/// which the branches first mention them, from the first branch on: where the one is first
/// mentioned, a later one has not been mentioned yet.
pub proof fn law_columns_are_in_order_of_mention(
    span: Span,
    branches: Seq<Seq<FactModel>>,
    env: Env,
    n: nat,
    i: int,
    j: int,
)
    requires
        materialized(span, branches, env, n).result is Ok,
        0 <= i < j,
    ensures
        ({
            let mentions = fact_occurrences(FactModel::Or(span, branches));
            &&& materialized(span, branches, env, n).result->Ok_0 matches FactModel::Fact(atom)
            &&& atom matches ExprModel::Call(_, _, args)
            &&& j < args.len() ==> exists|p: int|
                0 <= p < mentions.len() && args[i] == ExprModel::Var(span, #[trigger] mentions[p])
                    && forall|q: int|
                    0 <= q <= p ==> args[j] != ExprModel::Var(span, #[trigger] mentions[q])
        }),
{
    let key = key_of(branches, env.bound);
    let seen = branches_occurrences(branches);
    let keep = |v: Name| key_var(v, env.bound, branch_var_sets(branches));
    let args = materialized(span, branches, env, n).result->Ok_0->Fact_0->Call_2;
    assert(fact_occurrences(FactModel::Or(span, branches)) == seen);
    assert(key == with_all(seq![], seen).filter(keep));
    if j < args.len() {
        assert(args[i] == ExprModel::Var(span, key[i]));
        assert(args[j] == ExprModel::Var(span, key[j]));
        lemma_first_mentions(seen, keep, i, j);
        let p = choose|p: int|
            0 <= p < seen.len() && #[trigger] seen[p] == key[i] && !seen.take(p + 1).contains(
                key[j],
            );
        assert forall|q: int| 0 <= q <= p implies args[j] != ExprModel::Var(
            span,
            #[trigger] seen[q],
        ) by {
            assert(seen.take(p + 1)[q] == seen[q]);
        }
        assert(args[i] == ExprModel::Var(span, seen[p]));
    }
}

/// The variables that are inserted into an empty set, one after another, are there once each,
/// in the order of their first insertion.
pub proof fn law_sets_list_first_mentions(seen: Seq<Name>, v: Name, i: int, j: int)
    ensures
        with_all(seq![], seen).contains(v) <==> seen.contains(v),
        with_all(seq![], seen).no_duplicates(),
        0 <= i < j < with_all(seq![], seen).len() ==> exists|p: int|
            0 <= p < seen.len() && #[trigger] seen[p] == with_all(seq![], seen)[i]
                && !seen.take(p + 1).contains(with_all(seq![], seen)[j]),
{
    let all = with_all(seq![], seen);
    let keep = |w: Name| true;
    lemma_with_all_contains(seq![], seen, v);
    lemma_with_all_no_duplicates(seq![], seen);
    lemma_filter_all(all, keep);
    if 0 <= i < j < all.len() {
        lemma_first_mentions(seen, keep, i, j);
    }
}

proof fn lemma_filter_all(s: Seq<Name>, keep: spec_fn(Name) -> bool)
    requires
        forall|v: Name| #[trigger] keep(v),
    ensures
        s.filter(keep) == s,
    decreases s.len(),
{
    reveal(Seq::filter);
    if s.len() > 0 {
        lemma_filter_all(s.drop_last(), keep);
        assert(keep(s.last()));
        assert(s.filter(keep) =~= s);
    } else {
        assert(s.filter(keep) =~= s);
    }
}

} // verus!
