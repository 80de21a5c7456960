//! Lowering of `or` disjunctions in rule bodies (materialized-union strategy).
//!
//! A body `C and (D1 or ... or Dn)` is compiled by materializing the disjunction as an
//! internal relation `R(K)` over the variables `K` that can be seen outside it: one
//! auxiliary rule per branch inserts `K` into `R`, and the `or` in the body is replaced
//! by the single atom `R(K)`. The rest of the rule then joins against `R` as an ordinary
//! relation.
//!
//! `K` holds the variables common to all branches, together with the branch variables
//! that `C` binds. A branch that does not by itself give values to all of the latter is
//! evaluated together with `C`.
//!
//! Because a materialized relation is a set, this avoids the rule blowup and redundant
//! firing of naive rule-splitting; the cost is one extra derivation step of latency (the
//! branches populate `R` in one iteration, the main rule reads it in the next), so
//! programs must be run to fixpoint.

use vstd::prelude::*;

use crate::ast::{
    branch_models, clone_facts, command_models, fact_models, group_models, Command, CommandModel,
    Fact, FactModel, Name, Span,
};
use crate::error::{Error, TypeError, TypeErrorModel};
use crate::flatten::{
    branch_locals, flattened, flattened_branches, fresh_names, local_vars, Renaming,
};
use crate::generated::lemma_plain_facts;
use crate::lowered_vars::lemma_lowered_branches_vars;
use crate::materialize::{env_of, materialize, materialized, Env, Outcome, Surroundings};
use crate::scope::{
    all_plain, bound_vars, is_or, scope, visible, visible_branches_vars, visible_fact_vars,
    visible_vars,
};
use crate::symbol_gen::SymbolGen;
use crate::typing::SortMap;
use crate::vars::{lemma_with_all_contains, VarSet};

verus! {

/// The plain facts of a conjunction.
pub open spec fn plain_facts(fs: Seq<FactModel>) -> Seq<FactModel> {
    fs.filter(|f: FactModel| !is_or(f))
}

/// The variables used outside the `i`-th fact of a conjunction, where `outside` holds
/// those used outside the conjunction and `bound` those bound around it.
pub open spec fn outside_of(
    fs: Seq<FactModel>,
    i: int,
    bound: Set<Name>,
    outside: Set<Name>,
) -> Set<Name> {
    Set::new(
        |v: Name|
            outside.contains(v) || exists|j: int|
                0 <= j < fs.len() && j != i && visible(#[trigger] fs[j], scope(bound, fs), v),
    )
}

/// What surrounds the `i`-th fact of a conjunction.
pub open spec fn surroundings_of(fs: Seq<FactModel>, i: int, env: Env) -> Env {
    Env {
        outside: outside_of(fs, i, env.bound, env.outside),
        bound: scope(env.bound, fs),
        context: env.context + plain_facts(fs),
        queried: flattened(
            fs,
            i as nat,
            env.bound,
            env.renaming,
            env.reserved,
            env.queried,
        ).1,
        ..env
    }
}

/// What surrounds the facts of the `i`-th branch of a disjunction.
pub open spec fn branch_env(span: Span, branches: Seq<Seq<FactModel>>, i: int, env: Env) -> Env {
    let queried = flattened_branches(
        span,
        branches,
        i as nat,
        env.bound,
        env.renaming,
        env.reserved,
        env.queried,
    ).1;
    let locals = local_vars(FactModel::Or(span, branches), i, env.bound);
    Env {
        renaming: env.renaming + fresh_names(locals, env.reserved, queried),
        queried: queried + locals.len(),
        ..env
    }
}

/// The lowering of the first `k` facts of a conjunction.
pub open spec fn lowered_facts(fs: Seq<FactModel>, k: nat, env: Env, n: nat) -> Outcome<
    Seq<FactModel>,
>
    decreases fs, k,
{
    if k == 0 || k > fs.len() {
        Outcome { result: Ok(seq![]), aux: seq![], next: n }
    } else {
        let before = lowered_facts(fs, (k - 1) as nat, env, n);
        match before.result {
            Err(e) => before,
            Ok(done) => match fs[k - 1] {
                FactModel::Or(span, branches) => {
                    let or = lowered_or(span, branches, surroundings_of(fs, k - 1, env), before.next);
                    Outcome {
                        result: match or.result {
                            Err(e) => Err(e),
                            Ok(f) => Ok(done.push(f)),
                        },
                        aux: before.aux + or.aux,
                        next: or.next,
                    }
                },
                f => Outcome { result: Ok(done.push(f)), ..before },
            },
        }
    }
}

/// The lowering of the first `k` branches of a disjunction.
pub open spec fn lowered_branches(
    span: Span,
    branches: Seq<Seq<FactModel>>,
    k: nat,
    env: Env,
    n: nat,
) -> Outcome<Seq<Seq<FactModel>>>
    decreases branches, k,
{
    if k == 0 || k > branches.len() {
        Outcome { result: Ok(seq![]), aux: seq![], next: n }
    } else {
        let before = lowered_branches(span, branches, (k - 1) as nat, env, n);
        match before.result {
            Err(e) => before,
            Ok(done) => if branches[k - 1].len() == 0 {
                Outcome { result: Err(TypeErrorModel::EmptyOrBranch(span)), ..before }
            } else {
                let branch = lowered_facts(
                    branches[k - 1],
                    branches[k - 1].len(),
                    branch_env(span, branches, k - 1, env),
                    before.next,
                );
                Outcome {
                    result: match branch.result {
                        Err(e) => Err(e),
                        Ok(fs) => Ok(done.push(fs)),
                    },
                    aux: before.aux + branch.aux,
                    next: branch.next,
                }
            },
        }
    }
}

/// The lowering of a disjunction: its branches are lowered first, so the relations they
/// need are declared before the rules that reference them.
pub open spec fn lowered_or(
    span: Span,
    branches: Seq<Seq<FactModel>>,
    env: Env,
    n: nat,
) -> Outcome<FactModel>
    decreases branches, branches.len() + 1,
{
    let inner = lowered_branches(span, branches, branches.len(), env, n);
    match inner.result {
        Err(e) => Outcome { result: Err(e), aux: inner.aux, next: inner.next },
        Ok(done) => {
            let or = materialized(span, done, env, inner.next);
            Outcome { aux: inner.aux + or.aux, ..or }
        },
    }
}

/// The facts that surround the facts of a conjunction, in the conjunction's own
/// disjunctions.
fn extended_context(facts: &Vec<Fact>, context: &Vec<Fact>) -> (all: Vec<Fact>)
    ensures
        fact_models(all@) == fact_models(context@) + plain_facts(fact_models(facts@)),
{
    broadcast use group_models;

    let ghost fs = fact_models(facts@);
    let ghost plain = |f: FactModel| !is_or(f);
    let mut all = clone_facts(context);
    let mut i: usize = 0;
    proof {
        reveal(Seq::filter);
        assert(fs.take(0).filter(plain) =~= Seq::<FactModel>::empty());
        assert(fact_models(all@) =~= fact_models(context@) + fs.take(0).filter(plain));
    }
    while i < facts.len()
        invariant
            i <= facts.len(),
            fs == fact_models(facts@),
            plain == (|f: FactModel| !is_or(f)),
            fact_models(all@) == fact_models(context@) + fs.take(i as int).filter(plain),
        decreases facts.len() - i,
    {
        let ghost before = all@;
        let is_disjunction = match &facts[i] {
            Fact::Or(_, _) => true,
            _ => false,
        };
        if !is_disjunction {
            all.push(facts[i].clone());
            assert(fact_models(all@) =~= fact_models(before).push(fs[i as int]));
        }
        proof {
            reveal(Seq::filter);
            assert(fs.take(i + 1).drop_last() =~= fs.take(i as int));
            assert(fact_models(all@) =~= fact_models(context@) + fs.take(i + 1).filter(plain));
        }
        i = i + 1;
    }
    assert(fs.take(i as int) =~= fs);
    all
}

/// The visible variables of each fact of a conjunction.
fn facts_visible_vars(facts: &Vec<Fact>, bound: &VarSet) -> (sets: Vec<VarSet>)
    ensures
        sets.len() == facts.len(),
        forall|j: int|
            0 <= j < sets.len() ==> #[trigger] sets[j]@.to_set() == visible_vars(
                fact_models(facts@)[j],
                bound@.to_set(),
            ),
{
    broadcast use group_models;

    let mut sets: Vec<VarSet> = Vec::new();
    let mut i: usize = 0;
    while i < facts.len()
        invariant
            i <= facts.len(),
            sets.len() == i,
            forall|j: int|
                0 <= j < i ==> #[trigger] sets[j]@.to_set() == visible_vars(
                    fact_models(facts@)[j],
                    bound@.to_set(),
                ),
        decreases facts.len() - i,
    {
        sets.push(visible_fact_vars(&facts[i], bound));
        i = i + 1;
    }
    sets
}

/// Everything outside the `i`-th fact: the enclosing scope plus the other facts of the
/// list.
fn outside_vars(sets: &Vec<VarSet>, i: usize, external: &VarSet) -> (outside: VarSet)
    ensures
        forall|v: Name| #[trigger]
            outside@.contains(v) <==> external@.contains(v) || exists|j: int|
                0 <= j < sets.len() && j != i && (#[trigger] sets[j])@.contains(v),
{
    let mut outside = external.clone();
    let mut j: usize = 0;
    while j < sets.len()
        invariant
            j <= sets.len(),
            forall|v: Name| #[trigger]
                outside@.contains(v) <==> external@.contains(v) || exists|k: int|
                    0 <= k < j && k != i && (#[trigger] sets[k])@.contains(v),
        decreases sets.len() - j,
    {
        let ghost before = outside@;
        if j != i {
            outside.extend(&sets[j]);
        }
        proof {
            assert forall|v: Name| #[trigger]
                outside@.contains(v) <==> external@.contains(v) || exists|k: int|
                    0 <= k < j + 1 && k != i && (#[trigger] sets[k])@.contains(v) by {
                lemma_with_all_contains(before, sets[j as int]@, v);
                assert(before.contains(v) <==> external@.contains(v) || exists|k: int|
                    0 <= k < j && k != i && (#[trigger] sets[k])@.contains(v));
            }
        }
        j = j + 1;
    }
    outside
}

/// Lowers every `or` in a list of facts, pushing the generated relations and auxiliary
/// rules onto `aux` and returning the disjunction-free facts.
///
/// `around` says what surrounds the list: the variables visible outside it (the
/// enclosing scope and the actions), which a branch-local variable must not be among,
/// and the enclosing conjunctions. `renaming` holds the names that variables have in the
/// typing query, and `queried` hands out the names that the query used from here on.
pub fn lower_fact_list(
    facts: &Vec<Fact>,
    around: &Surroundings,
    ruleset: &String,
    var_sorts: &SortMap,
    renaming: &Renaming,
    queried: &mut SymbolGen,
    symbol_gen: &mut SymbolGen,
    aux: &mut Vec<Command>,
) -> (result: Result<Vec<Fact>, Error>)
    requires
        all_plain(fact_models(around.context@)),
        old(queried).reserved() == old(symbol_gen).reserved(),
    ensures
        final(queried).reserved() == old(queried).reserved(),
        final(symbol_gen).reserved() == old(symbol_gen).reserved(),
        ({
            let outcome = lowered_facts(
                fact_models(facts@),
                fact_models(facts@).len(),
                env_of(
                    around,
                    ruleset@,
                    var_sorts@,
                    renaming@,
                    old(symbol_gen).reserved(),
                    old(queried).count(),
                ),
                old(symbol_gen).count(),
            );
            &&& final(symbol_gen).count() == outcome.next
            &&& command_models(final(aux)@) == command_models(old(aux)@) + outcome.aux
            &&& match result {
                Ok(fs) => outcome.result == Ok::<Seq<FactModel>, TypeErrorModel>(
                    fact_models(fs@),
                ),
                Err(e) => outcome.result == Err::<Seq<FactModel>, TypeErrorModel>(e@),
            }
        }),
        result is Ok ==> final(queried).count() == flattened(
            fact_models(facts@),
            fact_models(facts@).len(),
            around.bound@.to_set(),
            renaming@,
            old(queried).reserved(),
            old(queried).count(),
        ).1,
    decreases facts,
{
    broadcast use group_models;

    let ghost fs = fact_models(facts@);
    let ghost env = env_of(
        around,
        ruleset@,
        var_sorts@,
        renaming@,
        symbol_gen.reserved(),
        queried.count(),
    );
    let ghost n = symbol_gen.count();
    let bound = bound_vars(facts, &around.bound);
    let context = extended_context(facts, &around.context);
    let fact_vars = facts_visible_vars(facts, &bound);
    let mut inner = Surroundings { outside: around.outside.clone(), bound, context };
    let mut new_facts: Vec<Fact> = Vec::new();
    let mut i: usize = 0;
    proof {
        lemma_context_plain(fs, env.context);
        assert(fact_models(new_facts@) =~= Seq::<FactModel>::empty());
        assert(command_models(aux@) =~= command_models(old(aux)@) + Seq::<CommandModel>::empty());
    }
    while i < facts.len()
        invariant
            i <= facts.len(),
            symbol_gen.reserved() == old(symbol_gen).reserved(),
            queried.reserved() == old(queried).reserved(),
            old(queried).reserved() == old(symbol_gen).reserved(),
            queried.count() == flattened(
                fs,
                i as nat,
                env.bound,
                renaming@,
                env.reserved,
                env.queried,
            ).1,
            fs == fact_models(facts@),
            env == env_of(
                    around,
                    ruleset@,
                    var_sorts@,
                    renaming@,
                    old(symbol_gen).reserved(),
                    old(queried).count(),
                ),
            n == old(symbol_gen).count(),
            inner.bound@.to_set() == scope(env.bound, fs),
            fact_models(inner.context@) == env.context + plain_facts(fs),
            all_plain(fact_models(inner.context@)),
            fact_vars.len() == facts.len(),
            forall|j: int|
                0 <= j < fact_vars.len() ==> #[trigger] fact_vars[j]@.to_set() == visible_vars(
                    fs[j],
                    scope(env.bound, fs),
                ),
            ({
                let outcome = lowered_facts(fs, i as nat, env, n);
                &&& symbol_gen.count() == outcome.next
                &&& command_models(aux@) == command_models(old(aux)@) + outcome.aux
                &&& outcome.result == Ok::<Seq<FactModel>, TypeErrorModel>(
                    fact_models(new_facts@),
                )
            }),
        decreases facts.len() - i,
    {
        let ghost before = lowered_facts(fs, i as nat, env, n);
        let ghost done = new_facts@;
        let ghost aux_before = aux@;
        match &facts[i] {
            Fact::Or(span, branches) => {
                inner.outside = outside_vars(&fact_vars, i, &around.outside);
                let ghost or_env = surroundings_of(fs, i as int, env);
                proof {
                    assert forall|v: Name|
                        inner.outside@.to_set().contains(v) <==> #[trigger] or_env.outside.contains(
                            v,
                        ) by {
                        assert(inner.outside@.contains(v) <==> around.outside@.contains(v)
                            || exists|j: int|
                            0 <= j < fact_vars.len() && j != i && (
                            #[trigger] fact_vars[j])@.contains(v));
                        assert forall|j: int|
                            0 <= j < fact_vars.len() implies ((#[trigger] fact_vars[j])@.contains(v)
                            <==> visible(fs[j], scope(env.bound, fs), v)) by {
                            assert(fact_vars[j]@.to_set().contains(v) <==> visible_vars(
                                fs[j],
                                scope(env.bound, fs),
                            ).contains(v));
                        }
                        if or_env.outside.contains(v) && !around.outside@.contains(v) {
                            let j = choose|j: int|
                                0 <= j < fs.len() && j != i && visible(
                                    #[trigger] fs[j],
                                    scope(env.bound, fs),
                                    v,
                                );
                            assert(fact_vars[j]@.contains(v));
                        }
                        if inner.outside@.contains(v) && !around.outside@.contains(v) {
                            let j = choose|j: int|
                                0 <= j < fact_vars.len() && j != i && (
                                #[trigger] fact_vars[j])@.contains(v);
                            assert(visible(fs[j], scope(env.bound, fs), v));
                        }
                    }
                    assert(inner.outside@.to_set() =~= or_env.outside);
                    assert(env_of(
                        &inner,
                        ruleset@,
                        var_sorts@,
                        renaming@,
                        symbol_gen.reserved(),
                        queried.count(),
                    ) == or_env);
                    assert(fs[i as int] == FactModel::Or(*span, branch_models(branches@)));
                }
                match lower_or(
                    *span,
                    branches,
                    &inner,
                    ruleset,
                    var_sorts,
                    renaming,
                    queried,
                    symbol_gen,
                    aux,
                ) {
                    Ok(f) => {
                        new_facts.push(f);
                        proof {
                            assert(fact_models(new_facts@) =~= fact_models(done).push(f@));
                        }
                    },
                    Err(e) => {
                        proof {
                            let or = lowered_or(
                                *span,
                                branch_models(branches@),
                                or_env,
                                before.next,
                            );
                            assert(command_models(aux@) =~= command_models(old(aux)@) + (before.aux
                                + or.aux));
                            lemma_error_stays(fs, (i + 1) as nat, fs.len(), env, n);
                        }
                        return Err(e);
                    },
                }
                proof {
                    let or = lowered_or(*span, branch_models(branches@), or_env, before.next);
                    assert(command_models(aux@) =~= command_models(old(aux)@) + (before.aux
                        + or.aux));
                }
            },
            other => {
                new_facts.push(other.clone());
                proof {
                    assert(fact_models(new_facts@) =~= fact_models(done).push(fs[i as int]));
                }
            },
        }
        i = i + 1;
    }
    Ok(new_facts)
}

/// The facts that surround the facts of a conjunction are plain.
proof fn lemma_context_plain(fs: Seq<FactModel>, context: Seq<FactModel>)
    requires
        all_plain(context),
    ensures
        all_plain(context + plain_facts(fs)),
{
    let all = context + plain_facts(fs);
    lemma_plain_facts(fs);
    assert forall|i: int| 0 <= i < all.len() implies !is_or(#[trigger] all[i]) by {
        if i < context.len() {
            assert(all[i] == context[i]);
        } else {
            assert(all[i] == plain_facts(fs)[i - context.len()]);
        }
    }
}

proof fn lemma_error_stays(fs: Seq<FactModel>, k: nat, m: nat, env: Env, n: nat)
    requires
        k <= m <= fs.len(),
        lowered_facts(fs, k, env, n).result is Err,
    ensures
        lowered_facts(fs, m, env, n) == lowered_facts(fs, k, env, n),
    decreases m - k,
{
    if k < m {
        lemma_error_stays(fs, k, (m - 1) as nat, env, n);
    }
}

proof fn lemma_branch_error_stays(
    span: Span,
    branches: Seq<Seq<FactModel>>,
    k: nat,
    m: nat,
    env: Env,
    n: nat,
)
    requires
        k <= m <= branches.len(),
        lowered_branches(span, branches, k, env, n).result is Err,
    ensures
        lowered_branches(span, branches, m, env, n) == lowered_branches(span, branches, k, env, n),
    decreases m - k,
{
    if k < m {
        lemma_branch_error_stays(span, branches, k, (m - 1) as nat, env, n);
    }
}

/// Lowers one `or`, pushing its relation and the rules of its branches onto `aux` and
/// returning the atom that stands for it.
pub fn lower_or(
    span: Span,
    branches: &Vec<Vec<Fact>>,
    around: &Surroundings,
    ruleset: &String,
    var_sorts: &SortMap,
    renaming: &Renaming,
    queried: &mut SymbolGen,
    symbol_gen: &mut SymbolGen,
    aux: &mut Vec<Command>,
) -> (result: Result<Fact, Error>)
    requires
        all_plain(fact_models(around.context@)),
        old(queried).reserved() == old(symbol_gen).reserved(),
    ensures
        final(queried).reserved() == old(queried).reserved(),
        final(symbol_gen).reserved() == old(symbol_gen).reserved(),
        ({
            let outcome = lowered_or(
                span,
                branch_models(branches@),
                env_of(
                    around,
                    ruleset@,
                    var_sorts@,
                    renaming@,
                    old(symbol_gen).reserved(),
                    old(queried).count(),
                ),
                old(symbol_gen).count(),
            );
            &&& final(symbol_gen).count() == outcome.next
            &&& command_models(final(aux)@) == command_models(old(aux)@) + outcome.aux
            &&& match result {
                Ok(fact) => outcome.result == Ok::<FactModel, TypeErrorModel>(fact@),
                Err(e) => outcome.result == Err::<FactModel, TypeErrorModel>(e@),
            }
        }),
        result is Ok ==> final(queried).count() == flattened_branches(
            span,
            branch_models(branches@),
            branches@.len(),
            around.bound@.to_set(),
            renaming@,
            old(queried).reserved(),
            old(queried).count(),
        ).1,
    decreases branches,
{
    broadcast use group_models;

    let ghost bs = branch_models(branches@);
    let ghost env = env_of(
        around,
        ruleset@,
        var_sorts@,
        renaming@,
        symbol_gen.reserved(),
        queried.count(),
    );
    let ghost n = symbol_gen.count();
    let seen = visible_branches_vars(branches, &around.bound);
    let mut lowered: Vec<Vec<Fact>> = Vec::new();
    let mut i: usize = 0;
    proof {
        assert(branch_models(lowered@) =~= Seq::<Seq<FactModel>>::empty());
        assert(command_models(aux@) =~= command_models(old(aux)@) + Seq::<CommandModel>::empty());
    }
    while i < branches.len()
        invariant
            i <= branches.len(),
            bs == branch_models(branches@),
            all_plain(fact_models(around.context@)),
            symbol_gen.reserved() == old(symbol_gen).reserved(),
            queried.reserved() == old(queried).reserved(),
            old(queried).reserved() == old(symbol_gen).reserved(),
            queried.count() == flattened_branches(
                span,
                bs,
                i as nat,
                env.bound,
                renaming@,
                env.reserved,
                env.queried,
            ).1,
            seen@.to_set() == visible_vars(FactModel::Or(span, bs), env.bound),
            env == env_of(
                    around,
                    ruleset@,
                    var_sorts@,
                    renaming@,
                    old(symbol_gen).reserved(),
                    old(queried).count(),
                ),
            n == old(symbol_gen).count(),
            lowered.len() == i,
            ({
                let outcome = lowered_branches(span, bs, i as nat, env, n);
                &&& symbol_gen.count() == outcome.next
                &&& command_models(aux@) == command_models(old(aux)@) + outcome.aux
                &&& outcome.result == Ok::<Seq<Seq<FactModel>>, TypeErrorModel>(
                    branch_models(lowered@),
                )
            }),
        decreases branches.len() - i,
    {
        let ghost before = lowered_branches(span, bs, i as nat, env, n);
        let ghost done = lowered@;
        if branches[i].len() == 0 {
            proof {
                lemma_branch_error_stays(span, bs, (i + 1) as nat, bs.len(), env, n);
            }
            return Err(Error::TypeError(TypeError::EmptyOrBranch(span)));
        }
        let locals = branch_locals(span, branches, i, &around.bound, &seen);
        let branch_renaming = renaming.with_fresh(&locals, queried);
        let ghost inner_env = branch_env(span, bs, i as int, env);
        proof {
            assert(env_of(
                around,
                ruleset@,
                var_sorts@,
                branch_renaming@,
                symbol_gen.reserved(),
                queried.count(),
            ) == inner_env);
        }
        match lower_fact_list(
            &branches[i],
            around,
            ruleset,
            var_sorts,
            &branch_renaming,
            queried,
            symbol_gen,
            aux,
        ) {
            Ok(fs) => {
                lowered.push(fs);
                proof {
                    assert(branch_models(lowered@) =~= branch_models(done).push(
                        fact_models(fs@),
                    ));
                }
            },
            Err(e) => {
                proof {
                    let b = lowered_facts(bs[i as int], bs[i as int].len(), inner_env, before.next);
                    assert(command_models(aux@) =~= command_models(old(aux)@) + (before.aux
                        + b.aux));
                    lemma_branch_error_stays(span, bs, (i + 1) as nat, bs.len(), env, n);
                }
                return Err(e);
            },
        }
        proof {
            let b = lowered_facts(bs[i as int], bs[i as int].len(), inner_env, before.next);
            assert(command_models(aux@) =~= command_models(old(aux)@) + (before.aux + b.aux));
        }
        i = i + 1;
    }
    let ghost inner = lowered_branches(span, bs, bs.len(), env, n);
    proof {
        lemma_lowered_branches_vars(span, bs, bs.len(), env, n);
    }
    let result = materialize(
        span,
        &lowered,
        around,
        ruleset,
        var_sorts,
        renaming,
        symbol_gen,
        aux,
    );
    proof {
        let or = materialized(span, branch_models(lowered@), env, inner.next);
        assert(command_models(aux@) =~= command_models(old(aux)@) + (inner.aux + or.aux));
    }
    result
}

} // verus!
