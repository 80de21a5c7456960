//! Which variables of a disjunction can be seen from outside it.
//!
//! The variables that occur in the plain facts of a conjunction are bound by it, and
//! stay bound inside every disjunction of that conjunction. A variable of a branch is
//! visible outside its disjunction when the surrounding conjunctions bind it or when
//! every branch has it. Any other variable is local to its branch.

use vstd::prelude::*;

use crate::ast::{branch_models, fact_models, group_models, Fact, FactModel, Name, Span};
use crate::vars::{
    accumulate_fact_vars, fact_occurrences, is_key_var, key_var, lemma_push_contains,
    lemma_with_all_contains, var_sets, with, VarSet,
};

verus! {

pub open spec fn is_or(f: FactModel) -> bool {
    f is Or
}

/// A conjunction without disjunctions.
pub open spec fn all_plain(fs: Seq<FactModel>) -> bool {
    forall|i: int| 0 <= i < fs.len() ==> !is_or(#[trigger] fs[i])
}

/// The variables bound inside a conjunction: those bound around it and those of its
/// plain facts.
pub open spec fn scope(bound: Set<Name>, fs: Seq<FactModel>) -> Set<Name> {
    Set::new(
        |v: Name|
            bound.contains(v) || exists|i: int|
                0 <= i < fs.len() && !is_or(#[trigger] fs[i]) && fact_occurrences(
                    fs[i],
                ).contains(v),
    )
}

/// Whether a variable of a fact can be seen outside it, where `bound` holds the
/// variables bound inside the conjunction that the fact belongs to.
pub open spec fn visible(f: FactModel, bound: Set<Name>, v: Name) -> bool
    decreases f,
{
    match f {
        FactModel::Or(_, branches) => {
            &&& exists|i: int|
                0 <= i < branches.len() && visible_in(#[trigger] branches[i], bound, v)
            &&& bound.contains(v) || forall|i: int|
                0 <= i < branches.len() ==> visible_in(#[trigger] branches[i], bound, v)
        },
        _ => fact_occurrences(f).contains(v),
    }
}

/// Whether a variable can be seen outside a conjunction, where `bound` holds the
/// variables bound around it.
pub open spec fn visible_in(fs: Seq<FactModel>, bound: Set<Name>, v: Name) -> bool
    decreases fs,
{
    exists|i: int| 0 <= i < fs.len() && visible(#[trigger] fs[i], scope(bound, fs), v)
}

/// The visible variables of a fact.
pub open spec fn visible_vars(f: FactModel, bound: Set<Name>) -> Set<Name> {
    Set::new(|v: Name| visible(f, bound, v))
}

/// The visible variables of a conjunction.
pub open spec fn visible_vars_in(fs: Seq<FactModel>, bound: Set<Name>) -> Set<Name> {
    Set::new(|v: Name| visible_in(fs, bound, v))
}

/// Adds the variables of the plain facts of a conjunction to those bound around it.
pub fn bound_vars(facts: &Vec<Fact>, bound: &VarSet) -> (inner: VarSet)
    ensures
        inner@.to_set() == scope(bound@.to_set(), fact_models(facts@)),
{
    broadcast use group_models;

    let ghost fs = fact_models(facts@);
    let mut inner: VarSet = bound.clone();
    let mut i: usize = 0;
    assert(inner@.to_set() =~= scope(bound@.to_set(), fs.take(0)));
    while i < facts.len()
        invariant
            i <= facts.len(),
            fs == fact_models(facts@),
            inner@.to_set() == scope(bound@.to_set(), fs.take(i as int)),
        decreases facts.len() - i,
    {
        let ghost before = inner@;
        let is_disjunction = match &facts[i] {
            Fact::Or(_, _) => true,
            _ => false,
        };
        if !is_disjunction {
            accumulate_fact_vars(&facts[i], &mut inner);
        }
        proof {
            let f = fs[i as int];
            assert(fs.take(i + 1) =~= fs.take(i as int).push(f));
            assert forall|v: Name|
                inner@.to_set().contains(v) <==> #[trigger] scope(
                    bound@.to_set(),
                    fs.take(i + 1),
                ).contains(v) by {
                lemma_with_all_contains(before, fact_occurrences(f), v);
                lemma_scope_push(bound@.to_set(), fs.take(i as int), f, v);
            }
            assert(inner@.to_set() =~= scope(bound@.to_set(), fs.take(i + 1)));
        }
        i = i + 1;
    }
    assert(fs.take(i as int) =~= fs);
    inner
}

proof fn lemma_scope_push(bound: Set<Name>, fs: Seq<FactModel>, f: FactModel, v: Name)
    ensures
        scope(bound, fs.push(f)).contains(v) <==> scope(bound, fs).contains(v) || (!is_or(f)
            && fact_occurrences(f).contains(v)),
{
    let all = fs.push(f);
    if scope(bound, fs).contains(v) && !bound.contains(v) {
        let i = choose|i: int|
            0 <= i < fs.len() && !is_or(#[trigger] fs[i]) && fact_occurrences(fs[i]).contains(v);
        assert(all[i] == fs[i]);
    }
    if !is_or(f) && fact_occurrences(f).contains(v) {
        assert(all[fs.len() as int] == f);
    }
    if scope(bound, all).contains(v) && !bound.contains(v) {
        let i = choose|i: int|
            0 <= i < all.len() && !is_or(#[trigger] all[i]) && fact_occurrences(all[i]).contains(v);
        if i < fs.len() {
            assert(all[i] == fs[i]);
        }
    }
}

/// The visible variables of a fact, where `bound` holds the variables bound inside the
/// conjunction that it belongs to.
pub fn visible_fact_vars(fact: &Fact, bound: &VarSet) -> (vars: VarSet)
    ensures
        vars@.to_set() == visible_vars(fact@, bound@.to_set()),
    decreases fact,
{
    broadcast use group_models;

    match fact {
        Fact::Or(span, branches) => {
            let vars = visible_branches_vars(branches, bound);
            assert(fact@ == FactModel::Or(*span, branch_models(branches@)));
            vars
        },
        _ => {
            let mut out: VarSet = VarSet::new();
            accumulate_fact_vars(fact, &mut out);
            proof {
                assert forall|v: Name|
                    out@.to_set().contains(v) <==> #[trigger] visible_vars(
                        fact@,
                        bound@.to_set(),
                    ).contains(v) by {
                    lemma_with_all_contains(seq![], fact_occurrences(fact@), v);
                }
                assert(out@.to_set() =~= visible_vars(fact@, bound@.to_set()));
            }
            out
        },
    }
}

/// The visible variables of a disjunction with the given branches, likewise.
pub fn visible_branches_vars(branches: &Vec<Vec<Fact>>, bound: &VarSet) -> (vars: VarSet)
    ensures
        forall|span: Span|
            vars@.to_set() == #[trigger] visible_vars(
                FactModel::Or(span, branch_models(branches@)),
                bound@.to_set(),
            ),
    decreases branches,
{
    broadcast use group_models;

    let mut out: VarSet = VarSet::new();
    let ghost bs = branch_models(branches@);
    let ghost b = bound@.to_set();
    let mut sets: Vec<VarSet> = Vec::new();
    let mut i: usize = 0;
    while i < branches.len()
        invariant
            i <= branches.len(),
            bs == branch_models(branches@),
            b == bound@.to_set(),
            sets.len() == i,
            forall|j: int|
                0 <= j < i ==> #[trigger] sets[j]@.to_set() == visible_vars_in(bs[j], b),
        decreases branches.len() - i,
    {
        sets.push(visible_list_vars(&branches[i], bound));
        i = i + 1;
    }
    proof {
        assert(var_sets(sets@) =~= Seq::new(bs.len(), |j: int| visible_vars_in(bs[j], b)));
    }
    i = 0;
    while i < sets.len()
        invariant
            i <= sets.len(),
            sets.len() == bs.len(),
            b == bound@.to_set(),
            var_sets(sets@) == Seq::new(bs.len(), |j: int| visible_vars_in(bs[j], b)),
            forall|v: Name| #[trigger]
                out@.contains(v) <==> key_var(v, b, var_sets(sets@)) && exists|j: int|
                    0 <= j < i && visible_in(#[trigger] bs[j], b, v),
        decreases sets.len() - i,
    {
        keep_key_vars(&sets[i], bound, &sets, &mut out);
        proof {
            assert(var_sets(sets@)[i as int] == sets[i as int]@.to_set());
            assert forall|v: Name| #[trigger] sets[i as int]@.contains(v) implies visible_in(
                bs[i as int],
                b,
                v,
            ) by {
                assert(var_sets(sets@)[i as int].contains(v));
            }
            assert forall|v: Name| #[trigger]
                visible_in(bs[i as int], b, v) implies sets[i as int]@.contains(v) by {
                assert(var_sets(sets@)[i as int].contains(v));
            }
        }
        i = i + 1;
    }
    proof {
        assert forall|span: Span|
            out@.to_set() == #[trigger] visible_vars(FactModel::Or(span, bs), b) by {
            let or = FactModel::Or(span, bs);
            assert forall|v: Name|
                out@.to_set().contains(v) <==> #[trigger] visible_vars(or, b).contains(v) by {
                lemma_key_var_visible(bs, b, v);
                lemma_visible_or(span, bs, b, v);
                assert(out@.contains(v) <==> key_var(v, b, var_sets(sets@)) && exists|j: int|
                    0 <= j < i && visible_in(#[trigger] bs[j], b, v));
            }
            assert(out@.to_set() =~= visible_vars(or, b));
        }
    }
    out
}

/// What can be seen outside a disjunction, said of its branches.
pub proof fn lemma_visible_or(
    span: Span,
    bs: Seq<Seq<FactModel>>,
    bound: Set<Name>,
    v: Name,
)
    ensures
        visible(FactModel::Or(span, bs), bound, v) <==> {
            &&& exists|i: int| 0 <= i < bs.len() && visible_in(#[trigger] bs[i], bound, v)
            &&& bound.contains(v) || forall|i: int|
                0 <= i < bs.len() ==> visible_in(#[trigger] bs[i], bound, v)
        },
{
    match FactModel::Or(span, bs) {
        FactModel::Or(_, branches) => {
            if exists|i: int| 0 <= i < bs.len() && visible_in(#[trigger] bs[i], bound, v) {
                let i = choose|i: int| 0 <= i < bs.len() && visible_in(#[trigger] bs[i], bound, v);
                assert(visible_in(branches[i], bound, v));
            }
        },
        _ => {},
    }
}

proof fn lemma_key_var_visible(bs: Seq<Seq<FactModel>>, b: Set<Name>, v: Name)
    ensures
        key_var(v, b, Seq::new(bs.len(), |j: int| visible_vars_in(bs[j], b))) <==> b.contains(v)
            || forall|i: int| 0 <= i < bs.len() ==> visible_in(#[trigger] bs[i], b, v),
{
    let sets = Seq::new(bs.len(), |j: int| visible_vars_in(bs[j], b));
    if key_var(v, b, sets) && !b.contains(v) {
        assert forall|i: int| 0 <= i < bs.len() implies visible_in(#[trigger] bs[i], b, v) by {
            assert(sets[i].contains(v));
        }
    }
    if forall|i: int| 0 <= i < bs.len() ==> visible_in(#[trigger] bs[i], b, v) {
        assert forall|i: int| 0 <= i < sets.len() implies (#[trigger] sets[i]).contains(v) by {
            assert(visible_in(bs[i], b, v));
        }
    }
}

/// Adds the key variables among the given ones to a set.
fn keep_key_vars(vars: &VarSet, bound: &VarSet, sets: &Vec<VarSet>, out: &mut VarSet)
    ensures
        forall|v: Name| #[trigger]
            final(out)@.contains(v) <==> old(out)@.contains(v) || (vars@.contains(v) && key_var(
                v,
                bound@.to_set(),
                var_sets(sets@),
            )),
{
    let mut i: usize = 0;
    while i < vars.len()
        invariant
            i <= vars@.len(),
            forall|v: Name| #[trigger]
                out@.contains(v) <==> old(out)@.contains(v) || (vars@.take(i as int).contains(v)
                    && key_var(v, bound@.to_set(), var_sets(sets@))),
        decreases vars@.len() - i,
    {
        let ghost before = out@;
        let v = vars.get(i);
        if is_key_var(v, bound, sets) {
            out.insert(v.clone());
        }
        proof {
            assert(vars@.take(i + 1) =~= vars@.take(i as int).push(v@));
            assert forall|w: Name| #[trigger]
                out@.contains(w) <==> old(out)@.contains(w) || (vars@.take(i + 1).contains(w)
                    && key_var(w, bound@.to_set(), var_sets(sets@))) by {
                lemma_push_contains(vars@.take(i as int), v@, w);
                lemma_push_contains(before, v@, w);
                assert(before.contains(w) <==> old(out)@.contains(w) || (vars@.take(
                    i as int,
                ).contains(w) && key_var(w, bound@.to_set(), var_sets(sets@))));
            }
        }
        i = i + 1;
    }
    assert(vars@.take(i as int) =~= vars@);
}

/// The visible variables of a conjunction, where `bound` holds the variables bound
/// around it.
pub fn visible_list_vars(facts: &Vec<Fact>, bound: &VarSet) -> (vars: VarSet)
    ensures
        vars@.to_set() == visible_vars_in(fact_models(facts@), bound@.to_set()),
    decreases facts,
{
    broadcast use group_models;

    let ghost fs = fact_models(facts@);
    let inner = bound_vars(facts, bound);
    let ghost b = inner@.to_set();
    let mut out: VarSet = VarSet::new();
    let mut i: usize = 0;
    while i < facts.len()
        invariant
            i <= facts.len(),
            fs == fact_models(facts@),
            b == inner@.to_set(),
            b == scope(bound@.to_set(), fs),
            forall|v: Name| #[trigger]
                out@.contains(v) <==> exists|j: int|
                    0 <= j < i && visible(#[trigger] fs[j], b, v),
        decreases facts.len() - i,
    {
        let ghost before = out@;
        let vars = visible_fact_vars(&facts[i], &inner);
        out.extend(&vars);
        proof {
            assert forall|v: Name| #[trigger]
                out@.contains(v) <==> exists|j: int|
                    0 <= j < i + 1 && visible(#[trigger] fs[j], b, v) by {
                lemma_with_all_contains(before, vars@, v);
                assert(vars@.to_set().contains(v) <==> visible(fs[i as int], b, v));
                assert(before.contains(v) <==> exists|j: int|
                    0 <= j < i && visible(#[trigger] fs[j], b, v));
            }
        }
        i = i + 1;
    }
    proof {
        assert forall|v: Name|
            out@.to_set().contains(v) <==> #[trigger] visible_vars_in(
                fs,
                bound@.to_set(),
            ).contains(v) by {
            assert(out@.contains(v) <==> exists|j: int|
                0 <= j < i && visible(#[trigger] fs[j], b, v));
        }
    }
    assert(out@.to_set() =~= visible_vars_in(fs, bound@.to_set()));
    out
}

} // verus!
