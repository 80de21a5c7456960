//! The variables of expressions, facts and actions.

use vstd::prelude::*;

use crate::ast::{
    branch_models, expr_models, fact_models, group_models, names, Action, ActionModel, Actions,
    Expr, ExprModel, Fact, FactModel, Name,
};
use crate::index_set::{index_set_insert, index_set_items, index_set_new};
use crate::mentions::{
    action_mentions, fact_mentions, facts_mention, law_fact_vars_are_mentioned,
    law_facts_vars_are_mentioned, law_head_vars_are_mentioned,
};
use indexmap::IndexSet;

verus! {

/// Globals start with `$`. They are always in scope and count as no variable.
pub open spec fn is_global_name(v: Name) -> bool {
    v.len() > 0 && v[0] == '$'
}

/// The variables of an expression in the order of their occurrences, repeats included.
pub open spec fn expr_occurrences(e: ExprModel) -> Seq<Name>
    decreases e,
{
    match e {
        ExprModel::Lit(_, _) => seq![],
        ExprModel::Var(_, v) => if is_global_name(v) {
            seq![]
        } else {
            seq![v]
        },
        ExprModel::Call(_, _, args) => exprs_occurrences(args),
    }
}

/// The variables of a list of expressions, likewise.
pub open spec fn exprs_occurrences(es: Seq<ExprModel>) -> Seq<Name>
    decreases es,
{
    if es.len() == 0 {
        seq![]
    } else {
        exprs_occurrences(es.drop_last()) + expr_occurrences(es.last())
    }
}

/// The variables of a fact, likewise; of a disjunction, those of all its branches.
pub open spec fn fact_occurrences(f: FactModel) -> Seq<Name>
    decreases f,
{
    match f {
        FactModel::Eq(_, e1, e2) => expr_occurrences(e1) + expr_occurrences(e2),
        FactModel::Fact(e) => expr_occurrences(e),
        FactModel::Or(_, branches) => branches_occurrences(branches),
    }
}

/// The variables of a conjunction, likewise.
pub open spec fn facts_occurrences(fs: Seq<FactModel>) -> Seq<Name>
    decreases fs,
{
    if fs.len() == 0 {
        seq![]
    } else {
        facts_occurrences(fs.drop_last()) + fact_occurrences(fs.last())
    }
}

/// The variables of a list of conjunctions, likewise.
pub open spec fn branches_occurrences(bs: Seq<Seq<FactModel>>) -> Seq<Name>
    decreases bs,
{
    if bs.len() == 0 {
        seq![]
    } else {
        branches_occurrences(bs.drop_last()) + facts_occurrences(bs.last())
    }
}

/// The expressions of an action, left to right. The name that a `Let` introduces is none.
pub open spec fn action_expr_models(a: ActionModel) -> Seq<ExprModel> {
    match a {
        ActionModel::Let(_, _, e) => seq![e],
        ActionModel::Assign(_, _, args, e) => args.push(e),
        ActionModel::Change(_, _, _, args) => args,
        ActionModel::Union(_, e1, e2) => seq![e1, e2],
        ActionModel::Panic(_, _) => seq![],
        ActionModel::Expr(_, e) => seq![e],
    }
}

/// The variables of a list of actions, likewise.
pub open spec fn actions_occurrences(actions: Seq<ActionModel>) -> Seq<Name>
    decreases actions.len(),
{
    if actions.len() == 0 {
        seq![]
    } else {
        actions_occurrences(actions.drop_last()) + exprs_occurrences(
            action_expr_models(actions.last()),
        )
    }
}

/// An ordered set after the insertion of one value.
pub open spec fn with(items: Seq<Name>, v: Name) -> Seq<Name> {
    if items.contains(v) {
        items
    } else {
        items.push(v)
    }
}

/// An ordered set after the insertion of several values, first to last.
pub open spec fn with_all(items: Seq<Name>, more: Seq<Name>) -> Seq<Name>
    decreases more.len(),
{
    if more.len() == 0 {
        items
    } else {
        with(with_all(items, more.drop_last()), more.last())
    }
}

pub proof fn lemma_with_all_add(items: Seq<Name>, a: Seq<Name>, b: Seq<Name>)
    ensures
        with_all(items, a + b) == with_all(with_all(items, a), b),
    decreases b.len(),
{
    if b.len() == 0 {
        assert(a + b =~= a);
    } else {
        assert((a + b).drop_last() =~= a + b.drop_last());
        lemma_with_all_add(items, a, b.drop_last());
    }
}

pub proof fn lemma_with_all_contains(items: Seq<Name>, more: Seq<Name>, v: Name)
    ensures
        with_all(items, more).contains(v) <==> items.contains(v) || more.contains(v),
    decreases more.len(),
{
    if more.len() > 0 {
        let before = with_all(items, more.drop_last());
        lemma_with_all_contains(items, more.drop_last(), v);
        lemma_push_contains(before, more.last(), v);
        assert(more =~= more.drop_last().push(more.last()));
        lemma_push_contains(more.drop_last(), more.last(), v);
    }
}

/// Insertion keeps a set free of repeats.
pub proof fn lemma_with_all_no_duplicates(items: Seq<Name>, more: Seq<Name>)
    requires
        items.no_duplicates(),
    ensures
        with_all(items, more).no_duplicates(),
    decreases more.len(),
{
    if more.len() > 0 {
        lemma_with_all_no_duplicates(items, more.drop_last());
    }
}

pub proof fn lemma_push_contains<A>(s: Seq<A>, x: A, v: A)
    ensures
        s.push(x).contains(v) <==> s.contains(v) || x == v,
{
    if s.contains(v) {
        let i = choose|i: int| 0 <= i < s.len() && s[i] == v;
        assert(s.push(x)[i] == v);
    }
    if x == v {
        assert(s.push(x)[s.len() as int] == v);
    }
    if s.push(x).contains(v) {
        let i = choose|i: int| 0 <= i < s.push(x).len() && s.push(x)[i] == v;
        if i < s.len() {
            assert(s[i] == v);
        }
    }
}

pub proof fn lemma_add_contains<A>(a: Seq<A>, b: Seq<A>, v: A)
    ensures
        (a + b).contains(v) <==> a.contains(v) || b.contains(v),
{
    if a.contains(v) {
        let i = choose|i: int| 0 <= i < a.len() && a[i] == v;
        assert((a + b)[i] == v);
    }
    if b.contains(v) {
        let i = choose|i: int| 0 <= i < b.len() && b[i] == v;
        assert((a + b)[a.len() + i] == v);
    }
    if (a + b).contains(v) {
        let i = choose|i: int| 0 <= i < (a + b).len() && (a + b)[i] == v;
        if i < a.len() {
            assert(a[i] == v);
        } else {
            assert(b[i - a.len()] == v);
        }
    }
}

/// A set of variables in the order of their insertion.
#[derive(Debug)]
pub struct VarSet {
    items: Vec<String>,
}

impl View for VarSet {
    type V = Seq<Name>;

    closed spec fn view(&self) -> Seq<Name> {
        names(self.items@)
    }
}

/// What each set of a list holds.
pub open spec fn var_sets(sets: Seq<VarSet>) -> Seq<Set<Name>> {
    Seq::new(sets.len(), |i: int| sets[i]@.to_set())
}

impl VarSet {
    /// Nothing occurs twice.
    #[verifier::type_invariant]
    spec fn is_distinct(&self) -> bool {
        self@.no_duplicates()
    }

    /// The empty set.
    pub fn new() -> (set: VarSet)
        ensures
            set@ == Seq::<Name>::empty(),
    {
        let items: Vec<String> = Vec::new();
        assert(names(items@) =~= Seq::<Name>::empty());
        VarSet { items }
    }

    /// How many values the set holds.
    pub fn len(&self) -> (n: usize)
        ensures
            n == self@.len(),
            self@.no_duplicates(),
    {
        proof {
            use_type_invariant(self);
        }
        self.items.len()
    }

    /// The value that was inserted as the `i`-th.
    pub fn get(&self, i: usize) -> (v: &String)
        requires
            i < self@.len(),
        ensures
            v@ == self@[i as int],
    {
        &self.items[i]
    }

    pub fn contains(&self, v: &String) -> (found: bool)
        ensures
            found == self@.contains(v@),
    {
        let mut i: usize = 0;
        while i < self.items.len()
            invariant
                i <= self.items.len(),
                forall|j: int| 0 <= j < i ==> self@[j] != v@,
            decreases self.items.len() - i,
        {
            if self.items[i] == *v {
                assert(self@[i as int] == v@);
                return true;
            }
            i = i + 1;
        }
        false
    }

    /// Inserts a value at the end, unless the set holds it already.
    pub fn insert(&mut self, v: String)
        ensures
            final(self)@ == with(old(self)@, v@),
    {
        if !self.contains(&v) {
            proof {
                use_type_invariant(&*self);
            }
            let ghost before = self@;
            let mut items: Vec<String> = Vec::new();
            assert(names(items@) =~= Seq::<Name>::empty());
            std::mem::swap(&mut items, &mut self.items);
            items.push(v);
            assert(names(items@) =~= before.push(v@));
            self.items = items;
        }
    }

    /// Inserts all values of another set.
    pub fn extend(&mut self, other: &VarSet)
        ensures
            final(self)@ == with_all(old(self)@, other@),
    {
        let mut i: usize = 0;
        while i < other.items.len()
            invariant
                i <= other.items.len(),
                self@ == with_all(old(self)@, other@.take(i as int)),
            decreases other.items.len() - i,
        {
            self.insert(other.items[i].clone());
            assert(other@.take(i + 1).drop_last() =~= other@.take(i as int));
            i = i + 1;
        }
        assert(other@.take(i as int) =~= other@);
    }
}

impl Clone for VarSet {
    fn clone(&self) -> (copy: Self)
        ensures
            copy@ == self@,
    {
        let mut items: Vec<String> = Vec::new();
        let mut i: usize = 0;
        while i < self.items.len()
            invariant
                i <= self.items.len(),
                items.len() == i,
                forall|j: int| 0 <= j < i ==> #[trigger] items[j]@ == self.items[j]@,
            decreases self.items.len() - i,
        {
            items.push(self.items[i].clone());
            i = i + 1;
        }
        proof {
            use_type_invariant(self);
            assert(names(items@) =~= self@);
        }
        VarSet { items }
    }
}

/// Whether a variable of a disjunction is in its key: every branch has it, or the
/// surrounding conjunction binds it.
pub open spec fn key_var(v: Name, bound: Set<Name>, branch_vars: Seq<Set<Name>>) -> bool {
    bound.contains(v) || forall|i: int|
        0 <= i < branch_vars.len() ==> (#[trigger] branch_vars[i]).contains(v)
}

/// Whether a variable that some branch has is in the key of a disjunction, given the
/// variables that the surrounding conjunction binds and those of each branch.
pub fn is_key_var(v: &String, bound: &VarSet, branch_vars: &Vec<VarSet>) -> (r: bool)
    ensures
        r == key_var(v@, bound@.to_set(), var_sets(branch_vars@)),
{
    if bound.contains(v) {
        return true;
    }
    let mut i: usize = 0;
    while i < branch_vars.len()
        invariant
            i <= branch_vars.len(),
            !bound@.contains(v@),
            forall|j: int| 0 <= j < i ==> (#[trigger] var_sets(branch_vars@)[j]).contains(v@),
        decreases branch_vars.len() - i,
    {
        if !branch_vars[i].contains(v) {
            assert(!var_sets(branch_vars@)[i as int].contains(v@));
            return false;
        }
        i = i + 1;
    }
    true
}

/// Whether a name is that of a global.
pub fn is_global(v: &String) -> (r: bool)
    ensures
        r == is_global_name(v@),
{
    let s = v.as_str();
    !s.is_empty() && s.get_char(0) == '$'
}

proof fn lemma_exprs_occurrences_take(es: Seq<ExprModel>, i: int)
    requires
        0 <= i < es.len(),
    ensures
        exprs_occurrences(es.take(i + 1)) == exprs_occurrences(es.take(i)) + expr_occurrences(
            es[i],
        ),
{
    assert(es.take(i + 1).drop_last() =~= es.take(i));
}

proof fn lemma_facts_occurrences_take(fs: Seq<FactModel>, i: int)
    requires
        0 <= i < fs.len(),
    ensures
        facts_occurrences(fs.take(i + 1)) == facts_occurrences(fs.take(i)) + fact_occurrences(
            fs[i],
        ),
{
    assert(fs.take(i + 1).drop_last() =~= fs.take(i));
}

pub proof fn lemma_branches_occurrences_take(bs: Seq<Seq<FactModel>>, i: int)
    requires
        0 <= i < bs.len(),
    ensures
        branches_occurrences(bs.take(i + 1)) == branches_occurrences(bs.take(i))
            + facts_occurrences(bs[i]),
{
    assert(bs.take(i + 1).drop_last() =~= bs.take(i));
}

/// Adds the variables of an expression to a set.
pub fn expr_vars(expr: &Expr, out: &mut VarSet)
    ensures
        final(out)@ == with_all(old(out)@, expr_occurrences(expr@)),
    decreases expr,
{
    match expr {
        Expr::Lit(_, _) => {},
        Expr::Var(_, v) => {
            if !is_global(v) {
                out.insert(v.clone());
                proof {
                    assert(seq![v@].drop_last() =~= Seq::<Name>::empty());
                    assert(with_all(old(out)@, seq![v@].drop_last()) == old(out)@);
                }
            }
        },
        Expr::Call(_, _, args) => exprs_vars(args, out),
    }
}

fn exprs_vars(exprs: &Vec<Expr>, out: &mut VarSet)
    ensures
        final(out)@ == with_all(old(out)@, exprs_occurrences(expr_models(exprs@))),
    decreases exprs,
{
    broadcast use group_models;

    let ghost es = expr_models(exprs@);
    let mut i: usize = 0;
    while i < exprs.len()
        invariant
            i <= exprs.len(),
            es == expr_models(exprs@),
            out@ == with_all(old(out)@, exprs_occurrences(es.take(i as int))),
        decreases exprs.len() - i,
    {
        expr_vars(&exprs[i], out);
        proof {
            lemma_exprs_occurrences_take(es, i as int);
            lemma_with_all_add(
                old(out)@,
                exprs_occurrences(es.take(i as int)),
                expr_occurrences(es[i as int]),
            );
        }
        i = i + 1;
    }
    assert(es.take(i as int) =~= es);
}

/// The variables of a fact; of a disjunction, those of all its branches.
pub fn fact_vars(fact: &Fact) -> (vars: VarSet)
    ensures
        vars@ == with_all(seq![], fact_occurrences(fact@)),
        forall|v: Name| #[trigger]
            vars@.contains(v) <==> fact_mentions(fact@, v) && !is_global_name(v),
{
    let mut out = VarSet::new();
    accumulate_fact_vars(fact, &mut out);
    proof {
        assert forall|v: Name| #[trigger] out@.contains(v) <==> fact_mentions(fact@, v)
            && !is_global_name(v) by {
            lemma_with_all_contains(seq![], fact_occurrences(fact@), v);
            law_fact_vars_are_mentioned(fact@, v);
        }
    }
    out
}

/// Adds the variables of a fact to a set.
pub fn accumulate_fact_vars(fact: &Fact, out: &mut VarSet)
    ensures
        final(out)@ == with_all(old(out)@, fact_occurrences(fact@)),
    decreases fact,
{
    match fact {
        Fact::Eq(_, e1, e2) => {
            expr_vars(e1, out);
            expr_vars(e2, out);
            proof {
                lemma_with_all_add(old(out)@, expr_occurrences(e1@), expr_occurrences(e2@));
            }
        },
        Fact::Fact(e) => expr_vars(e, out),
        Fact::Or(_, branches) => accumulate_branches_vars(branches, out),
    }
}

fn accumulate_facts_vars(facts: &Vec<Fact>, out: &mut VarSet)
    ensures
        final(out)@ == with_all(old(out)@, facts_occurrences(fact_models(facts@))),
    decreases facts,
{
    broadcast use group_models;

    let ghost fs = fact_models(facts@);
    let mut i: usize = 0;
    while i < facts.len()
        invariant
            i <= facts.len(),
            fs == fact_models(facts@),
            out@ == with_all(old(out)@, facts_occurrences(fs.take(i as int))),
        decreases facts.len() - i,
    {
        accumulate_fact_vars(&facts[i], out);
        proof {
            lemma_facts_occurrences_take(fs, i as int);
            lemma_with_all_add(
                old(out)@,
                facts_occurrences(fs.take(i as int)),
                fact_occurrences(fs[i as int]),
            );
        }
        i = i + 1;
    }
    assert(fs.take(i as int) =~= fs);
}

fn accumulate_branches_vars(branches: &Vec<Vec<Fact>>, out: &mut VarSet)
    ensures
        final(out)@ == with_all(old(out)@, branches_occurrences(branch_models(branches@))),
    decreases branches,
{
    broadcast use group_models;

    let ghost bs = branch_models(branches@);
    let mut i: usize = 0;
    while i < branches.len()
        invariant
            i <= branches.len(),
            bs == branch_models(branches@),
            out@ == with_all(old(out)@, branches_occurrences(bs.take(i as int))),
        decreases branches.len() - i,
    {
        accumulate_facts_vars(&branches[i], out);
        proof {
            lemma_branches_occurrences_take(bs, i as int);
            lemma_with_all_add(
                old(out)@,
                branches_occurrences(bs.take(i as int)),
                facts_occurrences(bs[i as int]),
            );
        }
        i = i + 1;
    }
    assert(bs.take(i as int) =~= bs);
}

/// The variables of a conjunction.
pub fn fact_list_vars(facts: &Vec<Fact>) -> (vars: VarSet)
    ensures
        vars@ == with_all(seq![], facts_occurrences(fact_models(facts@))),
        forall|v: Name| #[trigger]
            vars@.contains(v) <==> facts_mention(fact_models(facts@), v) && !is_global_name(v),
{
    let mut out = VarSet::new();
    accumulate_facts_vars(facts, &mut out);
    proof {
        let fs = fact_models(facts@);
        assert forall|v: Name| #[trigger] out@.contains(v) <==> facts_mention(fs, v)
            && !is_global_name(v) by {
            lemma_with_all_contains(seq![], facts_occurrences(fs), v);
            law_facts_vars_are_mentioned(fs, v);
        }
    }
    out
}

/// Variables of a conjunction in first-appearance order.
pub fn ordered_vars(facts: &Vec<Fact>) -> (vars: IndexSet<String>)
    ensures
        index_set_items(vars) == with_all(seq![], facts_occurrences(fact_models(facts@))),
{
    let mut out: IndexSet<String> = index_set_new();
    accumulate_facts_vars_ordered(facts, &mut out);
    out
}

/// Adds the variables of a fact to an ordered set.
pub fn accumulate_fact_vars_ordered(fact: &Fact, out: &mut IndexSet<String>)
    ensures
        index_set_items(*final(out)) == with_all(
            index_set_items(*old(out)),
            fact_occurrences(fact@),
        ),
    decreases fact,
{
    match fact {
        Fact::Eq(_, e1, e2) => {
            expr_vars_ordered(e1, out);
            expr_vars_ordered(e2, out);
            proof {
                lemma_with_all_add(
                    index_set_items(*old(out)),
                    expr_occurrences(e1@),
                    expr_occurrences(e2@),
                );
            }
        },
        Fact::Fact(e) => expr_vars_ordered(e, out),
        Fact::Or(_, branches) => accumulate_branches_vars_ordered(branches, out),
    }
}

pub(crate) fn accumulate_facts_vars_ordered(facts: &Vec<Fact>, out: &mut IndexSet<String>)
    ensures
        index_set_items(*final(out)) == with_all(
            index_set_items(*old(out)),
            facts_occurrences(fact_models(facts@)),
        ),
    decreases facts,
{
    broadcast use group_models;

    let ghost fs = fact_models(facts@);
    let ghost before = index_set_items(*out);
    let mut i: usize = 0;
    while i < facts.len()
        invariant
            i <= facts.len(),
            fs == fact_models(facts@),
            index_set_items(*out) == with_all(before, facts_occurrences(fs.take(i as int))),
        decreases facts.len() - i,
    {
        accumulate_fact_vars_ordered(&facts[i], out);
        proof {
            lemma_facts_occurrences_take(fs, i as int);
            lemma_with_all_add(
                before,
                facts_occurrences(fs.take(i as int)),
                fact_occurrences(fs[i as int]),
            );
        }
        i = i + 1;
    }
    assert(fs.take(i as int) =~= fs);
}

fn accumulate_branches_vars_ordered(branches: &Vec<Vec<Fact>>, out: &mut IndexSet<String>)
    ensures
        index_set_items(*final(out)) == with_all(
            index_set_items(*old(out)),
            branches_occurrences(branch_models(branches@)),
        ),
    decreases branches,
{
    broadcast use group_models;

    let ghost bs = branch_models(branches@);
    let ghost before = index_set_items(*out);
    let mut i: usize = 0;
    while i < branches.len()
        invariant
            i <= branches.len(),
            bs == branch_models(branches@),
            index_set_items(*out) == with_all(before, branches_occurrences(bs.take(i as int))),
        decreases branches.len() - i,
    {
        accumulate_facts_vars_ordered(&branches[i], out);
        proof {
            lemma_branches_occurrences_take(bs, i as int);
            lemma_with_all_add(
                before,
                branches_occurrences(bs.take(i as int)),
                facts_occurrences(bs[i as int]),
            );
        }
        i = i + 1;
    }
    assert(bs.take(i as int) =~= bs);
}

/// Adds the variables of an expression to an ordered set.
pub fn expr_vars_ordered(expr: &Expr, out: &mut IndexSet<String>)
    ensures
        index_set_items(*final(out)) == with_all(
            index_set_items(*old(out)),
            expr_occurrences(expr@),
        ),
    decreases expr,
{
    match expr {
        Expr::Lit(_, _) => {},
        Expr::Var(_, v) => {
            if !is_global(v) {
                index_set_insert(out, v.clone());
                proof {
                    assert(seq![v@].drop_last() =~= Seq::<Name>::empty());
                    let before = index_set_items(*old(out));
                    assert(with_all(before, seq![v@].drop_last()) == before);
                }
            }
        },
        Expr::Call(_, _, args) => exprs_vars_ordered(args, out),
    }
}

fn exprs_vars_ordered(exprs: &Vec<Expr>, out: &mut IndexSet<String>)
    ensures
        index_set_items(*final(out)) == with_all(
            index_set_items(*old(out)),
            exprs_occurrences(expr_models(exprs@)),
        ),
    decreases exprs,
{
    broadcast use group_models;

    let ghost es = expr_models(exprs@);
    let ghost before = index_set_items(*out);
    let mut i: usize = 0;
    while i < exprs.len()
        invariant
            i <= exprs.len(),
            es == expr_models(exprs@),
            index_set_items(*out) == with_all(before, exprs_occurrences(es.take(i as int))),
        decreases exprs.len() - i,
    {
        expr_vars_ordered(&exprs[i], out);
        proof {
            lemma_exprs_occurrences_take(es, i as int);
            lemma_with_all_add(
                before,
                exprs_occurrences(es.take(i as int)),
                expr_occurrences(es[i as int]),
            );
        }
        i = i + 1;
    }
    assert(es.take(i as int) =~= es);
}

/// The variables that the expressions of a rule's head use.
pub fn actions_vars(actions: &Actions) -> (vars: VarSet)
    ensures
        vars@ == with_all(seq![], actions_occurrences(actions@)),
        forall|v: Name| #[trigger]
            vars@.contains(v) <==> !is_global_name(v) && exists|i: int|
                0 <= i < actions@.len() && action_mentions(#[trigger] actions@[i], v),
{
    let mut out = VarSet::new();
    let ghost models = actions@;
    let mut i: usize = 0;
    while i < actions.0.len()
        invariant
            i <= actions.0.len(),
            models == actions@,
            out@ == with_all(seq![], actions_occurrences(models.take(i as int))),
        decreases actions.0.len() - i,
    {
        let exprs = action_exprs(&actions.0[i]);
        let ghost so_far = out@;
        let ghost es = expr_ref_models(exprs@);
        let mut j: usize = 0;
        while j < exprs.len()
            invariant
                j <= exprs.len(),
                es == expr_ref_models(exprs@),
                out@ == with_all(so_far, exprs_occurrences(es.take(j as int))),
            decreases exprs.len() - j,
        {
            expr_vars(exprs[j], &mut out);
            proof {
                lemma_exprs_occurrences_take(es, j as int);
                lemma_with_all_add(
                    so_far,
                    exprs_occurrences(es.take(j as int)),
                    expr_occurrences(es[j as int]),
                );
            }
            j = j + 1;
        }
        proof {
            assert(es.take(j as int) =~= es);
            assert(models.take(i as int + 1).drop_last() =~= models.take(i as int));
            assert(es == action_expr_models(models[i as int]));
            lemma_with_all_add(
                seq![],
                actions_occurrences(models.take(i as int)),
                exprs_occurrences(es),
            );
        }
        i = i + 1;
    }
    assert(models.take(i as int) =~= models);
    proof {
        assert forall|v: Name| #[trigger] out@.contains(v) <==> !is_global_name(v) && exists|j: int|
            0 <= j < models.len() && action_mentions(#[trigger] models[j], v) by {
            lemma_with_all_contains(seq![], actions_occurrences(models), v);
            law_head_vars_are_mentioned(models, v);
        }
    }
    out
}

/// The models of a list of borrowed expressions.
pub open spec fn expr_ref_models(exprs: Seq<&Expr>) -> Seq<ExprModel> {
    Seq::new(exprs.len(), |i: int| exprs[i]@)
}

/// The expressions of an action, left to right.
pub fn action_exprs(action: &Action) -> (exprs: Vec<&Expr>)
    ensures
        expr_ref_models(exprs@) == action_expr_models(action@),
{
    broadcast use group_models;

    let mut exprs: Vec<&Expr> = Vec::new();
    match action {
        Action::Let(_, _, e) => {
            exprs.push(e);
        },
        Action::Assign(_, _, args, e) => {
            push_all(args, &mut exprs);
            exprs.push(e);
        },
        Action::Change(_, _, _, args) => {
            push_all(args, &mut exprs);
        },
        Action::Union(_, e1, e2) => {
            exprs.push(e1);
            exprs.push(e2);
        },
        Action::Panic(_, _) => {},
        Action::Expr(_, e) => {
            exprs.push(e);
        },
    }
    assert(expr_ref_models(exprs@) =~= action_expr_models(action@));
    exprs
}

fn push_all<'a>(args: &'a Vec<Expr>, exprs: &mut Vec<&'a Expr>)
    ensures
        expr_ref_models(final(exprs)@) == expr_ref_models(old(exprs)@) + expr_models(args@),
{
    broadcast use group_models;

    let mut i: usize = 0;
    while i < args.len()
        invariant
            i <= args.len(),
            exprs.len() == old(exprs).len() + i,
            forall|j: int| 0 <= j < old(exprs).len() ==> #[trigger] exprs[j] == old(exprs)[j],
            forall|j: int|
                0 <= j < i ==> (#[trigger] exprs[old(exprs).len() + j])@ == args[j]@,
        decreases args.len() - i,
    {
        exprs.push(&args[i]);
        i = i + 1;
    }
    assert(expr_ref_models(exprs@) =~= expr_ref_models(old(exprs)@) + expr_models(args@)) by {
        let a = expr_ref_models(exprs@);
        let b = expr_ref_models(old(exprs)@) + expr_models(args@);
        assert forall|k: int| 0 <= k < a.len() implies a[k] == b[k] by {
            if k >= old(exprs).len() {
                let j = k - old(exprs).len();
                assert(exprs[old(exprs).len() + j]@ == args[j]@);
            } else {
                assert(exprs[k] == old(exprs)[k]);
            }
        }
    }
}

} // verus!
