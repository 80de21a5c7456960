//! The typing query of a rule body: its facts with every disjunction flattened into the
//! conjunction of its branches.
//!
//! The result binds a superset of the variables that any one match binds, which is all
//! that typechecking needs. Variables that are local to a branch are independent of
//! those of the other branches, so each branch gets fresh names for its own: their sorts
//! are not conflated.

use vstd::prelude::*;

use crate::ast::{
    branch_models, expr_models, fact_models, group_models, Expr, ExprModel, Fact, FactModel, Name,
    Span,
};
use crate::scope::{
    bound_vars, scope, visible, visible_branches_vars, visible_in, visible_list_vars, visible_vars,
    visible_vars_in,
};
use crate::symbol_gen::{nth_name, SymbolGen};
use crate::vars::{
    fact_list_vars, facts_occurrences, lemma_with_all_no_duplicates, with_all, VarSet,
};

verus! {

/// The name that a variable has under a renaming; later pairs take precedence.
pub open spec fn renamed_var(v: Name, renaming: Seq<(Name, Name)>) -> Name
    decreases renaming.len(),
{
    if renaming.len() == 0 {
        v
    } else if renaming.last().0 == v {
        renaming.last().1
    } else {
        renamed_var(v, renaming.drop_last())
    }
}

pub open spec fn renamed_expr(e: ExprModel, renaming: Seq<(Name, Name)>) -> ExprModel
    decreases e,
{
    match e {
        ExprModel::Var(span, v) => ExprModel::Var(span, renamed_var(v, renaming)),
        ExprModel::Call(span, f, args) => ExprModel::Call(span, f, renamed_exprs(args, renaming)),
        ExprModel::Lit(span, l) => e,
    }
}

pub open spec fn renamed_exprs(es: Seq<ExprModel>, renaming: Seq<(Name, Name)>) -> Seq<ExprModel>
    decreases es,
{
    Seq::new(
        es.len(),
        |i: int|
            if 0 <= i < es.len() {
                renamed_expr(es[i], renaming)
            } else {
                arbitrary()
            },
    )
}

/// A plain fact under a renaming.
pub open spec fn renamed_fact(f: FactModel, renaming: Seq<(Name, Name)>) -> FactModel {
    match f {
        FactModel::Eq(span, e1, e2) => FactModel::Eq(
            span,
            renamed_expr(e1, renaming),
            renamed_expr(e2, renaming),
        ),
        FactModel::Fact(e) => FactModel::Fact(renamed_expr(e, renaming)),
        FactModel::Or(_, _) => f,
    }
}

/// The variables that are local to the `i`-th branch of a disjunction, in the order in
/// which the branch first mentions them.
pub open spec fn local_vars(or: FactModel, i: int, bound: Set<Name>) -> Seq<Name> {
    let branch = or->Or_1[i];
    with_all(seq![], facts_occurrences(branch)).filter(
        |v: Name| visible_in(branch, bound, v) && !visible(or, bound, v),
    )
}

/// The renaming of a branch's local variables to the next names of a supply.
pub open spec fn fresh_names(locals: Seq<Name>, reserved: Name, n: nat) -> Seq<(Name, Name)> {
    Seq::new(locals.len(), |j: int| (locals[j], nth_name(reserved, (n + j) as nat, locals[j])))
}

/// The first `k` facts of a conjunction, flattened, and the number of names handed out
/// once that is done.
pub open spec fn flattened(
    fs: Seq<FactModel>,
    k: nat,
    bound: Set<Name>,
    renaming: Seq<(Name, Name)>,
    reserved: Name,
    n: nat,
) -> (Seq<FactModel>, nat)
    decreases fs, k,
{
    if k == 0 || k > fs.len() {
        (seq![], n)
    } else {
        let before = flattened(fs, (k - 1) as nat, bound, renaming, reserved, n);
        match fs[k - 1] {
            FactModel::Or(span, branches) => {
                let or = flattened_branches(
                    span,
                    branches,
                    branches.len(),
                    scope(bound, fs),
                    renaming,
                    reserved,
                    before.1,
                );
                (before.0 + or.0, or.1)
            },
            f => (before.0.push(renamed_fact(f, renaming)), before.1),
        }
    }
}

/// The first `k` branches of a disjunction, likewise.
pub open spec fn flattened_branches(
    span: Span,
    branches: Seq<Seq<FactModel>>,
    k: nat,
    bound: Set<Name>,
    renaming: Seq<(Name, Name)>,
    reserved: Name,
    n: nat,
) -> (Seq<FactModel>, nat)
    decreases branches, k,
{
    if k == 0 || k > branches.len() {
        (seq![], n)
    } else {
        let before = flattened_branches(
            span,
            branches,
            (k - 1) as nat,
            bound,
            renaming,
            reserved,
            n,
        );
        let locals = local_vars(FactModel::Or(span, branches), k - 1, bound);
        let branch = flattened(
            branches[k - 1],
            branches[k - 1].len(),
            bound,
            renaming + fresh_names(locals, reserved, before.1),
            reserved,
            before.1 + locals.len(),
        );
        (before.0 + branch.0, branch.1)
    }
}

/// New names for variables; later entries take precedence.
pub struct Renaming {
    entries: Vec<(String, String)>,
}

impl View for Renaming {
    type V = Seq<(Name, Name)>;

    closed spec fn view(&self) -> Seq<(Name, Name)> {
        Seq::new(self.entries@.len(), |i: int| (self.entries@[i].0@, self.entries@[i].1@))
    }
}

impl Renaming {
    /// The renaming that leaves every variable as it is.
    pub fn new() -> (renaming: Renaming)
        ensures
            renaming@ == Seq::<(Name, Name)>::empty(),
    {
        let renaming = Renaming { entries: Vec::new() };
        assert(renaming@ =~= Seq::<(Name, Name)>::empty());
        renaming
    }

    /// This renaming with fresh names for some variables.
    pub fn with_fresh(&self, vars: &VarSet, symbol_gen: &mut SymbolGen) -> (renaming: Renaming)
        ensures
            final(symbol_gen).reserved() == old(symbol_gen).reserved(),
            final(symbol_gen).count() == old(symbol_gen).count() + vars@.len(),
            renaming@ == self@ + fresh_names(
                vars@,
                old(symbol_gen).reserved(),
                old(symbol_gen).count(),
            ),
    {
        let ghost n = symbol_gen.count();
        let ghost reserved = symbol_gen.reserved();
        let mut entries: Vec<(String, String)> = Vec::new();
        let mut i: usize = 0;
        while i < self.entries.len()
            invariant
                i <= self.entries.len(),
                entries.len() == i,
                forall|j: int|
                    0 <= j < i ==> (#[trigger] entries[j]).0@ == self.entries[j].0@ && entries[j].1@
                        == self.entries[j].1@,
            decreases self.entries.len() - i,
        {
            entries.push((self.entries[i].0.clone(), self.entries[i].1.clone()));
            i = i + 1;
        }
        let mut renaming = Renaming { entries };
        assert(renaming@ =~= self@ + fresh_names(vars@, reserved, n).take(0));
        let mut j: usize = 0;
        while j < vars.len()
            invariant
                j <= vars@.len(),
                symbol_gen.reserved() == reserved,
                symbol_gen.count() == n + j,
                renaming@ == self@ + fresh_names(vars@, reserved, n).take(j as int),
            decreases vars@.len() - j,
        {
            let ghost before = renaming@;
            let v = vars.get(j);
            let fresh = symbol_gen.fresh(v.as_str());
            renaming.entries.push((v.clone(), fresh));
            proof {
                let all = fresh_names(vars@, reserved, n);
                assert(renaming@ =~= before.push(all[j as int]));
                assert(all.take(j + 1) =~= all.take(j as int).push(all[j as int]));
                assert(renaming@ =~= self@ + all.take(j + 1));
            }
            j = j + 1;
        }
        proof {
            let all = fresh_names(vars@, reserved, n);
            assert(all.take(j as int) =~= all);
        }
        renaming
    }

    /// The name that a variable has under this renaming.
    pub fn var(&self, v: &String) -> (name: String)
        ensures
            name@ == renamed_var(v@, self@),
    {
        let mut i: usize = self.entries.len();
        assert(self@.take(i as int) =~= self@);
        while i > 0
            invariant
                i <= self.entries.len(),
                renamed_var(v@, self@) == renamed_var(v@, self@.take(i as int)),
            decreases i,
        {
            proof {
                assert(self@.take(i as int).drop_last() =~= self@.take(i - 1));
            }
            if self.entries[i - 1].0 == *v {
                return self.entries[i - 1].1.clone();
            }
            i = i - 1;
        }
        v.clone()
    }

    fn expr(&self, e: &Expr) -> (renamed: Expr)
        ensures
            renamed@ == renamed_expr(e@, self@),
        decreases e,
    {
        match e {
            Expr::Var(span, v) => Expr::Var(*span, self.var(v)),
            Expr::Call(span, f, args) => Expr::Call(*span, f.clone(), self.exprs(args)),
            Expr::Lit(span, l) => Expr::Lit(*span, l.clone()),
        }
    }

    fn exprs(&self, es: &Vec<Expr>) -> (renamed: Vec<Expr>)
        ensures
            expr_models(renamed@) == renamed_exprs(expr_models(es@), self@),
        decreases es,
    {
        broadcast use group_models;

        let mut renamed: Vec<Expr> = Vec::new();
        let mut i: usize = 0;
        while i < es.len()
            invariant
                i <= es.len(),
                renamed.len() == i,
                forall|j: int| 0 <= j < i ==> #[trigger] renamed[j]@ == renamed_expr(es[j]@, self@),
            decreases es.len() - i,
        {
            renamed.push(self.expr(&es[i]));
            i = i + 1;
        }
        assert(expr_models(renamed@) =~= renamed_exprs(expr_models(es@), self@));
        renamed
    }
}

/// The variables that are local to a branch, where `seen` holds those that can be seen
/// outside the disjunction.
pub fn branch_locals(
    span: Span,
    branches: &Vec<Vec<Fact>>,
    i: usize,
    bound: &VarSet,
    seen: &VarSet,
) -> (locals: VarSet)
    requires
        i < branches.len(),
        seen@.to_set() == visible_vars(
            FactModel::Or(span, branch_models(branches@)),
            bound@.to_set(),
        ),
    ensures
        locals@ == local_vars(
            FactModel::Or(span, branch_models(branches@)),
            i as int,
            bound@.to_set(),
        ),
{
    broadcast use group_models;

    let ghost or = FactModel::Or(span, branch_models(branches@));
    let ghost b = bound@.to_set();
    let ghost branch = fact_models(branches[i as int]@);
    let ghost is_local = |v: Name| visible_in(branch, b, v) && !visible(or, b, v);
    let all = fact_list_vars(&branches[i]);
    let inside = visible_list_vars(&branches[i], bound);
    let mut locals = VarSet::new();
    let mut j: usize = 0;
    proof {
        reveal(Seq::filter);
        lemma_with_all_no_duplicates(seq![], facts_occurrences(branch));
        assert(all@.take(0).filter(is_local) =~= Seq::<Name>::empty());
    }
    while j < all.len()
        invariant
            j <= all@.len(),
            all@.no_duplicates(),
            is_local == (|v: Name| visible_in(branch, b, v) && !visible(or, b, v)),
            inside@.to_set() == visible_vars_in(branch, b),
            seen@.to_set() == visible_vars(or, b),
            locals@ == all@.take(j as int).filter(is_local),
        decreases all@.len() - j,
    {
        let v = all.get(j);
        proof {
            reveal(Seq::filter);
            assert(all@.take(j + 1).drop_last() =~= all@.take(j as int));
            assert(inside@.to_set().contains(v@) <==> visible_vars_in(branch, b).contains(v@));
            assert(seen@.to_set().contains(v@) <==> visible_vars(or, b).contains(v@));
        }
        if inside.contains(v) && !seen.contains(v) {
            proof {
                if locals@.contains(v@) {
                    all@.take(j as int).lemma_filter_contains_rev(is_local, v@);
                    let k = choose|k: int|
                        0 <= k < all@.take(j as int).len() && all@.take(j as int)[k] == v@;
                    assert(all@[k] == all@[j as int]);
                }
            }
            locals.insert(v.clone());
        }
        j = j + 1;
    }
    assert(all@.take(j as int) =~= all@);
    locals
}

/// Replaces every `or` of a rule body with the conjunction of all its branches, giving
/// the variables that are local to a branch fresh names.
pub fn flatten_for_typing(body: &Vec<Fact>, symbol_gen: &mut SymbolGen) -> (facts: Vec<Fact>)
    ensures
        final(symbol_gen).reserved() == old(symbol_gen).reserved(),
        (fact_models(facts@), final(symbol_gen).count()) == flattened(
            fact_models(body@),
            fact_models(body@).len(),
            Set::empty(),
            seq![],
            old(symbol_gen).reserved(),
            old(symbol_gen).count(),
        ),
{
    let mut out: Vec<Fact> = Vec::new();
    let bound = VarSet::new();
    let renaming = Renaming::new();
    proof {
        assert(bound@.to_set() =~= Set::<Name>::empty());
        assert(fact_models(out@) =~= Seq::<FactModel>::empty());
    }
    flatten_facts(body, &bound, &renaming, symbol_gen, &mut out);
    proof {
        let all = flattened(
            fact_models(body@),
            fact_models(body@).len(),
            Set::empty(),
            seq![],
            old(symbol_gen).reserved(),
            old(symbol_gen).count(),
        );
        assert(fact_models(out@) =~= all.0);
    }
    out
}

fn flatten_facts(
    facts: &Vec<Fact>,
    bound: &VarSet,
    renaming: &Renaming,
    symbol_gen: &mut SymbolGen,
    out: &mut Vec<Fact>,
)
    ensures
        final(symbol_gen).reserved() == old(symbol_gen).reserved(),
        ({
            let flat = flattened(
                fact_models(facts@),
                fact_models(facts@).len(),
                bound@.to_set(),
                renaming@,
                old(symbol_gen).reserved(),
                old(symbol_gen).count(),
            );
            &&& fact_models(final(out)@) == fact_models(old(out)@) + flat.0
            &&& final(symbol_gen).count() == flat.1
        }),
    decreases facts, 0nat,
{
    broadcast use group_models;

    let ghost fs = fact_models(facts@);
    let ghost b = bound@.to_set();
    let ghost reserved = symbol_gen.reserved();
    let ghost n = symbol_gen.count();
    let inner = bound_vars(facts, bound);
    let mut i: usize = 0;
    assert(fact_models(out@) =~= fact_models(old(out)@) + Seq::<FactModel>::empty());
    while i < facts.len()
        invariant
            i <= facts.len(),
            fs == fact_models(facts@),
            b == bound@.to_set(),
            inner@.to_set() == scope(b, fs),
            symbol_gen.reserved() == reserved,
            ({
                let flat = flattened(fs, i as nat, b, renaming@, reserved, n);
                &&& fact_models(out@) == fact_models(old(out)@) + flat.0
                &&& symbol_gen.count() == flat.1
            }),
        decreases facts.len() - i,
    {
        let ghost before = flattened(fs, i as nat, b, renaming@, reserved, n);
        let ghost done = out@;
        match &facts[i] {
            Fact::Or(span, branches) => {
                flatten_branches(*span, branches, &inner, renaming, symbol_gen, out);
                proof {
                    let or = flattened_branches(
                        *span,
                        branch_models(branches@),
                        branches@.len(),
                        scope(b, fs),
                        renaming@,
                        reserved,
                        before.1,
                    );
                    assert(fact_models(out@) =~= fact_models(old(out)@) + (before.0 + or.0));
                }
            },
            Fact::Eq(span, e1, e2) => {
                out.push(Fact::Eq(*span, renaming.expr(e1), renaming.expr(e2)));
                proof {
                    let f = renamed_fact(fs[i as int], renaming@);
                    assert(fact_models(out@) =~= fact_models(done).push(f));
                    assert(fact_models(out@) =~= fact_models(old(out)@) + before.0.push(f));
                }
            },
            Fact::Fact(e) => {
                out.push(Fact::Fact(renaming.expr(e)));
                proof {
                    let f = renamed_fact(fs[i as int], renaming@);
                    assert(fact_models(out@) =~= fact_models(done).push(f));
                    assert(fact_models(out@) =~= fact_models(old(out)@) + before.0.push(f));
                }
            },
        }
        i = i + 1;
    }
}

fn flatten_branches(
    span: Span,
    branches: &Vec<Vec<Fact>>,
    bound: &VarSet,
    renaming: &Renaming,
    symbol_gen: &mut SymbolGen,
    out: &mut Vec<Fact>,
)
    ensures
        final(symbol_gen).reserved() == old(symbol_gen).reserved(),
        ({
            let flat = flattened_branches(
                span,
                branch_models(branches@),
                branches@.len(),
                bound@.to_set(),
                renaming@,
                old(symbol_gen).reserved(),
                old(symbol_gen).count(),
            );
            &&& fact_models(final(out)@) == fact_models(old(out)@) + flat.0
            &&& final(symbol_gen).count() == flat.1
        }),
    decreases branches, 0nat,
{
    broadcast use group_models;

    let ghost bs = branch_models(branches@);
    let ghost b = bound@.to_set();
    let ghost reserved = symbol_gen.reserved();
    let ghost n = symbol_gen.count();
    let seen = visible_branches_vars(branches, bound);
    let mut i: usize = 0;
    assert(fact_models(out@) =~= fact_models(old(out)@) + Seq::<FactModel>::empty());
    while i < branches.len()
        invariant
            i <= branches.len(),
            bs == branch_models(branches@),
            seen@.to_set() == visible_vars(FactModel::Or(span, bs), b),
            b == bound@.to_set(),
            symbol_gen.reserved() == reserved,
            ({
                let flat = flattened_branches(span, bs, i as nat, b, renaming@, reserved, n);
                &&& fact_models(out@) == fact_models(old(out)@) + flat.0
                &&& symbol_gen.count() == flat.1
            }),
        decreases branches.len() - i,
    {
        let ghost before = flattened_branches(span, bs, i as nat, b, renaming@, reserved, n);
        let locals = branch_locals(span, branches, i, bound, &seen);
        let branch_renaming = renaming.with_fresh(&locals, symbol_gen);
        flatten_facts(&branches[i], bound, &branch_renaming, symbol_gen, out);
        proof {
            let branch = flattened(
                bs[i as int],
                bs[i as int].len(),
                b,
                branch_renaming@,
                reserved,
                before.1 + locals@.len(),
            );
            assert(fact_models(out@) =~= fact_models(old(out)@) + (before.0 + branch.0));
        }
        i = i + 1;
    }
}

} // verus!
