//! That the typing query keeps the branches of a disjunction apart.

use vstd::prelude::*;

use crate::ast::{ExprModel, FactModel, Name, Span};
use crate::flatten::{
    flattened, flattened_branches, fresh_names, local_vars, renamed_expr, renamed_exprs,
    renamed_fact, renamed_var,
};
use crate::query::{
    is_fresh, lemma_flattened_branches_grow, lemma_fresh_renames_vars, lemma_fresh_widens,
    lemma_locals, lemma_query_vars, lemma_renamed_fresh, lemma_renamed_var_global, renames_vars,
};
use crate::scope::{visible, visible_in};
use crate::semantics::{eval, eval_all, holds, Assignment, Database};
use crate::symbol_gen::{law_names_are_distinct, nth_name};
use crate::vars::{facts_occurrences, is_global_name};

verus! {

/// A renaming gives a variable the name that it was last given. It leaves the other variables
/// alone.
pub proof fn law_the_last_name_counts(
    renaming: Seq<(Name, Name)>,
    v: Name,
    name: Name,
    other: Name,
)
    ensures
        renamed_var(v, seq![]) == v,
        renamed_var(v, renaming.push((v, name))) == name,
        other != v ==> renamed_var(other, renaming.push((v, name))) == renamed_var(other, renaming),
{
    assert(renaming.push((v, name)).drop_last() =~= renaming);
}

/// The values of variables under the names that a renaming gives them.
pub open spec fn read_through(s: Assignment, renaming: Seq<(Name, Name)>) -> Assignment {
    |v: Name| s(renamed_var(v, renaming))
}

/// To rename the variables of an expression is to read their values under other names: a
/// renamed expression has the value that the expression has when its variables take the values
/// of their new names. Globals are not renamed.
pub proof fn law_renaming_reads_through(
    e: ExprModel,
    renaming: Seq<(Name, Name)>,
    db: Database,
    s: Assignment,
)
    requires
        renames_vars(renaming),
    ensures
        eval(renamed_expr(e, renaming), db, s) == eval(e, db, read_through(s, renaming)),
    decreases e,
{
    match e {
        ExprModel::Lit(_, _) => {},
        ExprModel::Var(_, v) => lemma_renamed_var_global(v, renaming),
        ExprModel::Call(_, _, args) => lemma_all_read_through(args, renaming, db, s),
    }
}

proof fn lemma_all_read_through(
    es: Seq<ExprModel>,
    renaming: Seq<(Name, Name)>,
    db: Database,
    s: Assignment,
)
    requires
        renames_vars(renaming),
    ensures
        eval_all(renamed_exprs(es, renaming), db, s) == eval_all(
            es,
            db,
            read_through(s, renaming),
        ),
    decreases es,
{
    if es.len() > 0 {
        let all = renamed_exprs(es, renaming);
        assert(all.drop_last() =~= renamed_exprs(es.drop_last(), renaming));
        assert(all.last() == renamed_expr(es.last(), renaming));
        lemma_all_read_through(es.drop_last(), renaming, db, s);
        law_renaming_reads_through(es.last(), renaming, db, s);
    }
}

/// The same of plain facts: a renamed fact holds where the fact holds when its variables take
/// the values of their new names.
pub proof fn law_renamed_facts_read_through(
    f: FactModel,
    renaming: Seq<(Name, Name)>,
    db: Database,
    s: Assignment,
    bound: Set<Name>,
)
    requires
        !(f is Or),
        renames_vars(renaming),
    ensures
        holds(renamed_fact(f, renaming), db, s, bound) == holds(
            f,
            db,
            read_through(s, renaming),
            bound,
        ),
{
    match f {
        FactModel::Eq(_, e1, e2) => {
            law_renaming_reads_through(e1, renaming, db, s);
            law_renaming_reads_through(e2, renaming, db, s);
        },
        FactModel::Fact(e) => law_renaming_reads_through(e, renaming, db, s),
        FactModel::Or(_, _) => {},
    }
}

/// The part of a disjunction's query that comes from one branch: what the query has up to that
/// branch and did not have before it.
pub open spec fn branch_query(
    span: Span,
    branches: Seq<Seq<FactModel>>,
    i: nat,
    bound: Set<Name>,
    renaming: Seq<(Name, Name)>,
    reserved: Name,
    n: nat,
) -> Seq<FactModel> {
    flattened_branches(span, branches, i + 1, bound, renaming, reserved, n).0.skip(
        flattened_branches(span, branches, i, bound, renaming, reserved, n).0.len() as int,
    )
}

proof fn lemma_branch_query_vars(
    span: Span,
    bs: Seq<Seq<FactModel>>,
    i: nat,
    bound: Set<Name>,
    renaming: Seq<(Name, Name)>,
    reserved: Name,
    n: nat,
    w: Name,
)
    requires
        i < bs.len(),
        renames_vars(renaming),
        !is_global_name(reserved),
        facts_occurrences(
            branch_query(span, bs, i, bound, renaming, reserved, n),
        ).contains(w),
    ensures
        is_fresh(
            w,
            reserved,
            flattened_branches(span, bs, i, bound, renaming, reserved, n).1,
            flattened_branches(span, bs, i + 1, bound, renaming, reserved, n).1,
        ) || exists|v: Name| #[trigger]
            visible(FactModel::Or(span, bs), bound, v) && w == renamed_var(v, renaming),
{
    let or = FactModel::Or(span, bs);
    let before = flattened_branches(span, bs, i, bound, renaming, reserved, n);
    let after = flattened_branches(span, bs, i + 1, bound, renaming, reserved, n);
    let locals = local_vars(or, i as int, bound);
    let fresh = fresh_names(locals, reserved, before.1);
    let inner = renaming + fresh;
    let own = flattened(
        bs[i as int],
        bs[i as int].len(),
        bound,
        inner,
        reserved,
        before.1 + locals.len(),
    );
    assert(after.0 == before.0 + own.0);
    assert(branch_query(span, bs, i, bound, renaming, reserved, n) =~= own.0);
    lemma_fresh_renames_vars(renaming, or, i as int, bound, reserved, before.1);
    lemma_query_vars(
        bs[i as int],
        bs[i as int].len(),
        bound,
        inner,
        reserved,
        before.1 + locals.len(),
        w,
    );
    lemma_flattened_branches_grow(span, bs, i, i + 1, bound, renaming, reserved, n);
    lemma_fresh_widens(w, reserved, before.1 + locals.len(), after.1, before.1, after.1);
    if !is_fresh(w, reserved, before.1 + locals.len(), after.1) {
        let v = choose|v: Name| #[trigger]
            visible_in(bs[i as int], bound, v) && w == renamed_var(v, inner);
        lemma_renamed_fresh(v, renaming, locals, reserved, before.1);
        lemma_locals(or, i as int, bound, v);
        if locals.contains(v) {
            let j = choose|j: int|
                0 <= j < locals.len() && renamed_var(v, inner) == #[trigger] fresh[j].1;
            assert(w == nth_name(reserved, (before.1 + j) as nat, locals[j]));
            assert(is_fresh(w, reserved, before.1, after.1));
        } else {
            assert(visible(or, bound, v));
        }
    }
}

/// Branch-locals in different branches are independent: what the queries of two branches of a
/// disjunction have in common are variables that can be seen outside the disjunction, under
/// the names that they have there.
///
/// The reserved prefix must not make names of globals.
pub proof fn law_branches_share_only_what_can_be_seen(
    span: Span,
    branches: Seq<Seq<FactModel>>,
    i: nat,
    j: nat,
    bound: Set<Name>,
    renaming: Seq<(Name, Name)>,
    reserved: Name,
    n: nat,
    name: Name,
)
    requires
        i < j < branches.len(),
        renames_vars(renaming),
        !is_global_name(reserved),
        facts_occurrences(
            branch_query(span, branches, i, bound, renaming, reserved, n),
        ).contains(name),
        facts_occurrences(
            branch_query(span, branches, j, bound, renaming, reserved, n),
        ).contains(name),
    ensures
        exists|v: Name| #[trigger]
            visible(FactModel::Or(span, branches), bound, v) && name == renamed_var(v, renaming),
{
    let a = flattened_branches(span, branches, i, bound, renaming, reserved, n).1;
    let b = flattened_branches(span, branches, i + 1, bound, renaming, reserved, n).1;
    let c = flattened_branches(span, branches, j, bound, renaming, reserved, n).1;
    let d = flattened_branches(span, branches, j + 1, bound, renaming, reserved, n).1;
    lemma_branch_query_vars(span, branches, i, bound, renaming, reserved, n, name);
    lemma_branch_query_vars(span, branches, j, bound, renaming, reserved, n, name);
    lemma_flattened_branches_grow(span, branches, i + 1, j, bound, renaming, reserved, n);
    if is_fresh(name, reserved, a, b) && is_fresh(name, reserved, c, d) {
        let (p, first) = choose|p: nat, hint: Name|
            a <= p < b && name == #[trigger] nth_name(reserved, p, hint);
        let (q, second) = choose|q: nat, hint: Name|
            c <= q < d && name == #[trigger] nth_name(reserved, q, hint);
        law_names_are_distinct(reserved, p, first, q, second);
    }
}

} // verus!
