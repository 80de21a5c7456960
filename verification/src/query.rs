//! What the typing query of a rule body says of its variables.

use vstd::prelude::*;

use crate::ast::{ExprModel, FactModel, Name, Span};
use crate::columns::{lemma_renamed_stands_for, names_stand_for, stands_for};
use crate::commands::typing_query;
use crate::flatten::{
    flattened, flattened_branches, fresh_names, local_vars, renamed_expr, renamed_exprs,
    renamed_fact, renamed_var,
};
use crate::lowered_vars::{
    law_globals_are_no_variables, lemma_branches_occurrences_contains,
    lemma_facts_occurrences_contains,
};
use crate::scope::{all_plain, is_or, lemma_visible_or, scope, visible, visible_in};
use crate::symbol_gen::{
    decimal, digit_char, law_names_are_distinct, lemma_decimal_digits, nth_name,
};
use crate::vars::{
    branches_occurrences, expr_occurrences, exprs_occurrences, fact_occurrences, facts_occurrences,
    is_global_name, lemma_push_contains, lemma_with_all_contains, with_all,
};

verus! {

/// A renaming of variables to variables.
pub open spec fn renames_vars(renaming: Seq<(Name, Name)>) -> bool {
    forall|i: int|
        0 <= i < renaming.len() ==> !is_global_name((#[trigger] renaming[i]).0)
            && !is_global_name(renaming[i].1)
}

pub proof fn lemma_renamed_var_global(v: Name, renaming: Seq<(Name, Name)>)
    requires
        renames_vars(renaming),
    ensures
        is_global_name(renamed_var(v, renaming)) == is_global_name(v),
        is_global_name(v) ==> renamed_var(v, renaming) == v,
    decreases renaming.len(),
{
    if renaming.len() > 0 {
        let last = renaming[renaming.len() - 1];
        assert(!is_global_name(last.0) && !is_global_name(last.1));
        assert forall|i: int| 0 <= i < renaming.drop_last().len() implies !is_global_name(
            (#[trigger] renaming.drop_last()[i]).0,
        ) && !is_global_name(renaming.drop_last()[i].1) by {
            assert(renaming[i] == renaming.drop_last()[i]);
        }
        lemma_renamed_var_global(v, renaming.drop_last());
    }
}

/// A renaming of one variable after another.
pub open spec fn renamed_vars(vs: Seq<Name>, renaming: Seq<(Name, Name)>) -> Seq<Name> {
    vs.map_values(|v: Name| renamed_var(v, renaming))
}

proof fn lemma_renamed_expr_vars(e: ExprModel, renaming: Seq<(Name, Name)>)
    requires
        renames_vars(renaming),
    ensures
        expr_occurrences(renamed_expr(e, renaming)) == renamed_vars(expr_occurrences(e), renaming),
    decreases e,
{
    match e {
        ExprModel::Var(span, v) => {
            lemma_renamed_var_global(v, renaming);
            assert(expr_occurrences(renamed_expr(e, renaming)) =~= renamed_vars(
                expr_occurrences(e),
                renaming,
            ));
        },
        ExprModel::Call(_, _, args) => {
            lemma_renamed_exprs_vars(args, renaming);
        },
        ExprModel::Lit(_, _) => {
            assert(expr_occurrences(e) =~= renamed_vars(expr_occurrences(e), renaming));
        },
    }
}

proof fn lemma_renamed_exprs_vars(es: Seq<ExprModel>, renaming: Seq<(Name, Name)>)
    requires
        renames_vars(renaming),
    ensures
        exprs_occurrences(renamed_exprs(es, renaming)) == renamed_vars(
            exprs_occurrences(es),
            renaming,
        ),
    decreases es,
{
    let all = renamed_exprs(es, renaming);
    if es.len() > 0 {
        lemma_renamed_exprs_vars(es.drop_last(), renaming);
        lemma_renamed_expr_vars(es.last(), renaming);
        assert(all.drop_last() =~= renamed_exprs(es.drop_last(), renaming));
        assert(all.last() == renamed_expr(es.last(), renaming));
        assert(exprs_occurrences(all) =~= renamed_vars(exprs_occurrences(es), renaming));
    } else {
        assert(exprs_occurrences(all) =~= renamed_vars(exprs_occurrences(es), renaming));
    }
}

proof fn lemma_renamed_fact_vars(f: FactModel, renaming: Seq<(Name, Name)>)
    requires
        renames_vars(renaming),
        !is_or(f),
    ensures
        fact_occurrences(renamed_fact(f, renaming)) == renamed_vars(fact_occurrences(f), renaming),
{
    match f {
        FactModel::Eq(_, e1, e2) => {
            lemma_renamed_expr_vars(e1, renaming);
            lemma_renamed_expr_vars(e2, renaming);
            assert(fact_occurrences(renamed_fact(f, renaming)) =~= renamed_vars(
                fact_occurrences(f),
                renaming,
            ));
        },
        FactModel::Fact(e) => lemma_renamed_expr_vars(e, renaming),
        FactModel::Or(_, _) => {},
    }
}

proof fn lemma_renamed_vars_contains(vs: Seq<Name>, renaming: Seq<(Name, Name)>, w: Name)
    ensures
        renamed_vars(vs, renaming).contains(w) <==> exists|v: Name| #[trigger]
            vs.contains(v) && w == renamed_var(v, renaming),
{
    let all = renamed_vars(vs, renaming);
    if all.contains(w) {
        let i = choose|i: int| 0 <= i < all.len() && all[i] == w;
        assert(vs.contains(vs[i]));
    }
    if exists|v: Name| #[trigger] vs.contains(v) && w == renamed_var(v, renaming) {
        let v = choose|v: Name| #[trigger] vs.contains(v) && w == renamed_var(v, renaming);
        let i = choose|i: int| 0 <= i < vs.len() && vs[i] == v;
        assert(all[i] == w);
    }
}

/// A renaming extended by fresh names for some variables.
pub proof fn lemma_renamed_fresh(
    v: Name,
    renaming: Seq<(Name, Name)>,
    locals: Seq<Name>,
    reserved: Name,
    n: nat,
)
    ensures
        !locals.contains(v) ==> renamed_var(v, renaming + fresh_names(locals, reserved, n))
            == renamed_var(v, renaming),
        locals.contains(v) ==> exists|j: int|
            0 <= j < locals.len() && renamed_var(
                v,
                renaming + fresh_names(locals, reserved, n),
            ) == #[trigger] fresh_names(locals, reserved, n)[j].1,
    decreases locals.len(),
{
    let fresh = fresh_names(locals, reserved, n);
    let all = renaming + fresh;
    if locals.len() == 0 {
        assert(all =~= renaming);
    } else {
        let front = locals.drop_last();
        lemma_renamed_fresh(v, renaming, front, reserved, n);
        assert(all.drop_last() =~= renaming + fresh_names(front, reserved, n));
        assert(all.last() == fresh[locals.len() - 1]);
        assert(locals.contains(v) <==> front.contains(v) || v == locals.last()) by {
            assert(locals =~= front.push(locals.last()));
            lemma_push_contains(front, locals.last(), v);
        }
        if locals.last() == v {
            assert(renamed_var(v, all) == fresh[locals.len() - 1].1);
        } else if front.contains(v) {
            let j = choose|j: int|
                0 <= j < front.len() && renamed_var(
                    v,
                    renaming + fresh_names(front, reserved, n),
                ) == #[trigger] fresh_names(front, reserved, n)[j].1;
            assert(fresh_names(front, reserved, n)[j] == fresh[j]);
            assert(renamed_var(v, all) == fresh[j].1);
        }
    }
}

proof fn lemma_nth_name_not_global(reserved: Name, n: nat, hint: Name)
    requires
        !is_global_name(reserved),
    ensures
        !is_global_name(nth_name(reserved, n, hint)),
{
    let name = nth_name(reserved, n, hint);
    let digits = decimal(n).map_values(|d: u8| digit_char(d));
    lemma_decimal_digits(n);
    if reserved.len() == 0 {
        assert(name[0] == digits[0]);
        assert(digits[0] == digit_char(decimal(n)[0]));
    } else {
        assert(name[0] == reserved[0]);
    }
}

pub proof fn lemma_locals(or: FactModel, i: int, bound: Set<Name>, v: Name)
    requires
        or is Or,
        0 <= i < or->Or_1.len(),
    ensures
        local_vars(or, i, bound).contains(v) <==> visible_in(or->Or_1[i], bound, v) && !visible(
            or,
            bound,
            v,
        ),
        local_vars(or, i, bound).contains(v) ==> !is_global_name(v),
{
    let branch = or->Or_1[i];
    let all = with_all(seq![], facts_occurrences(branch));
    let p = |w: Name| visible_in(branch, bound, w) && !visible(or, bound, w);
    lemma_with_all_contains(seq![], facts_occurrences(branch), v);
    if all.filter(p).contains(v) {
        all.lemma_filter_contains_rev(p, v);
        let k = choose|k: int| 0 <= k < all.filter(p).len() && all.filter(p)[k] == v;
        all.lemma_filter_pred(p, k);
        lemma_list_no_globals(branch, v);
    }
    if p(v) {
        lemma_visible_occurs(branch, bound, v);
        let k = choose|k: int| 0 <= k < all.len() && all[k] == v;
        all.lemma_filter_contains(p, k);
    }
}

proof fn lemma_list_no_globals(fs: Seq<FactModel>, v: Name)
    requires
        facts_occurrences(fs).contains(v),
    ensures
        !is_global_name(v),
{
    lemma_facts_occurrences_contains(fs, v);
    let j = choose|j: int| 0 <= j < fs.len() && fact_occurrences(#[trigger] fs[j]).contains(v);
    law_globals_are_no_variables(fs[j], v);
}

/// What can be seen outside a conjunction occurs in it.
pub proof fn lemma_visible_occurs(fs: Seq<FactModel>, bound: Set<Name>, v: Name)
    requires
        visible_in(fs, bound, v),
    ensures
        facts_occurrences(fs).contains(v),
    decreases fs,
{
    let b = scope(bound, fs);
    let j = choose|j: int| 0 <= j < fs.len() && visible(#[trigger] fs[j], b, v);
    match fs[j] {
        FactModel::Or(span, branches) => {
            lemma_visible_or(span, branches, b, v);
            let i = choose|i: int|
                0 <= i < branches.len() && visible_in(#[trigger] branches[i], b, v);
            lemma_visible_occurs(branches[i], b, v);
            lemma_branches_occurrences_contains(branches, v);
            assert(fact_occurrences(fs[j]).contains(v));
        },
        _ => {},
    }
    lemma_facts_occurrences_contains(fs, v);
}

pub proof fn lemma_fresh_renames_vars(
    renaming: Seq<(Name, Name)>,
    or: FactModel,
    i: int,
    bound: Set<Name>,
    reserved: Name,
    n: nat,
)
    requires
        renames_vars(renaming),
        or is Or,
        0 <= i < or->Or_1.len(),
        !is_global_name(reserved),
    ensures
        renames_vars(renaming + fresh_names(local_vars(or, i, bound), reserved, n)),
{
    let locals = local_vars(or, i, bound);
    let fresh = fresh_names(locals, reserved, n);
    let all = renaming + fresh;
    assert forall|j: int| 0 <= j < all.len() implies !is_global_name((#[trigger] all[j]).0)
        && !is_global_name(all[j].1) by {
        if j < renaming.len() {
            assert(all[j] == renaming[j]);
        } else {
            let m = j - renaming.len();
            assert(all[j] == fresh[m]);
            assert(locals.contains(locals[m]));
            lemma_locals(or, i, bound, locals[m]);
            lemma_nth_name_not_global(reserved, (n + m) as nat, locals[m]);
        }
    }
}

pub proof fn lemma_facts_occurrences_add(a: Seq<FactModel>, b: Seq<FactModel>)
    ensures
        forall|v: Name| #[trigger]
            facts_occurrences(a + b).contains(v) <==> facts_occurrences(a).contains(v)
                || facts_occurrences(b).contains(v),
{
    let all = a + b;
    assert forall|v: Name| #[trigger] facts_occurrences(all).contains(v) <==> facts_occurrences(
        a,
    ).contains(v) || facts_occurrences(b).contains(v) by {
        lemma_facts_occurrences_contains(a, v);
        lemma_facts_occurrences_contains(b, v);
        lemma_facts_occurrences_contains(all, v);
        if facts_occurrences(a).contains(v) {
            let i = choose|i: int| 0 <= i < a.len() && fact_occurrences(#[trigger] a[i]).contains(
                v,
            );
            assert(all[i] == a[i]);
        }
        if facts_occurrences(b).contains(v) {
            let i = choose|i: int| 0 <= i < b.len() && fact_occurrences(#[trigger] b[i]).contains(
                v,
            );
            assert(all[a.len() + i] == b[i]);
        }
        if facts_occurrences(all).contains(v) {
            let i = choose|i: int|
                0 <= i < all.len() && fact_occurrences(#[trigger] all[i]).contains(v);
            if i < a.len() {
                assert(all[i] == a[i]);
            } else {
                assert(all[i] == b[i - a.len()]);
            }
        }
    }
}

/// The flattening of one branch of a disjunction.
pub open spec fn flattened_branch(
    span: Span,
    branches: Seq<Seq<FactModel>>,
    i: int,
    bound: Set<Name>,
    renaming: Seq<(Name, Name)>,
    reserved: Name,
    n: nat,
) -> (Seq<FactModel>, nat) {
    let locals = local_vars(FactModel::Or(span, branches), i, bound);
    flattened(
        branches[i],
        branches[i].len(),
        bound,
        renaming + fresh_names(locals, reserved, n),
        reserved,
        n + locals.len(),
    )
}

/// The query holds every variable that can be seen outside the facts it was made of,
/// under the name that the renaming gives it.
pub proof fn lemma_query_has_visible(
    fs: Seq<FactModel>,
    k: nat,
    bound: Set<Name>,
    renaming: Seq<(Name, Name)>,
    reserved: Name,
    n: nat,
    j: int,
    v: Name,
)
    requires
        0 <= j < k <= fs.len(),
        renames_vars(renaming),
        !is_global_name(reserved),
        visible(fs[j], scope(bound, fs), v),
    ensures
        facts_occurrences(flattened(fs, k, bound, renaming, reserved, n).0).contains(
            renamed_var(v, renaming),
        ),
    decreases fs, k,
{
    let before = flattened(fs, (k - 1) as nat, bound, renaming, reserved, n);
    let w = renamed_var(v, renaming);
    match fs[k - 1] {
        FactModel::Or(span, branches) => {
            let or = flattened_branches(
                span,
                branches,
                branches.len(),
                scope(bound, fs),
                renaming,
                reserved,
                before.1,
            );
            lemma_facts_occurrences_add(before.0, or.0);
            if j < k - 1 {
                lemma_query_has_visible(fs, (k - 1) as nat, bound, renaming, reserved, n, j, v);
            } else {
                lemma_query_has_visible_or(
                    span,
                    branches,
                    scope(bound, fs),
                    renaming,
                    reserved,
                    before.1,
                    v,
                );
            }
        },
        f => {
            let g = renamed_fact(f, renaming);
            assert(before.0.push(g) =~= before.0 + seq![g]);
            lemma_facts_occurrences_add(before.0, seq![g]);
            if j < k - 1 {
                lemma_query_has_visible(fs, (k - 1) as nat, bound, renaming, reserved, n, j, v);
            } else {
                lemma_renamed_fact_vars(f, renaming);
                lemma_renamed_vars_contains(fact_occurrences(f), renaming, w);
                lemma_facts_occurrences_contains(seq![g], w);
                assert(seq![g][0] == g);
            }
        },
    }
}

/// The same of a disjunction.
pub proof fn lemma_query_has_visible_or(
    span: Span,
    bs: Seq<Seq<FactModel>>,
    bound: Set<Name>,
    renaming: Seq<(Name, Name)>,
    reserved: Name,
    n: nat,
    v: Name,
)
    requires
        renames_vars(renaming),
        !is_global_name(reserved),
        visible(FactModel::Or(span, bs), bound, v),
    ensures
        facts_occurrences(
            flattened_branches(span, bs, bs.len(), bound, renaming, reserved, n).0,
        ).contains(renamed_var(v, renaming)),
    decreases bs, bs.len() + 1,
{
    lemma_visible_or(span, bs, bound, v);
    let i = choose|i: int| 0 <= i < bs.len() && visible_in(#[trigger] bs[i], bound, v);
    lemma_query_has_visible_branch(
        span,
        bs,
        bs.len(),
        bound,
        renaming,
        reserved,
        n,
        i,
        v,
    );
}

proof fn lemma_query_has_visible_branch(
    span: Span,
    bs: Seq<Seq<FactModel>>,
    k: nat,
    bound: Set<Name>,
    renaming: Seq<(Name, Name)>,
    reserved: Name,
    n: nat,
    i: int,
    v: Name,
)
    requires
        0 <= i < k <= bs.len(),
        renames_vars(renaming),
        !is_global_name(reserved),
        visible(FactModel::Or(span, bs), bound, v),
        visible_in(bs[i], bound, v),
    ensures
        facts_occurrences(
            flattened_branches(span, bs, k, bound, renaming, reserved, n).0,
        ).contains(renamed_var(v, renaming)),
    decreases bs, k,
{
    let or = FactModel::Or(span, bs);
    let before = flattened_branches(span, bs, (k - 1) as nat, bound, renaming, reserved, n);
    let branch = flattened_branch(span, bs, k - 1, bound, renaming, reserved, before.1);
    lemma_facts_occurrences_add(before.0, branch.0);
    if i < k - 1 {
        lemma_query_has_visible_branch(
            span,
            bs,
            (k - 1) as nat,
            bound,
            renaming,
            reserved,
            n,
            i,
            v,
        );
    } else {
        let locals = local_vars(or, i, bound);
        let inner = renaming + fresh_names(locals, reserved, before.1);
        lemma_locals(or, i, bound, v);
        lemma_renamed_fresh(v, renaming, locals, reserved, before.1);
        lemma_fresh_renames_vars(renaming, or, i, bound, reserved, before.1);
        let b = scope(bound, bs[i]);
        let j = choose|j: int| 0 <= j < bs[i].len() && visible(#[trigger] bs[i][j], b, v);
        lemma_query_has_visible(
            bs[i],
            bs[i].len(),
            bound,
            inner,
            reserved,
            before.1 + locals.len(),
            j,
            v,
        );
    }
}

/// A name that was handed out as one of the names from `lo` up to `hi`.
pub open spec fn is_fresh(name: Name, reserved: Name, lo: nat, hi: nat) -> bool {
    exists|p: nat, hint: Name| lo <= p < hi && name == #[trigger] nth_name(reserved, p, hint)
}

/// Flattening hands out names one after another.
pub proof fn lemma_flattened_grows(
    fs: Seq<FactModel>,
    k: nat,
    bound: Set<Name>,
    renaming: Seq<(Name, Name)>,
    reserved: Name,
    n: nat,
)
    ensures
        n <= flattened(fs, k, bound, renaming, reserved, n).1,
    decreases fs, k,
{
    if k == 0 || k > fs.len() {
    } else {
        let before = flattened(fs, (k - 1) as nat, bound, renaming, reserved, n);
        lemma_flattened_grows(fs, (k - 1) as nat, bound, renaming, reserved, n);
        match fs[k - 1] {
            FactModel::Or(span, branches) => {
                lemma_flattened_branches_grow(
                    span,
                    branches,
                    0,
                    branches.len(),
                    scope(bound, fs),
                    renaming,
                    reserved,
                    before.1,
                );
            },
            _ => {},
        }
    }
}

pub proof fn lemma_flattened_branches_grow(
    span: Span,
    bs: Seq<Seq<FactModel>>,
    i: nat,
    k: nat,
    bound: Set<Name>,
    renaming: Seq<(Name, Name)>,
    reserved: Name,
    n: nat,
)
    requires
        i <= k <= bs.len(),
    ensures
        flattened_branches(span, bs, i, bound, renaming, reserved, n).1 <= flattened_branches(
            span,
            bs,
            k,
            bound,
            renaming,
            reserved,
            n,
        ).1,
        i < k ==> flattened_branches(span, bs, i, bound, renaming, reserved, n).1 + local_vars(
            FactModel::Or(span, bs),
            i as int,
            bound,
        ).len() <= flattened_branches(span, bs, k, bound, renaming, reserved, n).1,
    decreases bs, k,
{
    if i < k {
        let before = flattened_branches(span, bs, (k - 1) as nat, bound, renaming, reserved, n);
        let locals = local_vars(FactModel::Or(span, bs), k - 1, bound);
        lemma_flattened_branches_grow(
            span,
            bs,
            i,
            (k - 1) as nat,
            bound,
            renaming,
            reserved,
            n,
        );
        lemma_flattened_grows(
            bs[k - 1],
            bs[k - 1].len(),
            bound,
            renaming + fresh_names(locals, reserved, before.1),
            reserved,
            before.1 + locals.len(),
        );
    }
}

/// The query holds no variable but those that can be seen outside the facts it was made
/// of and fresh ones.
pub proof fn lemma_query_vars(
    fs: Seq<FactModel>,
    k: nat,
    bound: Set<Name>,
    renaming: Seq<(Name, Name)>,
    reserved: Name,
    n: nat,
    w: Name,
)
    requires
        k <= fs.len(),
        renames_vars(renaming),
        !is_global_name(reserved),
        facts_occurrences(flattened(fs, k, bound, renaming, reserved, n).0).contains(w),
    ensures
        is_fresh(w, reserved, n, flattened(fs, k, bound, renaming, reserved, n).1) || exists|
            v: Name,
        | #[trigger]
            visible_in(fs, bound, v) && w == renamed_var(v, renaming),
    decreases fs, k,
{
    if k > 0 {
        let before = flattened(fs, (k - 1) as nat, bound, renaming, reserved, n);
        let next = flattened(fs, k, bound, renaming, reserved, n).1;
        let b = scope(bound, fs);
        lemma_flattened_grows(fs, (k - 1) as nat, bound, renaming, reserved, n);
        match fs[k - 1] {
            FactModel::Or(span, branches) => {
                let or = flattened_branches(
                    span,
                    branches,
                    branches.len(),
                    b,
                    renaming,
                    reserved,
                    before.1,
                );
                lemma_flattened_branches_grow(
                    span,
                    branches,
                    0,
                    branches.len(),
                    b,
                    renaming,
                    reserved,
                    before.1,
                );
                lemma_facts_occurrences_add(before.0, or.0);
                if facts_occurrences(before.0).contains(w) {
                    lemma_query_vars(fs, (k - 1) as nat, bound, renaming, reserved, n, w);
                    lemma_fresh_widens(w, reserved, n, before.1, n, next);
                } else {
                    lemma_query_vars_branches(
                        span,
                        branches,
                        branches.len(),
                        b,
                        renaming,
                        reserved,
                        before.1,
                        w,
                    );
                    lemma_fresh_widens(w, reserved, before.1, or.1, n, next);
                    if !is_fresh(w, reserved, before.1, or.1) {
                        let v = choose|v: Name| #[trigger]
                            visible(FactModel::Or(span, branches), b, v) && w == renamed_var(
                                v,
                                renaming,
                            );
                        assert(visible(fs[k - 1], b, v));
                        assert(visible_in(fs, bound, v));
                    }
                }
            },
            f => {
                let g = renamed_fact(f, renaming);
                assert(before.0.push(g) =~= before.0 + seq![g]);
                lemma_facts_occurrences_add(before.0, seq![g]);
                if facts_occurrences(before.0).contains(w) {
                    lemma_query_vars(fs, (k - 1) as nat, bound, renaming, reserved, n, w);
                } else {
                    lemma_facts_occurrences_contains(seq![g], w);
                    lemma_renamed_fact_vars(f, renaming);
                    lemma_renamed_vars_contains(fact_occurrences(f), renaming, w);
                    let v = choose|v: Name| #[trigger]
                        fact_occurrences(f).contains(v) && w == renamed_var(v, renaming);
                    assert(visible(fs[k - 1], b, v));
                    assert(visible_in(fs, bound, v));
                }
            },
        }
    }
}

pub proof fn lemma_fresh_widens(
    name: Name,
    reserved: Name,
    lo: nat,
    hi: nat,
    wider_lo: nat,
    wider_hi: nat,
)
    requires
        wider_lo <= lo,
        hi <= wider_hi,
    ensures
        is_fresh(name, reserved, lo, hi) ==> is_fresh(name, reserved, wider_lo, wider_hi),
{
    if is_fresh(name, reserved, lo, hi) {
        let (p, hint) = choose|p: nat, hint: Name|
            lo <= p < hi && name == #[trigger] nth_name(reserved, p, hint);
        assert(wider_lo <= p < wider_hi && name == nth_name(reserved, p, hint));
    }
}

/// The same of some branches of a disjunction.
proof fn lemma_query_vars_branches(
    span: Span,
    bs: Seq<Seq<FactModel>>,
    k: nat,
    bound: Set<Name>,
    renaming: Seq<(Name, Name)>,
    reserved: Name,
    n: nat,
    w: Name,
)
    requires
        k <= bs.len(),
        renames_vars(renaming),
        !is_global_name(reserved),
        facts_occurrences(
            flattened_branches(span, bs, k, bound, renaming, reserved, n).0,
        ).contains(w),
    ensures
        is_fresh(w, reserved, n, flattened_branches(span, bs, k, bound, renaming, reserved, n).1)
            || exists|v: Name| #[trigger]
            visible(FactModel::Or(span, bs), bound, v) && w == renamed_var(v, renaming),
    decreases bs, k,
{
    if k > 0 {
        let or = FactModel::Or(span, bs);
        let before = flattened_branches(span, bs, (k - 1) as nat, bound, renaming, reserved, n);
        let next = flattened_branches(span, bs, k, bound, renaming, reserved, n).1;
        let branch = flattened_branch(span, bs, k - 1, bound, renaming, reserved, before.1);
        let locals = local_vars(or, k - 1, bound);
        let fresh = fresh_names(locals, reserved, before.1);
        let inner = renaming + fresh;
        lemma_facts_occurrences_add(before.0, branch.0);
        lemma_flattened_branches_grow(
            span,
            bs,
            0,
            (k - 1) as nat,
            bound,
            renaming,
            reserved,
            n,
        );
        lemma_flattened_branches_grow(
            span,
            bs,
            (k - 1) as nat,
            k,
            bound,
            renaming,
            reserved,
            n,
        );
        if facts_occurrences(before.0).contains(w) {
            lemma_query_vars_branches(
                span,
                bs,
                (k - 1) as nat,
                bound,
                renaming,
                reserved,
                n,
                w,
            );
            lemma_fresh_widens(w, reserved, n, before.1, n, next);
        } else {
            lemma_fresh_renames_vars(renaming, or, k - 1, bound, reserved, before.1);
            lemma_query_vars(
                bs[k - 1],
                bs[k - 1].len(),
                bound,
                inner,
                reserved,
                before.1 + locals.len(),
                w,
            );
            lemma_fresh_widens(w, reserved, before.1 + locals.len(), branch.1, n, next);
            if !is_fresh(w, reserved, before.1 + locals.len(), branch.1) {
                let v = choose|v: Name| #[trigger]
                    visible_in(bs[k - 1], bound, v) && w == renamed_var(v, inner);
                lemma_renamed_fresh(v, renaming, locals, reserved, before.1);
                lemma_locals(or, k - 1, bound, v);
                if locals.contains(v) {
                    let j = choose|j: int|
                        0 <= j < locals.len() && renamed_var(v, inner) == #[trigger] fresh[j].1;
                    assert(w == nth_name(reserved, (before.1 + j) as nat, locals[j]));
                    assert(is_fresh(w, reserved, n, next));
                } else {
                    assert(visible(or, bound, v));
                }
            }
        }
    }
}

proof fn lemma_query_plain(
    fs: Seq<FactModel>,
    k: nat,
    bound: Set<Name>,
    renaming: Seq<(Name, Name)>,
    reserved: Name,
    n: nat,
)
    ensures
        all_plain(flattened(fs, k, bound, renaming, reserved, n).0),
    decreases fs, k,
{
    if k == 0 || k > fs.len() {
    } else {
        let before = flattened(fs, (k - 1) as nat, bound, renaming, reserved, n);
        lemma_query_plain(fs, (k - 1) as nat, bound, renaming, reserved, n);
        match fs[k - 1] {
            FactModel::Or(span, branches) => {
                lemma_query_plain_branches(
                    span,
                    branches,
                    branches.len(),
                    scope(bound, fs),
                    renaming,
                    reserved,
                    before.1,
                );
            },
            _ => {},
        }
    }
}

proof fn lemma_query_plain_branches(
    span: Span,
    bs: Seq<Seq<FactModel>>,
    k: nat,
    bound: Set<Name>,
    renaming: Seq<(Name, Name)>,
    reserved: Name,
    n: nat,
)
    ensures
        all_plain(flattened_branches(span, bs, k, bound, renaming, reserved, n).0),
    decreases bs, k,
{
    if k == 0 || k > bs.len() {
    } else {
        let before = flattened_branches(span, bs, (k - 1) as nat, bound, renaming, reserved, n);
        let locals = local_vars(FactModel::Or(span, bs), k - 1, bound);
        lemma_query_plain_branches(span, bs, (k - 1) as nat, bound, renaming, reserved, n);
        lemma_query_plain(
            bs[k - 1],
            bs[k - 1].len(),
            bound,
            renaming + fresh_names(locals, reserved, before.1),
            reserved,
            before.1 + locals.len(),
        );
    }
}

/// The typing query of a rule body is free of disjunctions. It holds every variable that
/// can be seen outside the disjunctions under its own name, and no other variable but
/// fresh ones: what is local to a branch has been renamed.
///
/// The reserved prefix must not make names of globals.
pub proof fn law_query_renames_locals(body: Seq<FactModel>, reserved: Name, n: nat)
    requires
        !is_global_name(reserved),
    ensures
        all_plain(typing_query(body, reserved, n).0),
        forall|v: Name| #[trigger]
            visible_in(body, Set::empty(), v) ==> facts_occurrences(
                typing_query(body, reserved, n).0,
            ).contains(v),
        forall|v: Name| #[trigger]
            facts_occurrences(typing_query(body, reserved, n).0).contains(v) ==> visible_in(
                body,
                Set::empty(),
                v,
            ) || is_fresh(v, reserved, n, typing_query(body, reserved, n).1),
{
    let none = Seq::<(Name, Name)>::empty();
    let query = typing_query(body, reserved, n);
    lemma_query_plain(body, body.len(), Set::empty(), none, reserved, n);
    assert forall|v: Name| #[trigger]
        visible_in(body, Set::empty(), v) implies facts_occurrences(query.0).contains(v) by {
        let b = scope(Set::empty(), body);
        let j = choose|j: int| 0 <= j < body.len() && visible(#[trigger] body[j], b, v);
        lemma_query_has_visible(body, body.len(), Set::empty(), none, reserved, n, j, v);
    }
    assert forall|v: Name| #[trigger] facts_occurrences(query.0).contains(v) implies visible_in(
        body,
        Set::empty(),
        v,
    ) || is_fresh(v, reserved, n, query.1) by {
        lemma_query_vars(body, body.len(), Set::empty(), none, reserved, n, v);
    }
}

/// Variables that are local to different branches of a disjunction, and different
/// variables that are local to one branch, have different names in the typing query.
pub proof fn law_branches_get_names_of_their_own(
    span: Span,
    branches: Seq<Seq<FactModel>>,
    bound: Set<Name>,
    renaming: Seq<(Name, Name)>,
    reserved: Name,
    n: nat,
    i: nat,
    a: int,
    j: nat,
    b: int,
)
    requires
        i < branches.len(),
        j < branches.len(),
        0 <= a < local_vars(FactModel::Or(span, branches), i as int, bound).len(),
        0 <= b < local_vars(FactModel::Or(span, branches), j as int, bound).len(),
        i != j || a != b,
    ensures
        fresh_names(
            local_vars(FactModel::Or(span, branches), i as int, bound),
            reserved,
            flattened_branches(span, branches, i, bound, renaming, reserved, n).1,
        )[a].1 != fresh_names(
            local_vars(FactModel::Or(span, branches), j as int, bound),
            reserved,
            flattened_branches(span, branches, j, bound, renaming, reserved, n).1,
        )[b].1,
{
    let or = FactModel::Or(span, branches);
    let first = local_vars(or, i as int, bound);
    let second = local_vars(or, j as int, bound);
    let start = flattened_branches(span, branches, i, bound, renaming, reserved, n).1;
    let other = flattened_branches(span, branches, j, bound, renaming, reserved, n).1;
    if i < j {
        lemma_flattened_branches_grow(span, branches, i, j, bound, renaming, reserved, n);
    } else if j < i {
        lemma_flattened_branches_grow(span, branches, j, i, bound, renaming, reserved, n);
    }
    let p = (start + a) as nat;
    let q = (other + b) as nat;
    if nth_name(reserved, p, first[a]) == nth_name(reserved, q, second[b]) {
        law_names_are_distinct(reserved, p, first[a], q, second[b]);
    }
}

/// The first `k` facts of a conjunction, with every disjunction replaced by the facts of
/// all its branches.
pub open spec fn spread(fs: Seq<FactModel>, k: nat) -> Seq<FactModel>
    decreases fs, k,
{
    if k == 0 || k > fs.len() {
        seq![]
    } else {
        let before = spread(fs, (k - 1) as nat);
        match fs[k - 1] {
            FactModel::Or(_, branches) => before + spread_branches(branches, branches.len()),
            f => before.push(f),
        }
    }
}

/// The first `k` branches of a disjunction, likewise.
pub open spec fn spread_branches(branches: Seq<Seq<FactModel>>, k: nat) -> Seq<FactModel>
    decreases branches, k,
{
    if k == 0 || k > branches.len() {
        seq![]
    } else {
        spread_branches(branches, (k - 1) as nat) + spread(
            branches[k - 1],
            branches[k - 1].len(),
        )
    }
}

/// Whether no variable is local to a branch of a fact's disjunctions, where `bound` holds
/// the variables bound inside the conjunction that the fact belongs to.
pub open spec fn fact_has_no_locals(f: FactModel, bound: Set<Name>) -> bool
    decreases f,
{
    match f {
        FactModel::Or(_, branches) => forall|i: int|
            0 <= i < branches.len() ==> local_vars(f, i, bound).len() == 0 && has_no_locals(
                #[trigger] branches[i],
                bound,
            ),
        _ => true,
    }
}

/// The same of a conjunction, where `bound` holds the variables bound around it.
pub open spec fn has_no_locals(fs: Seq<FactModel>, bound: Set<Name>) -> bool
    decreases fs,
{
    forall|j: int| 0 <= j < fs.len() ==> fact_has_no_locals(#[trigger] fs[j], scope(bound, fs))
}

proof fn lemma_renamed_expr_same(e: ExprModel)
    ensures
        renamed_expr(e, seq![]) == e,
    decreases e,
{
    match e {
        ExprModel::Call(_, _, args) => {
            assert forall|i: int| 0 <= i < args.len() implies renamed_expr(
                #[trigger] args[i],
                seq![],
            ) == args[i] by {
                lemma_renamed_expr_same(args[i]);
            }
            assert(renamed_exprs(args, seq![]) =~= args);
        },
        _ => {},
    }
}

proof fn lemma_renamed_fact_same(f: FactModel)
    ensures
        renamed_fact(f, seq![]) == f,
{
    match f {
        FactModel::Eq(_, e1, e2) => {
            lemma_renamed_expr_same(e1);
            lemma_renamed_expr_same(e2);
        },
        FactModel::Fact(e) => lemma_renamed_expr_same(e),
        FactModel::Or(_, _) => {},
    }
}

proof fn lemma_flattened_spread(
    fs: Seq<FactModel>,
    k: nat,
    bound: Set<Name>,
    reserved: Name,
    n: nat,
)
    requires
        k <= fs.len(),
        has_no_locals(fs, bound),
    ensures
        flattened(fs, k, bound, seq![], reserved, n) == (spread(fs, k), n),
    decreases fs, k,
{
    if k > 0 {
        lemma_flattened_spread(fs, (k - 1) as nat, bound, reserved, n);
        assert(fact_has_no_locals(fs[k - 1], scope(bound, fs)));
        match fs[k - 1] {
            FactModel::Or(span, branches) => {
                lemma_flattened_branches_spread(
                    span,
                    branches,
                    branches.len(),
                    scope(bound, fs),
                    reserved,
                    n,
                );
            },
            f => lemma_renamed_fact_same(f),
        }
    }
}

proof fn lemma_flattened_branches_spread(
    span: Span,
    bs: Seq<Seq<FactModel>>,
    k: nat,
    bound: Set<Name>,
    reserved: Name,
    n: nat,
)
    requires
        k <= bs.len(),
        fact_has_no_locals(FactModel::Or(span, bs), bound),
    ensures
        flattened_branches(span, bs, k, bound, seq![], reserved, n) == (spread_branches(bs, k), n),
    decreases bs, k,
{
    if k > 0 {
        let or = FactModel::Or(span, bs);
        lemma_flattened_branches_spread(span, bs, (k - 1) as nat, bound, reserved, n);
        match or {
            FactModel::Or(_, branches) => {
                assert(branches[k - 1] == bs[k - 1]);
                assert(has_no_locals(branches[k - 1], bound));
            },
            _ => {},
        }
        let locals = local_vars(or, k - 1, bound);
        assert(locals.len() == 0);
        let none = Seq::<(Name, Name)>::empty();
        assert(none + fresh_names(locals, reserved, n) =~= none);
        lemma_flattened_spread(bs[k - 1], bs[k - 1].len(), bound, reserved, n);
    }
}

proof fn lemma_facts_occurrences_concat(a: Seq<FactModel>, b: Seq<FactModel>)
    ensures
        facts_occurrences(a + b) == facts_occurrences(a) + facts_occurrences(b),
    decreases b.len(),
{
    if b.len() == 0 {
        assert(a + b =~= a);
        assert(facts_occurrences(a) + facts_occurrences(b) =~= facts_occurrences(a));
    } else {
        assert((a + b).drop_last() =~= a + b.drop_last());
        lemma_facts_occurrences_concat(a, b.drop_last());
        assert(facts_occurrences(a + b) =~= facts_occurrences(a) + facts_occurrences(b));
    }
}

proof fn lemma_spread_vars(fs: Seq<FactModel>, k: nat)
    requires
        k <= fs.len(),
    ensures
        facts_occurrences(spread(fs, k)) == facts_occurrences(fs.take(k as int)),
    decreases fs, k,
{
    if k > 0 {
        let before = spread(fs, (k - 1) as nat);
        lemma_spread_vars(fs, (k - 1) as nat);
        assert(fs.take(k as int).drop_last() =~= fs.take(k - 1));
        assert(fs.take(k as int).last() == fs[k - 1]);
        match fs[k - 1] {
            FactModel::Or(span, branches) => {
                lemma_spread_branches_vars(branches, branches.len());
                assert(branches.take(branches.len() as int) =~= branches);
                lemma_facts_occurrences_concat(
                    before,
                    spread_branches(branches, branches.len()),
                );
                assert(fact_occurrences(fs[k - 1]) == branches_occurrences(branches));
            },
            f => {
                assert(before.push(f).drop_last() =~= before);
            },
        }
    } else {
        assert(fs.take(0) =~= Seq::<FactModel>::empty());
    }
}

proof fn lemma_spread_branches_vars(bs: Seq<Seq<FactModel>>, k: nat)
    requires
        k <= bs.len(),
    ensures
        facts_occurrences(spread_branches(bs, k)) == branches_occurrences(bs.take(k as int)),
    decreases bs, k,
{
    if k > 0 {
        let fs = bs[k - 1];
        lemma_spread_branches_vars(bs, (k - 1) as nat);
        lemma_spread_vars(fs, fs.len());
        assert(fs.take(fs.len() as int) =~= fs);
        lemma_facts_occurrences_concat(
            spread_branches(bs, (k - 1) as nat),
            spread(fs, fs.len()),
        );
        assert(bs.take(k as int).drop_last() =~= bs.take(k - 1));
        assert(bs.take(k as int).last() == fs);
    } else {
        assert(bs.take(0) =~= Seq::<Seq<FactModel>>::empty());
    }
}

/// The typing query of a body without branch-local variables is the body with every
/// disjunction replaced by the facts of all its branches. It takes no names, and it
/// mentions the variables of the body in their order.
pub proof fn law_query_without_locals_is_the_flat_body(
    body: Seq<FactModel>,
    reserved: Name,
    n: nat,
)
    requires
        has_no_locals(body, Set::empty()),
    ensures
        typing_query(body, reserved, n) == (spread(body, body.len()), n),
        facts_occurrences(typing_query(body, reserved, n).0) == facts_occurrences(body),
{
    lemma_flattened_spread(body, body.len(), Set::empty(), reserved, n);
    lemma_spread_vars(body, body.len());
    assert(body.take(body.len() as int) =~= body);
}

/// Whether the variables of one list stand in the order of another, those that have been
/// replaced by fresh ones aside.
pub open spec fn same_but_fresh(
    query: Seq<Name>,
    body: Seq<Name>,
    reserved: Name,
    lo: nat,
    hi: nat,
) -> bool {
    &&& query.len() == body.len()
    &&& forall|i: int|
        #![trigger query[i]]
        0 <= i < query.len() ==> query[i] == body[i] || is_fresh(query[i], reserved, lo, hi)
}

/// Whether a renaming gives variables fresh names only.
pub open spec fn renames_to_fresh(
    renaming: Seq<(Name, Name)>,
    reserved: Name,
    lo: nat,
    hi: nat,
) -> bool {
    forall|i: int|
        0 <= i < renaming.len() ==> is_fresh((#[trigger] renaming[i]).1, reserved, lo, hi)
}

proof fn lemma_renamed_var_fresh(
    v: Name,
    renaming: Seq<(Name, Name)>,
    reserved: Name,
    lo: nat,
    hi: nat,
)
    requires
        renames_to_fresh(renaming, reserved, lo, hi),
    ensures
        renamed_var(v, renaming) == v || is_fresh(renamed_var(v, renaming), reserved, lo, hi),
    decreases renaming.len(),
{
    if renaming.len() > 0 {
        let front = renaming.drop_last();
        assert forall|i: int| 0 <= i < front.len() implies is_fresh(
            (#[trigger] front[i]).1,
            reserved,
            lo,
            hi,
        ) by {
            assert(renaming[i] == front[i]);
        }
        lemma_renamed_var_fresh(v, front, reserved, lo, hi);
        assert(renaming.last() == renaming[renaming.len() - 1]);
    }
}

proof fn lemma_same_but_fresh_add(
    a: Seq<Name>,
    b: Seq<Name>,
    c: Seq<Name>,
    d: Seq<Name>,
    reserved: Name,
    lo: nat,
    hi: nat,
)
    requires
        same_but_fresh(a, c, reserved, lo, hi),
        same_but_fresh(b, d, reserved, lo, hi),
    ensures
        same_but_fresh(a + b, c + d, reserved, lo, hi),
{
    let all = a + b;
    let whole = c + d;
    assert forall|i: int|
        #![trigger all[i]]
        0 <= i < all.len() implies all[i] == whole[i] || is_fresh(all[i], reserved, lo, hi) by {
        if i < a.len() {
            assert(all[i] == a[i] && whole[i] == c[i]);
        } else {
            assert(all[i] == b[i - a.len()] && whole[i] == d[i - a.len()]);
        }
    }
}

proof fn lemma_query_order(
    fs: Seq<FactModel>,
    k: nat,
    bound: Set<Name>,
    renaming: Seq<(Name, Name)>,
    reserved: Name,
    n: nat,
    lo: nat,
    hi: nat,
)
    requires
        k <= fs.len(),
        renames_vars(renaming),
        !is_global_name(reserved),
        renames_to_fresh(renaming, reserved, lo, hi),
        lo <= n,
        flattened(fs, k, bound, renaming, reserved, n).1 <= hi,
    ensures
        same_but_fresh(
            facts_occurrences(flattened(fs, k, bound, renaming, reserved, n).0),
            facts_occurrences(fs.take(k as int)),
            reserved,
            lo,
            hi,
        ),
    decreases fs, k,
{
    if k > 0 {
        let before = flattened(fs, (k - 1) as nat, bound, renaming, reserved, n);
        let b = scope(bound, fs);
        lemma_flattened_grows(fs, (k - 1) as nat, bound, renaming, reserved, n);
        assert(fs.take(k as int).drop_last() =~= fs.take(k - 1));
        assert(fs.take(k as int).last() == fs[k - 1]);
        match fs[k - 1] {
            FactModel::Or(span, branches) => {
                let or = flattened_branches(
                    span,
                    branches,
                    branches.len(),
                    b,
                    renaming,
                    reserved,
                    before.1,
                );
                lemma_flattened_branches_grow(
                    span,
                    branches,
                    0,
                    branches.len(),
                    b,
                    renaming,
                    reserved,
                    before.1,
                );
                lemma_query_order(fs, (k - 1) as nat, bound, renaming, reserved, n, lo, hi);
                lemma_query_order_branches(
                    span,
                    branches,
                    branches.len(),
                    b,
                    renaming,
                    reserved,
                    before.1,
                    lo,
                    hi,
                );
                assert(branches.take(branches.len() as int) =~= branches);
                assert(fact_occurrences(fs[k - 1]) == branches_occurrences(branches));
                lemma_facts_occurrences_concat(before.0, or.0);
                lemma_same_but_fresh_add(
                    facts_occurrences(before.0),
                    facts_occurrences(or.0),
                    facts_occurrences(fs.take(k - 1)),
                    fact_occurrences(fs[k - 1]),
                    reserved,
                    lo,
                    hi,
                );
            },
            f => {
                let g = renamed_fact(f, renaming);
                lemma_query_order(fs, (k - 1) as nat, bound, renaming, reserved, n, lo, hi);
                lemma_renamed_fact_vars(f, renaming);
                assert(before.0.push(g).drop_last() =~= before.0);
                assert forall|i: int|
                    #![trigger fact_occurrences(g)[i]]
                    0 <= i < fact_occurrences(g).len() implies fact_occurrences(g)[i]
                    == fact_occurrences(f)[i] || is_fresh(
                    fact_occurrences(g)[i],
                    reserved,
                    lo,
                    hi,
                ) by {
                    lemma_renamed_var_fresh(
                        fact_occurrences(f)[i],
                        renaming,
                        reserved,
                        lo,
                        hi,
                    );
                }
                lemma_same_but_fresh_add(
                    facts_occurrences(before.0),
                    fact_occurrences(g),
                    facts_occurrences(fs.take(k - 1)),
                    fact_occurrences(f),
                    reserved,
                    lo,
                    hi,
                );
            },
        }
    } else {
        assert(fs.take(0) =~= Seq::<FactModel>::empty());
    }
}

proof fn lemma_query_order_branches(
    span: Span,
    bs: Seq<Seq<FactModel>>,
    k: nat,
    bound: Set<Name>,
    renaming: Seq<(Name, Name)>,
    reserved: Name,
    n: nat,
    lo: nat,
    hi: nat,
)
    requires
        k <= bs.len(),
        renames_vars(renaming),
        !is_global_name(reserved),
        renames_to_fresh(renaming, reserved, lo, hi),
        lo <= n,
        flattened_branches(span, bs, k, bound, renaming, reserved, n).1 <= hi,
    ensures
        same_but_fresh(
            facts_occurrences(flattened_branches(span, bs, k, bound, renaming, reserved, n).0),
            branches_occurrences(bs.take(k as int)),
            reserved,
            lo,
            hi,
        ),
    decreases bs, k,
{
    if k > 0 {
        let or = FactModel::Or(span, bs);
        let before = flattened_branches(span, bs, (k - 1) as nat, bound, renaming, reserved, n);
        let branch = flattened_branch(span, bs, k - 1, bound, renaming, reserved, before.1);
        let fs = bs[k - 1];
        let locals = local_vars(or, k - 1, bound);
        let fresh = fresh_names(locals, reserved, before.1);
        let inner = renaming + fresh;
        let start = before.1 + locals.len();
        lemma_flattened_branches_grow(
            span,
            bs,
            0,
            (k - 1) as nat,
            bound,
            renaming,
            reserved,
            n,
        );
        lemma_flattened_grows(fs, fs.len(), bound, inner, reserved, start);
        lemma_query_order_branches(
            span,
            bs,
            (k - 1) as nat,
            bound,
            renaming,
            reserved,
            n,
            lo,
            hi,
        );
        lemma_fresh_renames_vars(renaming, or, k - 1, bound, reserved, before.1);
        assert forall|i: int| 0 <= i < inner.len() implies is_fresh(
            (#[trigger] inner[i]).1,
            reserved,
            lo,
            hi,
        ) by {
            if i < renaming.len() {
                assert(inner[i] == renaming[i]);
            } else {
                let j = i - renaming.len();
                assert(inner[i] == fresh[j]);
                let p = (before.1 + j) as nat;
                assert(lo <= p < hi && inner[i].1 == nth_name(reserved, p, locals[j]));
            }
        }
        lemma_query_order(fs, fs.len(), bound, inner, reserved, start, lo, hi);
        assert(fs.take(fs.len() as int) =~= fs);
        assert(bs.take(k as int).drop_last() =~= bs.take(k - 1));
        assert(bs.take(k as int).last() == fs);
        lemma_facts_occurrences_concat(before.0, branch.0);
        lemma_same_but_fresh_add(
            facts_occurrences(before.0),
            facts_occurrences(branch.0),
            branches_occurrences(bs.take(k - 1)),
            facts_occurrences(fs),
            reserved,
            lo,
            hi,
        );
    } else {
        assert(bs.take(0) =~= Seq::<Seq<FactModel>>::empty());
    }
}

/// The typing query mentions the variables of the body one for one and in their order,
/// save that some have fresh names: those that are local to a branch.
///
/// The reserved prefix must not make names of globals.
pub proof fn law_query_keeps_the_order(body: Seq<FactModel>, reserved: Name, n: nat)
    requires
        !is_global_name(reserved),
    ensures
        same_but_fresh(
            facts_occurrences(typing_query(body, reserved, n).0),
            facts_occurrences(body),
            reserved,
            n,
            typing_query(body, reserved, n).1,
        ),
{
    let none = Seq::<(Name, Name)>::empty();
    let hi = typing_query(body, reserved, n).1;
    lemma_query_order(body, body.len(), Set::empty(), none, reserved, n, n, hi);
    assert(body.take(body.len() as int) =~= body);
}

/// One expression is another with names in the place of variables: each variable has its own
/// name or a fresh one made of it, and globals, functions, constants and spans are the same.
pub open spec fn expr_alike(q: ExprModel, e: ExprModel, reserved: Name) -> bool
    decreases e,
{
    match e {
        ExprModel::Lit(_, _) => q == e,
        ExprModel::Var(span, v) => q matches ExprModel::Var(at, w) && at == span && stands_for(
            w,
            v,
            reserved,
        ) && (is_global_name(v) ==> w == v),
        ExprModel::Call(span, f, es) => q matches ExprModel::Call(at, g, qs) && at == span && g == f
            && qs.len() == es.len() && forall|i: int|
            0 <= i < es.len() ==> expr_alike(qs[i], #[trigger] es[i], reserved),
    }
}

/// The same of plain facts.
pub open spec fn fact_alike(q: FactModel, f: FactModel, reserved: Name) -> bool {
    match f {
        FactModel::Eq(span, e1, e2) => q matches FactModel::Eq(at, q1, q2) && at == span
            && expr_alike(q1, e1, reserved) && expr_alike(q2, e2, reserved),
        FactModel::Fact(e) => q matches FactModel::Fact(q1) && expr_alike(q1, e, reserved),
        FactModel::Or(_, _) => false,
    }
}

/// The same of conjunctions, fact by fact.
pub open spec fn facts_alike(qs: Seq<FactModel>, fs: Seq<FactModel>, reserved: Name) -> bool {
    &&& qs.len() == fs.len()
    &&& forall|i: int| 0 <= i < fs.len() ==> fact_alike(qs[i], #[trigger] fs[i], reserved)
}

/// A renaming leaves globals alone.
pub open spec fn keeps_globals(renaming: Seq<(Name, Name)>) -> bool {
    forall|i: int| 0 <= i < renaming.len() ==> !is_global_name((#[trigger] renaming[i]).0)
}

proof fn lemma_global_kept(v: Name, renaming: Seq<(Name, Name)>)
    requires
        keeps_globals(renaming),
        is_global_name(v),
    ensures
        renamed_var(v, renaming) == v,
    decreases renaming.len(),
{
    if renaming.len() > 0 {
        let front = renaming.drop_last();
        assert(renaming[renaming.len() - 1] == renaming.last());
        assert forall|i: int| 0 <= i < front.len() implies !is_global_name(
            (#[trigger] front[i]).0,
        ) by {
            assert(front[i] == renaming[i]);
        }
        lemma_global_kept(v, front);
    }
}

proof fn lemma_expr_alike(e: ExprModel, renaming: Seq<(Name, Name)>, reserved: Name)
    requires
        keeps_globals(renaming),
        names_stand_for(renaming, reserved),
    ensures
        expr_alike(renamed_expr(e, renaming), e, reserved),
    decreases e,
{
    match e {
        ExprModel::Var(_, v) => {
            lemma_renamed_stands_for(v, renaming, reserved);
            if is_global_name(v) {
                lemma_global_kept(v, renaming);
            }
        },
        ExprModel::Call(_, _, es) => {
            let qs = renamed_exprs(es, renaming);
            assert forall|i: int| 0 <= i < es.len() implies expr_alike(
                qs[i],
                #[trigger] es[i],
                reserved,
            ) by {
                lemma_expr_alike(es[i], renaming, reserved);
                assert(qs[i] == renamed_expr(es[i], renaming));
            }
        },
        ExprModel::Lit(_, _) => {},
    }
}

proof fn lemma_alike_add(
    qs: Seq<FactModel>,
    fs: Seq<FactModel>,
    rs: Seq<FactModel>,
    gs: Seq<FactModel>,
    reserved: Name,
)
    requires
        facts_alike(qs, fs, reserved),
        facts_alike(rs, gs, reserved),
    ensures
        facts_alike(qs + rs, fs + gs, reserved),
{
    let all = fs + gs;
    let both = qs + rs;
    assert forall|i: int| 0 <= i < all.len() implies fact_alike(
        both[i],
        #[trigger] all[i],
        reserved,
    ) by {
        if i < fs.len() {
            assert(all[i] == fs[i] && both[i] == qs[i]);
        } else {
            assert(all[i] == gs[i - fs.len()] && both[i] == rs[i - fs.len()]);
        }
    }
}

proof fn lemma_query_alike(
    fs: Seq<FactModel>,
    k: nat,
    bound: Set<Name>,
    renaming: Seq<(Name, Name)>,
    reserved: Name,
    n: nat,
)
    requires
        k <= fs.len(),
        keeps_globals(renaming),
        names_stand_for(renaming, reserved),
    ensures
        facts_alike(flattened(fs, k, bound, renaming, reserved, n).0, spread(fs, k), reserved),
    decreases fs, k,
{
    if k > 0 {
        let before = flattened(fs, (k - 1) as nat, bound, renaming, reserved, n);
        let flat = spread(fs, (k - 1) as nat);
        lemma_query_alike(fs, (k - 1) as nat, bound, renaming, reserved, n);
        match fs[k - 1] {
            FactModel::Or(span, branches) => {
                let or = flattened_branches(
                    span,
                    branches,
                    branches.len(),
                    scope(bound, fs),
                    renaming,
                    reserved,
                    before.1,
                );
                lemma_query_alike_branches(
                    span,
                    branches,
                    branches.len(),
                    scope(bound, fs),
                    renaming,
                    reserved,
                    before.1,
                );
                lemma_alike_add(
                    before.0,
                    flat,
                    or.0,
                    spread_branches(branches, branches.len()),
                    reserved,
                );
            },
            f => {
                let q = renamed_fact(f, renaming);
                match f {
                    FactModel::Eq(_, e1, e2) => {
                        lemma_expr_alike(e1, renaming, reserved);
                        lemma_expr_alike(e2, renaming, reserved);
                    },
                    FactModel::Fact(e) => lemma_expr_alike(e, renaming, reserved),
                    FactModel::Or(_, _) => {},
                }
                assert(fact_alike(seq![q][0], seq![f][0], reserved));
                lemma_alike_add(before.0, flat, seq![q], seq![f], reserved);
                assert(before.0.push(q) =~= before.0 + seq![q]);
                assert(flat.push(f) =~= flat + seq![f]);
            },
        }
    }
}

proof fn lemma_query_alike_branches(
    span: Span,
    bs: Seq<Seq<FactModel>>,
    k: nat,
    bound: Set<Name>,
    renaming: Seq<(Name, Name)>,
    reserved: Name,
    n: nat,
)
    requires
        k <= bs.len(),
        keeps_globals(renaming),
        names_stand_for(renaming, reserved),
    ensures
        facts_alike(
            flattened_branches(span, bs, k, bound, renaming, reserved, n).0,
            spread_branches(bs, k),
            reserved,
        ),
    decreases bs, k,
{
    if k > 0 {
        let or = FactModel::Or(span, bs);
        let before = flattened_branches(span, bs, (k - 1) as nat, bound, renaming, reserved, n);
        let locals = local_vars(or, k - 1, bound);
        let fresh = fresh_names(locals, reserved, before.1);
        let inner = renaming + fresh;
        let branch = flattened(
            bs[k - 1],
            bs[k - 1].len(),
            bound,
            inner,
            reserved,
            before.1 + locals.len(),
        );
        lemma_query_alike_branches(span, bs, (k - 1) as nat, bound, renaming, reserved, n);
        assert forall|j: int| 0 <= j < inner.len() implies !is_global_name(
            (#[trigger] inner[j]).0,
        ) by {
            if j < renaming.len() {
                assert(inner[j] == renaming[j]);
            } else {
                let m = j - renaming.len();
                assert(inner[j] == fresh[m]);
                assert(locals.contains(locals[m]));
                lemma_locals(or, k - 1, bound, locals[m]);
            }
        }
        assert forall|j: int| 0 <= j < inner.len() implies stands_for(
            (#[trigger] inner[j]).1,
            inner[j].0,
            reserved,
        ) by {
            if j < renaming.len() {
                assert(inner[j] == renaming[j]);
            } else {
                assert(inner[j] == fresh[j - renaming.len()]);
            }
        }
        lemma_query_alike(
            bs[k - 1],
            bs[k - 1].len(),
            bound,
            inner,
            reserved,
            before.1 + locals.len(),
        );
        lemma_alike_add(
            before.0,
            spread_branches(bs, (k - 1) as nat),
            branch.0,
            spread(bs[k - 1], bs[k - 1].len()),
            reserved,
        );
    }
}

/// The typing query holds the facts of the body, those of every branch of every disjunction
/// among them, one for one and in their order. Nothing in them changes but the names of
/// variables, and a variable has its own name or a fresh one made of it.
pub proof fn law_query_holds_every_fact(body: Seq<FactModel>, reserved: Name, n: nat)
    ensures
        facts_alike(typing_query(body, reserved, n).0, spread(body, body.len()), reserved),
{
    lemma_query_alike(body, body.len(), Set::empty(), seq![], reserved, n);
}

} // verus!
