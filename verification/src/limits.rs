//! Which variables a branch limits to the values of a database.

use vstd::prelude::*;

use crate::ast::{ExprModel, FactModel, LiteralModel, Name};
use crate::materialize::{anchored, anchors, is_closed, is_match_var, settles};
use crate::mentions::{expr_mentions, law_expr_vars_are_mentioned, some_mentions};
use crate::scope::{all_plain, is_or, scope};
use crate::semantics::{
    eval, eval_all, holds, holds_all, lemma_eval_agree, Assignment, Database, Value,
};
use crate::vars::{expr_occurrences, fact_occurrences, is_global_name, lemma_add_contains};

verus! {

/// Every constant, every global, and every argument and value of every row is one of some
/// values.
pub open spec fn speaks_of(db: Database, values: Set<Value>) -> bool {
    &&& forall|l: LiteralModel| values.contains(#[trigger] (db.literal)(l))
    &&& forall|g: Name| values.contains(#[trigger] (db.global)(g))
    &&& forall|f: Name, args: Seq<Value>|
        #![trigger (db.call)(f, args)]
        (db.call)(f, args) is Some ==> values.contains((db.call)(f, args)->0) && forall|i: int|
            0 <= i < args.len() ==> values.contains(#[trigger] args[i])
}

proof fn lemma_eval_all_index(es: Seq<ExprModel>, db: Database, s: Assignment, i: int)
    requires
        eval_all(es, db, s) is Some,
        0 <= i < es.len(),
    ensures
        eval_all(es, db, s)->0.len() == es.len(),
        eval(es[i], db, s) == Some(eval_all(es, db, s)->0[i]),
    decreases es.len(),
{
    let front = es.drop_last();
    lemma_eval_all_len(front, db, s);
    if i < front.len() {
        lemma_eval_all_index(front, db, s, i);
        assert(front[i] == es[i]);
    }
}

proof fn lemma_eval_all_len(es: Seq<ExprModel>, db: Database, s: Assignment)
    ensures
        eval_all(es, db, s) matches Some(values) ==> values.len() == es.len(),
    decreases es.len(),
{
    if es.len() > 0 {
        lemma_eval_all_len(es.drop_last(), db, s);
    }
}

/// An expression with a value that is more than a variable has a value of the database, and
/// so do the variables in it.
proof fn lemma_eval_limits(
    e: ExprModel,
    db: Database,
    s: Assignment,
    values: Set<Value>,
    v: Name,
)
    requires
        speaks_of(db, values),
        eval(e, db, s) is Some,
        !is_match_var(e),
    ensures
        values.contains(eval(e, db, s)->0),
        expr_mentions(e, v) && !is_global_name(v) ==> values.contains(s(v)),
    decreases e,
{
    if let ExprModel::Call(_, f, args) = e {
        let given = eval_all(args, db, s)->0;
        assert((db.call)(f, given) is Some);
        if expr_mentions(e, v) && !is_global_name(v) {
            assert(some_mentions(args, v));
            let i = choose|i: int| 0 <= i < args.len() && expr_mentions(#[trigger] args[i], v);
            lemma_eval_all_index(args, db, s, i);
            assert(values.contains(given[i]));
            if !is_match_var(args[i]) {
                lemma_eval_limits(args[i], db, s, values, v);
            }
        }
    }
}

/// A branch that anchors a variable limits it: wherever the branch holds, the variable has a
/// value that the database speaks of.
pub proof fn law_anchored_variables_are_limited(
    branch: Seq<FactModel>,
    v: Name,
    db: Database,
    s: Assignment,
    values: Set<Value>,
)
    requires
        all_plain(branch),
        anchored(branch, v),
        speaks_of(db, values),
        holds_all(branch, db, s, Set::empty()),
    ensures
        values.contains(s(v)),
{
    let known = Set::new(|w: Name| values.contains(s(w)));
    let around = scope(Set::empty(), branch);
    assert forall|j: int, w: Name|
        #![trigger fact_occurrences(branch[j]).contains(w)]
        0 <= j < branch.len() && settles(branch[j], known) && fact_occurrences(branch[j]).contains(
            w,
        ) implies known.contains(w) by {
        let f = branch[j];
        assert(!is_or(f));
        assert(holds(f, db, s, around));
        lemma_settled(f, db, s, around, values, known, w);
    }
    assert(is_closed(branch, known));
    assert(known.contains(v));
}

proof fn lemma_settled(
    f: FactModel,
    db: Database,
    s: Assignment,
    around: Set<Name>,
    values: Set<Value>,
    known: Set<Name>,
    w: Name,
)
    requires
        !is_or(f),
        speaks_of(db, values),
        known == Set::new(|x: Name| values.contains(s(x))),
        holds(f, db, s, around),
        settles(f, known),
        fact_occurrences(f).contains(w),
    ensures
        known.contains(w),
{
    match f {
        FactModel::Fact(e) => {
            law_expr_vars_are_mentioned(e, w);
            if is_match_var(e) {
                let x = choose|x: Name| #[trigger] fact_occurrences(f).contains(x) && known.contains(
                    x,
                );
                law_expr_vars_are_mentioned(e, x);
            } else {
                lemma_eval_limits(e, db, s, values, w);
            }
        },
        FactModel::Eq(_, e1, e2) => {
            lemma_add_contains(expr_occurrences(e1), expr_occurrences(e2), w);
            law_expr_vars_are_mentioned(e1, w);
            law_expr_vars_are_mentioned(e2, w);
            if !is_match_var(e1) {
                lemma_eval_limits(e1, db, s, values, w);
            }
            if !is_match_var(e2) {
                lemma_eval_limits(e2, db, s, values, w);
            }
            if is_match_var(e1) && is_match_var(e2) {
                let x = choose|x: Name| #[trigger] fact_occurrences(f).contains(x) && known.contains(
                    x,
                );
                lemma_add_contains(expr_occurrences(e1), expr_occurrences(e2), x);
                law_expr_vars_are_mentioned(e1, x);
                law_expr_vars_are_mentioned(e2, x);
            }
        },
        FactModel::Or(_, _) => {},
    }
}

/// A branch that does not anchor a variable does not limit it: wherever the branch holds, it
/// holds with any other value for the variable, and with the same values for all variables
/// that it anchors.
pub proof fn law_other_variables_are_not_limited(
    branch: Seq<FactModel>,
    v: Name,
    db: Database,
    s: Assignment,
    value: Value,
)
    requires
        all_plain(branch),
        !anchored(branch, v),
        holds_all(branch, db, s, Set::empty()),
    ensures
        exists|t: Assignment|
            {
                &&& #[trigger] holds_all(branch, db, t, Set::empty())
                &&& t(v) == value
                &&& forall|w: Name| #[trigger] anchored(branch, w) ==> t(w) == s(w)
            },
{
    let known = choose|known: Set<Name>| #[trigger] is_closed(branch, known) && !known.contains(v);
    let t: Assignment = |w: Name|
        if known.contains(w) {
            s(w)
        } else {
            value
        };
    let around = scope(Set::empty(), branch);
    assert forall|j: int| 0 <= j < branch.len() implies holds(
        #[trigger] branch[j],
        db,
        t,
        around,
    ) by {
        let f = branch[j];
        assert(!is_or(f));
        assert(holds(f, db, s, around));
        if settles(f, known) {
            assert forall|w: Name| fact_occurrences(f).contains(w) implies #[trigger] s(w) == t(
                w,
            ) by {
                assert(fact_occurrences(branch[j]).contains(w));
                assert(known.contains(w));
            }
            match f {
                FactModel::Eq(_, e1, e2) => {
                    let a = expr_occurrences(e1);
                    let b = expr_occurrences(e2);
                    assert forall|w: Name| a.contains(w) || b.contains(w) implies #[trigger] s(w)
                        == t(w) by {
                        lemma_add_contains(a, b, w);
                        assert(fact_occurrences(f).contains(w));
                    }
                    lemma_eval_agree(e1, db, s, t);
                    lemma_eval_agree(e2, db, s, t);
                },
                FactModel::Fact(e) => lemma_eval_agree(e, db, s, t),
                FactModel::Or(_, _) => {},
            }
        } else {
            assert(!anchors(f));
            match f {
                FactModel::Eq(_, e1, e2) => {
                    let x = e1->Var_1;
                    let y = e2->Var_1;
                    law_expr_vars_are_mentioned(e1, x);
                    law_expr_vars_are_mentioned(e2, y);
                    lemma_add_contains(expr_occurrences(e1), expr_occurrences(e2), x);
                    lemma_add_contains(expr_occurrences(e1), expr_occurrences(e2), y);
                    assert(fact_occurrences(f).contains(x));
                    assert(fact_occurrences(f).contains(y));
                    assert(t(x) == value && t(y) == value);
                },
                _ => {},
            }
        }
    }
    assert(holds_all(branch, db, t, Set::empty()));
    assert forall|w: Name| #[trigger] anchored(branch, w) implies t(w) == s(w) by {
        assert(known.contains(w));
    }
}

} // verus!
