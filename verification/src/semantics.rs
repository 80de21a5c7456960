//! What facts, rules and relations mean.
//!
//! A database gives every function, relation and primitive its rows, every constant its
//! value and every global its value. An assignment gives every variable a value.

use vstd::prelude::*;

use crate::ast::{ActionModel, CommandModel, ExprModel, FactModel, LiteralModel, Name};
use crate::scope::{scope, visible, visible_in, visible_vars};
use crate::vars::{expr_occurrences, exprs_occurrences, is_global_name, lemma_add_contains};

verus! {

/// A value, of whatever sort.
pub type Value = int;

/// A value for every variable.
pub type Assignment = spec_fn(Name) -> Value;

/// The state that facts are matched against.
pub struct Database {
    /// The value of a function on some arguments, if there is a row for them. Of a
    /// relation, any value stands for a tuple that is in it.
    pub call: spec_fn(Name, Seq<Value>) -> Option<Value>,
    pub literal: spec_fn(LiteralModel) -> Value,
    pub global: spec_fn(Name) -> Value,
}

/// The value of an expression, if it has one.
pub open spec fn eval(e: ExprModel, db: Database, s: Assignment) -> Option<Value>
    decreases e,
{
    match e {
        ExprModel::Lit(_, l) => Some((db.literal)(l)),
        ExprModel::Var(_, v) => Some(
            if is_global_name(v) {
                (db.global)(v)
            } else {
                s(v)
            },
        ),
        ExprModel::Call(_, f, args) => match eval_all(args, db, s) {
            Some(values) => (db.call)(f, values),
            None => None,
        },
    }
}

/// The values of a list of expressions, if all have one.
pub open spec fn eval_all(es: Seq<ExprModel>, db: Database, s: Assignment) -> Option<Seq<Value>>
    decreases es,
{
    if es.len() == 0 {
        Some(seq![])
    } else {
        match (eval_all(es.drop_last(), db, s), eval(es.last(), db, s)) {
            (Some(values), Some(value)) => Some(values.push(value)),
            _ => None,
        }
    }
}

/// Two assignments give some variables the same values.
pub open spec fn agree(s: Assignment, t: Assignment, vars: Set<Name>) -> bool {
    forall|v: Name| vars.contains(v) ==> #[trigger] s(v) == t(v)
}

/// Whether a fact holds, where `bound` holds the variables bound inside the conjunction
/// that the fact belongs to.
///
/// A disjunction holds if some branch does, under the same values for the variables that
/// can be seen outside the disjunction and under any values for the others.
pub open spec fn holds(f: FactModel, db: Database, s: Assignment, bound: Set<Name>) -> bool
    decreases f,
{
    match f {
        FactModel::Eq(_, e1, e2) => eval(e1, db, s) is Some && eval(e1, db, s) == eval(e2, db, s),
        FactModel::Fact(e) => eval(e, db, s) is Some,
        FactModel::Or(_, branches) => exists|i: int, t: Assignment|
            0 <= i < branches.len() && #[trigger] agree(s, t, visible_vars(f, bound)) && holds_all(
                #[trigger] branches[i],
                db,
                t,
                bound,
            ),
    }
}

/// Whether a conjunction holds, where `bound` holds the variables bound around it.
pub open spec fn holds_all(
    fs: Seq<FactModel>,
    db: Database,
    s: Assignment,
    bound: Set<Name>,
) -> bool
    decreases fs,
{
    forall|i: int| 0 <= i < fs.len() ==> holds(#[trigger] fs[i], db, s, scope(bound, fs))
}

/// Whether an action evaluates a relation on the given arguments, which puts the tuple
/// into the relation.
pub open spec fn puts(
    action: ActionModel,
    relation: Name,
    args: Seq<Value>,
    db: Database,
    s: Assignment,
) -> bool {
    action matches ActionModel::Expr(_, ExprModel::Call(_, f, es)) && f == relation && eval_all(
        es,
        db,
        s,
    ) == Some(args)
}

/// Whether a match of a rule puts a tuple into a relation.
pub open spec fn derives(
    command: CommandModel,
    relation: Name,
    args: Seq<Value>,
    db: Database,
) -> bool {
    command matches CommandModel::Rule { rule } && exists|s: Assignment, k: int|
        0 <= k < rule.head.len() && puts(#[trigger] rule.head[k], relation, args, db, s)
            && #[trigger] holds_all(rule.body, db, s, Set::empty())
}

/// Whether a tuple is in a relation.
pub open spec fn in_relation(db: Database, relation: Name, args: Seq<Value>) -> bool {
    (db.call)(relation, args) is Some
}

/// A relation holds exactly what the rules of a program put into it.
pub open spec fn settled(db: Database, relation: Name, program: Seq<CommandModel>) -> bool {
    forall|args: Seq<Value>| #[trigger]
        in_relation(db, relation, args) <==> exists|j: int|
            0 <= j < program.len() && derives(#[trigger] program[j], relation, args, db)
}

/// The relations that a program declares hold exactly what its rules put into them: the
/// program has been run to its fixpoint, and nothing else has touched those relations.
pub open spec fn at_fixpoint(db: Database, program: Seq<CommandModel>) -> bool {
    forall|i: int|
        0 <= i < program.len() ==> (#[trigger] program[i] matches CommandModel::Relation {
            name,
            ..
        } ==> settled(db, name, program))
}

pub proof fn lemma_eval_agree(e: ExprModel, db: Database, s: Assignment, t: Assignment)
    requires
        forall|v: Name| expr_occurrences(e).contains(v) ==> #[trigger] s(v) == t(v),
    ensures
        eval(e, db, s) == eval(e, db, t),
    decreases e,
{
    match e {
        ExprModel::Var(_, v) => {
            if !is_global_name(v) {
                assert(seq![v][0] == v);
                assert(expr_occurrences(e).contains(v));
                assert(s(v) == t(v));
            }
        },
        ExprModel::Call(_, _, args) => lemma_eval_all_agree(args, db, s, t),
        ExprModel::Lit(_, _) => {},
    }
}

pub proof fn lemma_eval_all_agree(
    es: Seq<ExprModel>,
    db: Database,
    s: Assignment,
    t: Assignment,
)
    requires
        forall|v: Name| exprs_occurrences(es).contains(v) ==> #[trigger] s(v) == t(v),
    ensures
        eval_all(es, db, s) == eval_all(es, db, t),
    decreases es,
{
    if es.len() > 0 {
        let a = exprs_occurrences(es.drop_last());
        let b = expr_occurrences(es.last());
        assert forall|v: Name| a.contains(v) || b.contains(v) implies #[trigger] s(v) == t(v) by {
            lemma_add_contains(a, b, v);
        }
        lemma_eval_all_agree(es.drop_last(), db, s, t);
        lemma_eval_agree(es.last(), db, s, t);
    }
}

/// Whether a fact holds depends only on the variables that can be seen outside it.
pub proof fn law_fact_reads_visible_vars(
    f: FactModel,
    db: Database,
    s: Assignment,
    t: Assignment,
    bound: Set<Name>,
)
    requires
        agree(s, t, visible_vars(f, bound)),
    ensures
        holds(f, db, s, bound) == holds(f, db, t, bound),
{
    match f {
        FactModel::Eq(_, e1, e2) => {
            let a = expr_occurrences(e1);
            let b = expr_occurrences(e2);
            assert forall|v: Name| a.contains(v) || b.contains(v) implies #[trigger] s(v) == t(
                v,
            ) by {
                lemma_add_contains(a, b, v);
                assert(visible_vars(f, bound).contains(v));
            }
            lemma_eval_agree(e1, db, s, t);
            lemma_eval_agree(e2, db, s, t);
        },
        FactModel::Fact(e) => {
            assert forall|v: Name| expr_occurrences(e).contains(v) implies #[trigger] s(v) == t(
                v,
            ) by {
                assert(visible_vars(f, bound).contains(v));
            }
            lemma_eval_agree(e, db, s, t);
        },
        FactModel::Or(_, branches) => {
            lemma_or_agree(f, db, s, t, bound);
            lemma_or_agree(f, db, t, s, bound);
        },
    }
}

proof fn lemma_or_agree(
    f: FactModel,
    db: Database,
    s: Assignment,
    t: Assignment,
    bound: Set<Name>,
)
    requires
        f is Or,
        agree(s, t, visible_vars(f, bound)),
    ensures
        holds(f, db, s, bound) ==> holds(f, db, t, bound),
{
    if holds(f, db, s, bound) {
        let branches = f->Or_1;
        let (i, u) = choose|i: int, u: Assignment|
            0 <= i < branches.len() && #[trigger] agree(s, u, visible_vars(f, bound)) && holds_all(
                #[trigger] branches[i],
                db,
                u,
                bound,
            );
        assert forall|v: Name| visible_vars(f, bound).contains(v) implies #[trigger] t(v) == u(
            v,
        ) by {
            assert(s(v) == t(v));
            assert(s(v) == u(v));
        }
        assert(agree(t, u, visible_vars(f, bound)));
    }
}

/// Whether a conjunction holds depends only on the variables that can be seen outside
/// it.
pub proof fn law_conjunction_reads_visible_vars(
    fs: Seq<FactModel>,
    db: Database,
    s: Assignment,
    t: Assignment,
    bound: Set<Name>,
)
    requires
        agree(s, t, Set::new(|v: Name| visible_in(fs, bound, v))),
    ensures
        holds_all(fs, db, s, bound) == holds_all(fs, db, t, bound),
{
    let seen = Set::new(|v: Name| visible_in(fs, bound, v));
    assert forall|i: int| 0 <= i < fs.len() implies holds(
        #[trigger] fs[i],
        db,
        s,
        scope(bound, fs),
    ) == holds(fs[i], db, t, scope(bound, fs)) by {
        assert forall|v: Name|
            visible_vars(fs[i], scope(bound, fs)).contains(v) implies #[trigger] s(v) == t(v) by {
            assert(visible(fs[i], scope(bound, fs), v));
            assert(seen.contains(v));
        }
        law_fact_reads_visible_vars(fs[i], db, s, t, scope(bound, fs));
    }
}

} // verus!
