//! The materialization of one disjunction whose branches hold plain facts only.
//!
//! The disjunction becomes a relation over its key, one rule for each branch that puts
//! the branch's key tuples into the relation, and one atom that reads it.

use vstd::prelude::*;

use crate::ast::{
    branch_models, clone_facts, command_models, expr_models, fact_models, group_models, names,
    Action, ActionModel, Actions, Command, CommandModel, Expr, ExprModel, Fact, FactModel, Name,
    Rule, RuleEvalMode, RuleModel, Span,
};
use crate::error::{Error, TypeError, TypeErrorModel};
use crate::flatten::{renamed_var, Renaming};
use crate::index_set::{
    index_set_contains, index_set_into_vec, index_set_items, index_set_retain_key,
};
use crate::lowered_vars::lemma_facts_occurrences_contains;
use crate::scope::all_plain;
use crate::symbol_gen::{nth_name, SymbolGen};
use crate::typing::SortMap;
use crate::vars::{
    accumulate_fact_vars, accumulate_facts_vars_ordered, branches_occurrences, fact_list_vars,
    fact_occurrences, fact_vars, facts_occurrences, is_global, is_global_name, key_var,
    lemma_branches_occurrences_take, lemma_push_contains, lemma_with_all_add,
    lemma_with_all_contains, lemma_with_all_no_duplicates, ordered_vars, var_sets, with, with_all,
    VarSet,
};
use indexmap::IndexSet;

verus! {

/// What surrounds a disjunction.
pub struct Surroundings {
    /// The variables that are used outside the disjunction.
    pub outside: VarSet,
    /// The variables that the surrounding conjunctions bind.
    pub bound: VarSet,
    /// The plain facts of the surrounding conjunctions, outermost first. No disjunction is
    /// among them.
    pub context: Vec<Fact>,
}

/// The model of what surrounds a disjunction, with what its lowering draws on.
pub struct Env {
    pub outside: Set<Name>,
    pub bound: Set<Name>,
    pub context: Seq<FactModel>,
    pub ruleset: Name,
    /// The sort of each variable of the typing query.
    pub sorts: Map<Name, Name>,
    /// The names that variables have in the typing query.
    pub renaming: Seq<(Name, Name)>,
    pub reserved: Name,
    /// How many names had been handed out when the typing query got here.
    pub queried: nat,
}

/// The model of what surrounds a disjunction.
pub open spec fn env_of(
    around: &Surroundings,
    ruleset: Name,
    sorts: Map<Name, Name>,
    renaming: Seq<(Name, Name)>,
    reserved: Name,
    queried: nat,
) -> Env {
    Env {
        outside: around.outside@.to_set(),
        bound: around.bound@.to_set(),
        context: fact_models(around.context@),
        ruleset,
        sorts,
        renaming,
        reserved,
        queried,
    }
}

/// What a lowering step returns, the commands it adds to the program, and the number of
/// names handed out once it is done.
pub struct Outcome<T> {
    pub result: Result<T, TypeErrorModel>,
    pub aux: Seq<CommandModel>,
    pub next: nat,
}

/// The first value of a sequence that meets a condition.
pub open spec fn first_such(s: Seq<Name>, p: spec_fn(Name) -> bool) -> Option<Name>
    decreases s.len(),
{
    if s.len() == 0 {
        None
    } else {
        match first_such(s.drop_last(), p) {
            Some(v) => Some(v),
            None => if p(s.last()) {
                Some(s.last())
            } else {
                None
            },
        }
    }
}

/// The variables of each branch.
pub open spec fn branch_var_sets(branches: Seq<Seq<FactModel>>) -> Seq<Set<Name>> {
    Seq::new(branches.len(), |i: int| facts_occurrences(branches[i]).to_set())
}

/// The key of a disjunction: the variables that every branch has or that the surrounding
/// conjunctions bind, in the order in which the branches first mention them.
pub open spec fn key_of(branches: Seq<Seq<FactModel>>, bound: Set<Name>) -> Seq<Name> {
    with_all(seq![], branches_occurrences(branches)).filter(
        |v: Name| key_var(v, bound, branch_var_sets(branches)),
    )
}

/// The first variable that is local to a branch and used outside the disjunction.
pub open spec fn first_escape(
    branches: Seq<Seq<FactModel>>,
    key: Seq<Name>,
    outside: Set<Name>,
) -> Option<Name> {
    first_such(
        branches_occurrences(branches),
        |v: Name| !key.contains(v) && outside.contains(v),
    )
}

/// The first variable of a key whose name in the typing query has no sort.
pub open spec fn first_untyped(
    key: Seq<Name>,
    sorts: Map<Name, Name>,
    renaming: Seq<(Name, Name)>,
) -> Option<Name> {
    first_such(key, |v: Name| !sorts.contains_key(renamed_var(v, renaming)))
}

/// The relation applied to the key variables.
pub open spec fn key_atom(span: Span, relation: Name, key: Seq<Name>) -> ExprModel {
    ExprModel::Call(span, relation, Seq::new(key.len(), |i: int| ExprModel::Var(span, key[i])))
}

/// A variable that a match gives its value to.
pub open spec fn is_match_var(e: ExprModel) -> bool {
    e matches ExprModel::Var(_, v) && !is_global_name(v)
}

/// Whether a fact limits its variables to the values that something else has: the rows of
/// a function or relation, or a constant. An equation of two variables does not.
///
/// A call is taken for one of a function or relation with rows. Of a primitive such as `!=`,
/// which gives its arguments no values, that is not so: nothing is promised of primitives in
/// branches.
pub open spec fn anchors(f: FactModel) -> bool {
    match f {
        FactModel::Eq(_, e1, e2) => !is_match_var(e1) || !is_match_var(e2),
        FactModel::Fact(e) => !is_match_var(e),
        FactModel::Or(_, _) => false,
    }
}

/// Whether a fact gives values to all its variables where some variables have values
/// already.
pub open spec fn settles(f: FactModel, known: Set<Name>) -> bool {
    anchors(f) || exists|v: Name| #[trigger] fact_occurrences(f).contains(v) && known.contains(v)
}

/// Whether the facts of a branch give no values to variables outside a set, where those in
/// the set have values.
pub open spec fn is_closed(branch: Seq<FactModel>, known: Set<Name>) -> bool {
    forall|j: int, v: Name|
        #![trigger fact_occurrences(branch[j]).contains(v)]
        0 <= j < branch.len() && settles(branch[j], known) && fact_occurrences(branch[j]).contains(
            v,
        ) ==> known.contains(v)
}

/// Whether a branch gives a value to a variable by itself: the variable belongs to a fact
/// that anchors its variables, or a chain of equations ties it to one that does. The order
/// of the facts plays no part.
pub open spec fn anchored(branch: Seq<FactModel>, v: Name) -> bool {
    forall|known: Set<Name>| #[trigger] is_closed(branch, known) ==> known.contains(v)
}

/// Whether a branch gives values to every key variable without the help of the
/// surrounding conjunctions.
pub open spec fn stands_alone(branch: Seq<FactModel>, key: Seq<Name>, bound: Set<Name>) -> bool {
    forall|i: int|
        0 <= i < key.len() && bound.contains(#[trigger] key[i]) ==> anchored(branch, key[i])
}

/// The body of a branch's rule: the branch, after the surrounding facts where it needs
/// them to give values to the key.
pub open spec fn branch_body(
    branch: Seq<FactModel>,
    key: Seq<Name>,
    bound: Set<Name>,
    context: Seq<FactModel>,
) -> Seq<FactModel> {
    if stands_alone(branch, key, bound) {
        branch
    } else {
        context + branch
    }
}

/// The hint in the names of the relations.
pub open spec fn relation_hint() -> Name {
    "or_union"@
}

/// The hint in the names of the rules.
pub open spec fn branch_hint() -> Name {
    "or_branch"@
}

/// The rule that puts the key tuples of one branch into the relation.
pub open spec fn branch_rule(
    span: Span,
    branch: Seq<FactModel>,
    key: Seq<Name>,
    relation: Name,
    name: Name,
    env: Env,
) -> CommandModel {
    CommandModel::Rule {
        rule: RuleModel {
            span,
            head: seq![ActionModel::Expr(span, key_atom(span, relation, key))],
            body: branch_body(branch, key, env.bound, env.context),
            name,
            ruleset: env.ruleset,
            eval_mode: RuleEvalMode::Seminaive,
            no_decomp: false,
            include_subsumed: false,
        },
    }
}

/// The declaration of the relation.
pub open spec fn relation_decl(
    span: Span,
    key: Seq<Name>,
    relation: Name,
    sorts: Map<Name, Name>,
    renaming: Seq<(Name, Name)>,
) -> CommandModel {
    CommandModel::Relation {
        span,
        name: relation,
        inputs: Seq::new(key.len(), |i: int| sorts[renamed_var(key[i], renaming)]),
    }
}

/// The rules of all branches.
pub open spec fn branch_rules(
    span: Span,
    branches: Seq<Seq<FactModel>>,
    key: Seq<Name>,
    relation: Name,
    env: Env,
    n: nat,
) -> Seq<CommandModel> {
    Seq::new(
        branches.len(),
        |i: int|
            branch_rule(
                span,
                branches[i],
                key,
                relation,
                nth_name(env.reserved, (n + i) as nat, branch_hint()),
                env,
            ),
    )
}

/// The materialization of a disjunction of plain branches.
pub open spec fn materialized(
    span: Span,
    branches: Seq<Seq<FactModel>>,
    env: Env,
    n: nat,
) -> Outcome<FactModel> {
    let key = key_of(branches, env.bound);
    let relation = nth_name(env.reserved, n, relation_hint());
    if branches.len() == 0 {
        Outcome {
            result: Err(TypeErrorModel::OrWithoutBranches(span)),
            aux: seq![],
            next: n,
        }
    } else {
        match first_escape(branches, key, env.outside) {
            Some(v) => Outcome {
                result: Err(TypeErrorModel::OrBranchLocalEscapes(v, span)),
                aux: seq![],
                next: n,
            },
            None => match first_untyped(key, env.sorts, env.renaming) {
                Some(v) => Outcome {
                    result: Err(TypeErrorModel::UntypedVariable(v, span)),
                    aux: seq![],
                    next: n,
                },
                None => Outcome {
                    result: Ok(FactModel::Fact(key_atom(span, relation, key))),
                    aux: seq![relation_decl(span, key, relation, env.sorts, env.renaming)] + branch_rules(
                        span,
                        branches,
                        key,
                        relation,
                        env,
                        n + 1,
                    ),
                    next: n + 1 + branches.len(),
                },
            },
        }
    }
}

proof fn lemma_first_such_add(a: Seq<Name>, b: Seq<Name>, p: spec_fn(Name) -> bool)
    ensures
        first_such(a + b, p) == match first_such(a, p) {
            Some(v) => Some(v),
            None => first_such(b, p),
        },
    decreases b.len(),
{
    if b.len() == 0 {
        assert(a + b =~= a);
    } else {
        assert((a + b).drop_last() =~= a + b.drop_last());
        lemma_first_such_add(a, b.drop_last(), p);
    }
}

pub proof fn lemma_first_such_none(s: Seq<Name>, p: spec_fn(Name) -> bool)
    ensures
        first_such(s, p) is None <==> forall|v: Name| #[trigger] s.contains(v) ==> !p(v),
        first_such(s, p) matches Some(v) ==> s.contains(v) && p(v),
    decreases s.len(),
{
    if s.len() > 0 {
        let t = s.drop_last();
        lemma_first_such_none(t, p);
        assert(s =~= t.push(s.last()));
        assert forall|v: Name| s.contains(v) <==> t.contains(v) || v == s.last() by {
            lemma_push_contains(t, s.last(), v);
        }
        assert(s.contains(s.last()));
        if first_such(t, p) is None {
            assert(first_such(s, p) is None <==> forall|v: Name| #[trigger] s.contains(v) ==> !p(v));
        } else {
            let v = first_such(t, p)->0;
            assert(s.contains(v) && p(v));
        }
    }
}

/// Repeats do not change which value is the first to meet a condition.
proof fn lemma_first_such_with_all(s: Seq<Name>, p: spec_fn(Name) -> bool)
    ensures
        first_such(with_all(seq![], s), p) == first_such(s, p),
    decreases s.len(),
{
    if s.len() > 0 {
        let t = s.drop_last();
        let before = with_all(seq![], t);
        lemma_first_such_with_all(t, p);
        if before.contains(s.last()) {
            lemma_first_such_none(before, p);
        } else {
            assert(before.push(s.last()).drop_last() =~= before);
        }
    }
}

/// The relation applied to the key variables.
fn insert_expr(span: Span, relation: &String, key: &Vec<String>) -> (e: Expr)
    ensures
        e@ == key_atom(span, relation@, names(key@)),
{
    broadcast use group_models;

    let mut args: Vec<Expr> = Vec::new();
    let mut i: usize = 0;
    while i < key.len()
        invariant
            i <= key.len(),
            args.len() == i,
            forall|j: int| 0 <= j < i ==> #[trigger] args[j]@ == ExprModel::Var(span, key[j]@),
        decreases key.len() - i,
    {
        args.push(Expr::Var(span, key[i].clone()));
        i = i + 1;
    }
    proof {
        let models = key_atom(span, relation@, names(key@))->Call_2;
        assert(expr_models(args@) =~= models);
    }
    Expr::Call(span, relation.clone(), args)
}

/// A branch gives values only to variables that it mentions.
pub proof fn lemma_anchored_occurs(branch: Seq<FactModel>, v: Name)
    requires
        anchored(branch, v),
    ensures
        facts_occurrences(branch).contains(v),
{
    let all = facts_occurrences(branch).to_set();
    assert forall|j: int, w: Name|
        #![trigger fact_occurrences(branch[j]).contains(w)]
        0 <= j < branch.len() && settles(branch[j], all) && fact_occurrences(branch[j]).contains(
            w,
        ) implies all.contains(w) by {
        lemma_facts_occurrences_contains(branch, w);
    }
    assert(is_closed(branch, all));
}

fn is_match_variable(e: &Expr) -> (r: bool)
    ensures
        r == is_match_var(e@),
{
    match e {
        Expr::Var(_, v) => !is_global(v),
        _ => false,
    }
}

/// Whether a fact anchors its variables.
fn is_anchor(fact: &Fact) -> (r: bool)
    ensures
        r == anchors(fact@),
{
    match fact {
        Fact::Eq(_, e1, e2) => !is_match_variable(e1) || !is_match_variable(e2),
        Fact::Fact(e) => !is_match_variable(e),
        Fact::Or(_, _) => false,
    }
}

/// Whether a fact mentions one of some variables.
fn shares_var(fact: &Fact, vars: &VarSet) -> (r: bool)
    ensures
        r == exists|v: Name| #[trigger] fact_occurrences(fact@).contains(v) && vars@.contains(v),
{
    let mentioned = fact_vars(fact);
    let ghost all = fact_occurrences(fact@);
    let mut i: usize = 0;
    while i < mentioned.len()
        invariant
            i <= mentioned@.len(),
            mentioned@ == with_all(seq![], all),
            all == fact_occurrences(fact@),
            forall|j: int| 0 <= j < i ==> !vars@.contains(#[trigger] mentioned@[j]),
        decreases mentioned@.len() - i,
    {
        let v = mentioned.get(i);
        if vars.contains(v) {
            proof {
                assert(mentioned@.contains(v@));
                lemma_with_all_contains(seq![], all, v@);
                assert(all.contains(v@) && vars@.contains(v@));
            }
            return true;
        }
        i = i + 1;
    }
    proof {
        assert forall|v: Name| #[trigger] all.contains(v) implies !vars@.contains(v) by {
            lemma_with_all_contains(seq![], all, v);
            let j = choose|j: int| 0 <= j < mentioned@.len() && mentioned@[j] == v;
            assert(!vars@.contains(mentioned@[j]));
        }
    }
    false
}

/// What has been inserted stays, and nothing was inserted where the length is the same.
proof fn lemma_with_all_grows(items: Seq<Name>, more: Seq<Name>)
    ensures
        items.len() <= with_all(items, more).len(),
        items.len() == with_all(items, more).len() ==> with_all(items, more) == items,
    decreases more.len(),
{
    if more.len() > 0 {
        lemma_with_all_grows(items, more.drop_last());
    }
}

proof fn lemma_distinct_len(a: Seq<Name>, b: Seq<Name>)
    requires
        a.no_duplicates(),
        b.no_duplicates(),
        forall|v: Name| #[trigger] a.contains(v) ==> b.contains(v),
    ensures
        a.len() <= b.len(),
{
    a.unique_seq_to_set();
    b.unique_seq_to_set();
    vstd::seq_lib::seq_to_set_is_finite(b);
    assert(a.to_set().subset_of(b.to_set()));
    vstd::set_lib::lemma_len_subset(a.to_set(), b.to_set());
}

/// Adds the variables of the facts that settle theirs, in one pass over a branch; the
/// result says whether there were any that the set did not hold.
fn settle_once(branch: &Vec<Fact>, out: &mut VarSet) -> (grown: bool)
    requires
        old(out)@.no_duplicates(),
        forall|v: Name| #[trigger]
            old(out)@.contains(v) ==> anchored(fact_models(branch@), v),
    ensures
        final(out)@.no_duplicates(),
        forall|v: Name| #[trigger]
            final(out)@.contains(v) ==> anchored(fact_models(branch@), v),
        grown ==> final(out)@.len() > old(out)@.len(),
        !grown ==> final(out)@ == old(out)@ && is_closed(fact_models(branch@), final(out)@.to_set()),
{
    broadcast use group_models;

    let ghost fs = fact_models(branch@);
    let start = out.len();
    let mut i: usize = 0;
    while i < branch.len()
        invariant
            i <= branch.len(),
            fs == fact_models(branch@),
            start == old(out)@.len(),
            out@.no_duplicates(),
            forall|v: Name| #[trigger] out@.contains(v) ==> anchored(fs, v),
            out@.len() >= start,
            out@.len() == start ==> out@ == old(out)@ && forall|j: int, v: Name|
                #![trigger fact_occurrences(fs[j]).contains(v)]
                0 <= j < i && settles(fs[j], out@.to_set()) && fact_occurrences(fs[j]).contains(v)
                    ==> out@.to_set().contains(v),
        decreases branch.len() - i,
    {
        let ghost before = out@;
        let ghost f = fs[i as int];
        let ghost vars = fact_occurrences(f);
        if is_anchor(&branch[i]) || shares_var(&branch[i], out) {
            accumulate_fact_vars(&branch[i], out);
            proof {
                lemma_with_all_grows(before, vars);
                lemma_with_all_no_duplicates(before, vars);
                assert forall|v: Name| #[trigger] out@.contains(v) implies anchored(fs, v) by {
                    lemma_with_all_contains(before, vars, v);
                    if vars.contains(v) && !before.contains(v) {
                        assert forall|known: Set<Name>| #[trigger]
                            is_closed(fs, known) implies known.contains(v) by {
                            if !anchors(f) {
                                let w = choose|w: Name| #[trigger]
                                    vars.contains(w) && before.contains(w);
                                assert(anchored(fs, w));
                                assert(known.contains(w));
                            }
                            assert(settles(fs[i as int], known));
                            assert(fact_occurrences(fs[i as int]).contains(v));
                        }
                    }
                }
                assert forall|v: Name| #[trigger] vars.contains(v) implies out@.contains(v) by {
                    lemma_with_all_contains(before, vars, v);
                }
            }
        } else {
            assert(!settles(f, out@.to_set()));
        }
        i = i + 1;
    }
    out.len() > start
}

/// The variables that a branch gives values to by itself.
fn branch_anchored_vars(branch: &Vec<Fact>) -> (vars: VarSet)
    ensures
        forall|v: Name| #[trigger]
            vars@.contains(v) <==> anchored(fact_models(branch@), v),
{
    let ghost fs = fact_models(branch@);
    let ghost all = with_all(seq![], facts_occurrences(fs));
    let mut out = VarSet::new();
    let mut grown = true;
    proof {
        lemma_with_all_no_duplicates(seq![], facts_occurrences(fs));
    }
    while grown
        invariant
            fs == fact_models(branch@),
            all == with_all(seq![], facts_occurrences(fs)),
            all.no_duplicates(),
            out@.no_duplicates(),
            out@.len() <= all.len(),
            forall|v: Name| #[trigger] out@.contains(v) ==> anchored(fs, v),
            !grown ==> is_closed(fs, out@.to_set()),
        decreases all.len() - out@.len(), (if grown { 1int } else { 0int }),
    {
        grown = settle_once(branch, &mut out);
        proof {
            assert forall|v: Name| #[trigger] out@.contains(v) implies all.contains(v) by {
                lemma_anchored_occurs(fs, v);
                lemma_with_all_contains(seq![], facts_occurrences(fs), v);
            }
            lemma_distinct_len(out@, all);
        }
    }
    assert forall|v: Name| anchored(fs, v) implies #[trigger] out@.contains(v) by {
        assert(out@.to_set().contains(v));
    }
    out
}

/// Whether a branch gives values to every key variable by itself.
fn branch_stands_alone(branch: &Vec<Fact>, key: &Vec<String>, bound: &VarSet) -> (r: bool)
    ensures
        r == stands_alone(fact_models(branch@), names(key@), bound@.to_set()),
{
    let alone = branch_anchored_vars(branch);
    let ghost given = alone@;
    let ghost ks = names(key@);
    let mut i: usize = 0;
    while i < key.len()
        invariant
            i <= key.len(),
            ks == names(key@),
            forall|v: Name| #[trigger]
                given.contains(v) <==> anchored(fact_models(branch@), v),
            given == alone@,
            forall|j: int|
                0 <= j < i && bound@.to_set().contains(#[trigger] ks[j]) ==> given.contains(ks[j]),
        decreases key.len() - i,
    {
        if bound.contains(&key[i]) && !alone.contains(&key[i]) {
            assert(bound@.to_set().contains(ks[i as int]));
            assert(!given.contains(ks[i as int]));
            return false;
        }
        i = i + 1;
    }
    true
}

/// The variables of each branch.
fn branches_vars(branches: &Vec<Vec<Fact>>) -> (sets: Vec<VarSet>)
    ensures
        sets.len() == branches.len(),
        forall|i: int|
            0 <= i < sets.len() ==> #[trigger] sets[i]@ == with_all(
                seq![],
                facts_occurrences(branch_models(branches@)[i]),
            ),
        var_sets(sets@) == branch_var_sets(branch_models(branches@)),
{
    broadcast use group_models;

    let ghost bs = branch_models(branches@);
    let mut sets: Vec<VarSet> = Vec::new();
    let mut i: usize = 0;
    while i < branches.len()
        invariant
            i <= branches.len(),
            bs == branch_models(branches@),
            sets.len() == i,
            forall|j: int|
                0 <= j < i ==> #[trigger] sets[j]@ == with_all(seq![], facts_occurrences(bs[j])),
        decreases branches.len() - i,
    {
        sets.push(fact_list_vars(&branches[i]));
        i = i + 1;
    }
    proof {
        assert forall|j: int| 0 <= j < sets.len() implies #[trigger] var_sets(sets@)[j]
            == branch_var_sets(bs)[j] by {
            assert forall|v: Name|
                sets[j]@.to_set().contains(v) <==> #[trigger] facts_occurrences(
                    bs[j],
                ).to_set().contains(v) by {
                lemma_with_all_contains(seq![], facts_occurrences(bs[j]), v);
            }
            assert(sets[j]@.to_set() =~= facts_occurrences(bs[j]).to_set());
        }
        assert(var_sets(sets@) =~= branch_var_sets(bs));
    }
    sets
}

/// The key of a disjunction.
fn key_vars(
    branches: &Vec<Vec<Fact>>,
    bound: &VarSet,
    branch_vars: &Vec<VarSet>,
) -> (key: IndexSet<String>)
    requires
        branches.len() > 0,
        var_sets(branch_vars@) == branch_var_sets(branch_models(branches@)),
    ensures
        index_set_items(key) == key_of(branch_models(branches@), bound@.to_set()),
{
    broadcast use group_models;

    let ghost bs = branch_models(branches@);
    let mut key = ordered_vars(&branches[0]);
    proof {
        lemma_branches_occurrences_take(bs, 0);
        assert(bs.take(0).len() == 0);
        assert(branches_occurrences(bs.take(1)) =~= facts_occurrences(bs[0]));
    }
    let mut i: usize = 1;
    while i < branches.len()
        invariant
            1 <= i <= branches.len(),
            bs == branch_models(branches@),
            index_set_items(key) == with_all(seq![], branches_occurrences(bs.take(i as int))),
        decreases branches.len() - i,
    {
        accumulate_facts_vars_ordered(&branches[i], &mut key);
        proof {
            lemma_branches_occurrences_take(bs, i as int);
            lemma_with_all_add(
                seq![],
                branches_occurrences(bs.take(i as int)),
                facts_occurrences(bs[i as int]),
            );
        }
        i = i + 1;
    }
    assert(bs.take(i as int) =~= bs);
    index_set_retain_key(&mut key, bound, branch_vars);
    key
}

/// A variable that is local to a branch and used outside the disjunction.
fn find_escape(
    branches: &Vec<Vec<Fact>>,
    branch_vars: &Vec<VarSet>,
    key: &IndexSet<String>,
    outside: &VarSet,
) -> (escape: Option<String>)
    requires
        branch_vars.len() == branches.len(),
        forall|i: int|
            0 <= i < branch_vars.len() ==> #[trigger] branch_vars[i]@ == with_all(
                seq![],
                facts_occurrences(branch_models(branches@)[i]),
            ),
    ensures
        match escape {
            Some(v) => first_escape(
                branch_models(branches@),
                index_set_items(*key),
                outside@.to_set(),
            ) == Some(v@),
            None => first_escape(
                branch_models(branches@),
                index_set_items(*key),
                outside@.to_set(),
            ) is None,
        },
{
    broadcast use group_models;

    let ghost bs = branch_models(branches@);
    let ghost p = |v: Name| !index_set_items(*key).contains(v) && outside@.to_set().contains(v);
    let mut i: usize = 0;
    while i < branch_vars.len()
        invariant
            i <= branch_vars.len(),
            bs == branch_models(branches@),
            branch_vars.len() == bs.len(),
            forall|j: int|
                0 <= j < branch_vars.len() ==> #[trigger] branch_vars[j]@ == with_all(
                    seq![],
                    facts_occurrences(bs[j]),
                ),
            p == (|v: Name| !index_set_items(*key).contains(v) && outside@.to_set().contains(v)),
            first_such(branches_occurrences(bs.take(i as int)), p) is None,
        decreases branch_vars.len() - i,
    {
        let vars = &branch_vars[i];
        let mut j: usize = 0;
        while j < vars.len()
            invariant
                i < branch_vars.len(),
                j <= vars@.len(),
                bs == branch_models(branches@),
                branch_vars.len() == bs.len(),
                vars@ == with_all(seq![], facts_occurrences(bs[i as int])),
                p == (|v: Name|
                    !index_set_items(*key).contains(v) && outside@.to_set().contains(v)),
                first_such(branches_occurrences(bs.take(i as int)), p) is None,
                first_such(vars@.take(j as int), p) is None,
            decreases vars@.len() - j,
        {
            let v = vars.get(j);
            proof {
                assert(vars@.take(j + 1).drop_last() =~= vars@.take(j as int));
            }
            if !index_set_contains(key, v) && outside.contains(v) {
                proof {
                    assert(p(v@));
                    assert(first_such(vars@.take(j + 1), p) == Some(v@));
                    assert(vars@ =~= vars@.take(j + 1) + vars@.skip(j + 1));
                    lemma_first_such_add(vars@.take(j + 1), vars@.skip(j + 1), p);
                    lemma_first_such_with_all(facts_occurrences(bs[i as int]), p);
                    lemma_branches_occurrences_take(bs, i as int);
                    lemma_first_such_add(
                        branches_occurrences(bs.take(i as int)),
                        facts_occurrences(bs[i as int]),
                        p,
                    );
                    lemma_first_such_prefix(bs, i + 1, p);
                }
                return Some(v.clone());
            }
            j = j + 1;
        }
        proof {
            assert(vars@.take(j as int) =~= vars@);
            lemma_first_such_with_all(facts_occurrences(bs[i as int]), p);
            lemma_branches_occurrences_take(bs, i as int);
            lemma_first_such_add(
                branches_occurrences(bs.take(i as int)),
                facts_occurrences(bs[i as int]),
                p,
            );
        }
        i = i + 1;
    }
    assert(bs.take(i as int) =~= bs);
    None
}

proof fn lemma_first_such_prefix(bs: Seq<Seq<FactModel>>, i: int, p: spec_fn(Name) -> bool)
    requires
        0 <= i <= bs.len(),
        first_such(branches_occurrences(bs.take(i)), p) is Some,
    ensures
        first_such(branches_occurrences(bs), p) == first_such(
            branches_occurrences(bs.take(i)),
            p,
        ),
    decreases bs.len(),
{
    if i == bs.len() {
        assert(bs.take(i) =~= bs);
    } else {
        assert(bs.drop_last().take(i) =~= bs.take(i));
        lemma_first_such_prefix(bs.drop_last(), i, p);
        lemma_first_such_add(
            branches_occurrences(bs.drop_last()),
            facts_occurrences(bs.last()),
            p,
        );
    }
}

/// The names of the sorts of the key variables.
fn key_sorts(
    key: &Vec<String>,
    sorts: &SortMap,
    renaming: &Renaming,
) -> (inputs: Result<Vec<String>, String>)
    ensures
        match inputs {
            Ok(inputs) => {
                &&& first_untyped(names(key@), sorts@, renaming@) is None
                &&& names(inputs@) == Seq::new(
                    names(key@).len(),
                    |i: int| sorts@[renamed_var(names(key@)[i], renaming@)],
                )
            },
            Err(v) => first_untyped(names(key@), sorts@, renaming@) == Some(v@),
        },
{
    let ghost ks = names(key@);
    let ghost p = |v: Name| !sorts@.contains_key(renamed_var(v, renaming@));
    let mut inputs: Vec<String> = Vec::new();
    let mut i: usize = 0;
    while i < key.len()
        invariant
            i <= key.len(),
            ks == names(key@),
            p == (|v: Name| !sorts@.contains_key(renamed_var(v, renaming@))),
            inputs.len() == i,
            first_such(ks.take(i as int), p) is None,
            forall|j: int| 0 <= j < i ==> #[trigger] inputs[j]@ == sorts@[renamed_var(
                ks[j],
                renaming@,
            )],
        decreases key.len() - i,
    {
        proof {
            assert(ks.take(i + 1).drop_last() =~= ks.take(i as int));
        }
        match sorts.get(&renaming.var(&key[i])) {
            Some(sort) => {
                inputs.push(sort.clone());
                assert(!p(ks[i as int]));
            },
            None => {
                proof {
                    assert(p(ks[i as int]));
                    assert(ks =~= ks.take(i + 1) + ks.skip(i + 1));
                    lemma_first_such_add(ks.take(i + 1), ks.skip(i + 1), p);
                }
                return Err(key[i].clone());
            },
        }
        i = i + 1;
    }
    proof {
        assert(ks.take(i as int) =~= ks);
        assert(names(inputs@) =~= Seq::new(ks.len(), |j: int| sorts@[renamed_var(ks[j], renaming@)]));
    }
    Ok(inputs)
}

/// A materialization does not depend on how many names the typing query used.
proof fn lemma_queried_unread(span: Span, bs: Seq<Seq<FactModel>>, env: Env, n: nat)
    ensures
        forall|queried: nat|
            #![trigger materialized(span, bs, Env { queried, ..env }, n)]
            materialized(span, bs, Env { queried, ..env }, n) == materialized(span, bs, env, n),
{
    assert forall|queried: nat|
        #![trigger materialized(span, bs, Env { queried, ..env }, n)]
        materialized(span, bs, Env { queried, ..env }, n) == materialized(span, bs, env, n) by {
        let key = key_of(bs, env.bound);
        let relation = nth_name(env.reserved, n, relation_hint());
        assert(branch_rules(span, bs, key, relation, Env { queried, ..env }, n + 1)
            =~= branch_rules(span, bs, key, relation, env, n + 1));
    }
}

/// Materializes a disjunction of plain branches: declares its relation and the rules of
/// its branches, and returns the atom that stands for it.
pub fn materialize(
    span: Span,
    branches: &Vec<Vec<Fact>>,
    around: &Surroundings,
    ruleset: &String,
    var_sorts: &SortMap,
    renaming: &Renaming,
    symbol_gen: &mut SymbolGen,
    aux: &mut Vec<Command>,
) -> (result: Result<Fact, Error>)
    requires
        all_plain(fact_models(around.context@)),
        forall|i: int|
            0 <= i < branches.len() ==> all_plain(#[trigger] branch_models(branches@)[i]),
    ensures
        final(symbol_gen).reserved() == old(symbol_gen).reserved(),
        forall|queried: nat|
            #![trigger env_of(
                around,
                ruleset@,
                var_sorts@,
                renaming@,
                old(symbol_gen).reserved(),
                queried,
            )]
            {
                let env = env_of(
                    around,
                    ruleset@,
                    var_sorts@,
                    renaming@,
                    old(symbol_gen).reserved(),
                    queried,
                );
                let outcome = materialized(
                    span,
                    branch_models(branches@),
                    env,
                    old(symbol_gen).count(),
                );
                &&& final(symbol_gen).count() == outcome.next
                &&& command_models(final(aux)@) == command_models(old(aux)@) + outcome.aux
                &&& match result {
                    Ok(fact) => outcome.result == Ok::<FactModel, TypeErrorModel>(fact@),
                    Err(e) => outcome.result == Err::<FactModel, TypeErrorModel>(e@),
                }
            },
{
    broadcast use group_models;

    let ghost bs = branch_models(branches@);
    let ghost env = env_of(around, ruleset@, var_sorts@, renaming@, symbol_gen.reserved(), 0);
    let ghost n = symbol_gen.count();
    proof {
        lemma_queried_unread(span, bs, env, n);
    }
    if branches.len() == 0 {
        assert(command_models(aux@) =~= command_models(old(aux)@) + Seq::<CommandModel>::empty());
        return Err(Error::TypeError(TypeError::OrWithoutBranches(span)));
    }
    let branch_vars = branches_vars(branches);
    let key = key_vars(branches, &around.bound, &branch_vars);
    if let Some(v) = find_escape(branches, &branch_vars, &key, &around.outside) {
        assert(command_models(aux@) =~= command_models(old(aux)@) + Seq::<CommandModel>::empty());
        return Err(Error::TypeError(TypeError::OrBranchLocalEscapes(v, span)));
    }
    let key = index_set_into_vec(key);
    let ghost ks = names(key@);
    let inputs = match key_sorts(&key, var_sorts, renaming) {
        Ok(inputs) => inputs,
        Err(v) => {
            assert(command_models(aux@) =~= command_models(old(aux)@)
                + Seq::<CommandModel>::empty());
            return Err(Error::TypeError(TypeError::UntypedVariable(v, span)));
        },
    };
    let relation = symbol_gen.fresh("or_union");
    aux.push(Command::Relation { span, name: relation.clone(), inputs });
    let ghost decl = relation_decl(span, ks, relation@, var_sorts@, renaming@);
    let ghost rules = branch_rules(span, bs, ks, relation@, env, n + 1);
    proof {
        assert(command_models(aux@) =~= command_models(old(aux)@) + (seq![decl] + rules.take(0)));
    }
    let mut i: usize = 0;
    while i < branches.len()
        invariant
            i <= branches.len(),
            bs == branch_models(branches@),
            ks == names(key@),
            env == env_of(around, ruleset@, var_sorts@, renaming@, old(symbol_gen).reserved(), 0),
            rules == branch_rules(span, bs, ks, relation@, env, n + 1),
            symbol_gen.reserved() == old(symbol_gen).reserved(),
            symbol_gen.count() == n + 1 + i,
            command_models(aux@) == command_models(old(aux)@) + (seq![decl] + rules.take(
                i as int,
            )),
        decreases branches.len() - i,
    {
        let alone = branch_stands_alone(&branches[i], &key, &around.bound);
        let mut body: Vec<Fact> = Vec::new();
        if !alone {
            body = clone_facts(&around.context);
        }
        let mut branch = clone_facts(&branches[i]);
        let ghost prefix = body@;
        let ghost suffix = branch@;
        body.append(&mut branch);
        proof {
            assert(fact_models(prefix + suffix) =~= fact_models(prefix) + fact_models(suffix));
            assert(fact_models(body@) =~= branch_body(
                bs[i as int],
                ks,
                env.bound,
                env.context,
            ));
        }
        let head: Vec<Action> = vec![Action::Expr(span, insert_expr(span, &relation, &key))];
        let ghost before = aux@;
        let rule = Rule {
            span,
            head: Actions(head),
            body,
            name: symbol_gen.fresh("or_branch"),
            ruleset: ruleset.clone(),
            eval_mode: RuleEvalMode::default(),
            no_decomp: false,
            include_subsumed: false,
        };
        proof {
            assert(rule.head@ =~= seq![ActionModel::Expr(span, key_atom(span, relation@, ks))]);
            assert(rules[i as int] == CommandModel::Rule { rule: rule@ });
            assert(rules.take(i + 1) =~= rules.take(i as int).push(rules[i as int]));
        }
        aux.push(Command::Rule { rule });
        proof {
            assert(command_models(aux@) =~= command_models(before).push(rules[i as int]));
            assert(command_models(aux@) =~= command_models(old(aux)@) + (seq![decl] + rules.take(
                i + 1,
            )));
        }
        i = i + 1;
    }
    assert(rules.take(i as int) =~= rules);
    Ok(Fact::Fact(insert_expr(span, &relation, &key)))
}

/// What surrounds a disjunction is taken as it is given.
pub proof fn law_surroundings_are_taken_as_given(
    around: &Surroundings,
    ruleset: Name,
    sorts: Map<Name, Name>,
    renaming: Seq<(Name, Name)>,
    reserved: Name,
    queried: nat,
    v: Name,
)
    ensures
        ({
            let env = env_of(around, ruleset, sorts, renaming, reserved, queried);
            &&& env.outside.contains(v) <==> around.outside@.contains(v)
            &&& env.bound.contains(v) <==> around.bound@.contains(v)
            &&& env.context.len() == around.context@.len()
            &&& forall|i: int|
                0 <= i < around.context@.len() ==> env.context[i] == (#[trigger] around.context@[i])@
            &&& env.ruleset == ruleset
            &&& env.sorts == sorts
            &&& env.renaming == renaming
            &&& env.reserved == reserved
            &&& env.queried == queried
        }),
{
    broadcast use group_models;

}

} // verus!
