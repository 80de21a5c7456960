//! What the order of facts and branches changes, and what it does not.

use vstd::prelude::*;

use crate::ast::{ActionModel, CommandModel, FactModel, Name, RuleModel, Span};
use crate::error::TypeErrorModel;
use crate::flatten::renamed_var;
use crate::lowered_vars::{lemma_branches_occurrences_contains, lemma_key_contains};
use crate::lowering::{branch_env, lowered_branches, lowered_facts, lowered_or};
use crate::materialize::{
    anchored, branch_rules, branch_var_sets, first_escape, first_untyped, is_closed, key_atom,
    key_of, lemma_first_such_none, materialized, relation_decl, relation_hint, settles,
    stands_alone, Env,
};
use crate::scope::{all_plain, is_or};
use crate::symbol_gen::nth_name;
use crate::vars::{
    branches_occurrences, fact_occurrences, facts_occurrences, key_var, lemma_add_contains,
    lemma_with_all_add, lemma_with_all_contains, lemma_with_all_no_duplicates, with_all,
};

verus! {

/// Which variables a branch gives values to does not depend on the order of its facts, nor
/// on how often it says the same.
pub proof fn law_anchoring_ignores_order(a: Seq<FactModel>, b: Seq<FactModel>, v: Name)
    requires
        forall|f: FactModel| #[trigger] a.contains(f) <==> b.contains(f),
    ensures
        anchored(a, v) <==> anchored(b, v),
{
    assert forall|known: Set<Name>|
        #![trigger is_closed(a, known)]
        #![trigger is_closed(b, known)]
        is_closed(a, known) <==> is_closed(b, known) by {
        lemma_closed_in_any_order(a, b, known);
        lemma_closed_in_any_order(b, a, known);
    }
}

proof fn lemma_closed_in_any_order(a: Seq<FactModel>, b: Seq<FactModel>, known: Set<Name>)
    requires
        forall|f: FactModel| #[trigger] a.contains(f) <==> b.contains(f),
    ensures
        is_closed(a, known) ==> is_closed(b, known),
{
    if is_closed(a, known) {
        assert forall|j: int, v: Name|
            #![trigger fact_occurrences(b[j]).contains(v)]
            0 <= j < b.len() && settles(b[j], known) && fact_occurrences(b[j]).contains(
                v,
            ) implies known.contains(v) by {
            assert(b.contains(b[j]));
            assert(a.contains(b[j]));
            let i = choose|i: int| 0 <= i < a.len() && a[i] == b[j];
            assert(fact_occurrences(a[i]).contains(v));
        }
    }
}

/// The rule of a branch holds the branch alone wherever the branch gives values to all its
/// bound key variables, and the surrounding facts before it wherever it does not.
pub proof fn law_branches_that_stand_alone_stay_bare(
    span: Span,
    branches: Seq<Seq<FactModel>>,
    env: Env,
    n: nat,
    i: int,
)
    requires
        materialized(span, branches, env, n).result is Ok,
        0 <= i < branches.len(),
    ensures
        materialized(span, branches, env, n).aux.len() == branches.len() + 1,
        materialized(span, branches, env, n).aux[i + 1] matches CommandModel::Rule { rule }
            && if (forall|v: Name| #[trigger]
            key_of(branches, env.bound).contains(v) && env.bound.contains(v) ==> anchored(
                branches[i],
                v,
            )) {
            rule.body == branches[i]
        } else {
            rule.body == env.context + branches[i]
        },
{
    let key = key_of(branches, env.bound);
    let relation = nth_name(env.reserved, n, relation_hint());
    let rules = branch_rules(span, branches, key, relation, env, n + 1);
    let outcome = materialized(span, branches, env, n);
    assert(outcome.aux[i + 1] == rules[i]);
    let by_itself = forall|v: Name| #[trigger]
        key.contains(v) && env.bound.contains(v) ==> anchored(branches[i], v);
    if by_itself {
        assert forall|j: int| 0 <= j < key.len() && env.bound.contains(
            #[trigger] key[j],
        ) implies anchored(branches[i], key[j]) by {
            assert(key.contains(key[j]));
        }
    }
    if stands_alone(branches[i], key, env.bound) {
        assert forall|v: Name| #[trigger] key.contains(v) && env.bound.contains(v) implies anchored(
            branches[i],
            v,
        ) by {
            let j = choose|j: int| 0 <= j < key.len() && key[j] == v;
            assert(anchored(branches[i], key[j]));
        }
    }
}

/// A list of the numbers below `len`, each of them once.
pub open spec fn is_permutation(order: Seq<int>, len: nat) -> bool {
    &&& order.len() == len
    &&& forall|i: int| 0 <= i < len ==> 0 <= #[trigger] order[i] < len
    &&& forall|j: int| 0 <= j < len ==> #[trigger] order.contains(j)
}

/// Some branches in another order.
pub open spec fn reordered(branches: Seq<Seq<FactModel>>, order: Seq<int>) -> Seq<
    Seq<FactModel>,
> {
    Seq::new(order.len(), |i: int| branches[order[i]])
}

pub proof fn lemma_plain_facts_lowered(fs: Seq<FactModel>, k: nat, env: Env, n: nat)
    requires
        k <= fs.len(),
        all_plain(fs),
    ensures
        lowered_facts(fs, k, env, n).result is Ok,
        lowered_facts(fs, k, env, n).result->Ok_0 == fs.take(k as int),
        lowered_facts(fs, k, env, n).aux == Seq::<CommandModel>::empty(),
        lowered_facts(fs, k, env, n).next == n,
    decreases k,
{
    if k > 0 {
        lemma_plain_facts_lowered(fs, (k - 1) as nat, env, n);
        assert(!is_or(fs[k - 1]));
        assert(fs.take(k as int) =~= fs.take(k - 1).push(fs[k - 1]));
    } else {
        assert(fs.take(0) =~= Seq::<FactModel>::empty());
    }
}

pub proof fn lemma_plain_branches_lowered(
    span: Span,
    bs: Seq<Seq<FactModel>>,
    k: nat,
    env: Env,
    n: nat,
)
    requires
        k <= bs.len(),
        forall|i: int| 0 <= i < bs.len() ==> all_plain(#[trigger] bs[i]),
    ensures
        lowered_branches(span, bs, k, env, n).result is Ok <==> forall|i: int|
            0 <= i < k ==> (#[trigger] bs[i]).len() > 0,
        lowered_branches(span, bs, k, env, n).result matches Ok(done) ==> done == bs.take(k as int),
        lowered_branches(span, bs, k, env, n).aux == Seq::<CommandModel>::empty(),
        lowered_branches(span, bs, k, env, n).next == n,
    decreases k,
{
    if k > 0 {
        let before = lowered_branches(span, bs, (k - 1) as nat, env, n);
        let fs = bs[k - 1];
        let inner = branch_env(span, bs, k - 1, env);
        lemma_plain_branches_lowered(span, bs, (k - 1) as nat, env, n);
        lemma_plain_facts_lowered(fs, fs.len(), inner, n);
        assert(fs.take(fs.len() as int) =~= fs);
        assert(bs.take(k as int) =~= bs.take(k - 1).push(fs));
        assert(before.aux + Seq::<CommandModel>::empty() =~= Seq::<CommandModel>::empty());
    } else {
        assert(bs.take(0) =~= Seq::<Seq<FactModel>>::empty());
    }
}

proof fn lemma_branches_occurrences_first(bs: Seq<Seq<FactModel>>)
    requires
        bs.len() > 0,
    ensures
        exists|rest: Seq<Name>|
            branches_occurrences(bs) == #[trigger] (facts_occurrences(bs[0]) + rest),
    decreases bs.len(),
{
    let front = bs.drop_last();
    if bs.len() == 1 {
        assert(branches_occurrences(front) =~= Seq::<Name>::empty());
        assert(branches_occurrences(bs) =~= facts_occurrences(bs[0]) + Seq::<Name>::empty());
    } else {
        lemma_branches_occurrences_first(front);
        let rest = choose|rest: Seq<Name>|
            branches_occurrences(front) == #[trigger] (facts_occurrences(front[0]) + rest);
        assert(branches_occurrences(bs) =~= facts_occurrences(bs[0]) + (rest + facts_occurrences(
            bs.last(),
        )));
    }
}

/// Insertions that add nothing a filter lets through.
proof fn lemma_filter_with_all(
    items: Seq<Name>,
    more: Seq<Name>,
    p: spec_fn(Name) -> bool,
)
    requires
        forall|v: Name| #[trigger] more.contains(v) && p(v) ==> items.contains(v),
    ensures
        with_all(items, more).filter(p) == items.filter(p),
    decreases more.len(),
{
    if more.len() > 0 {
        let front = more.drop_last();
        let v = more.last();
        assert forall|w: Name| #[trigger] front.contains(w) && p(w) implies items.contains(w) by {
            let i = choose|i: int| 0 <= i < front.len() && front[i] == w;
            assert(more[i] == w);
            assert(more.contains(w));
        }
        lemma_filter_with_all(items, front, p);
        let before = with_all(items, front);
        assert(more[more.len() - 1] == v);
        assert(more.contains(v));
        if !before.contains(v) {
            lemma_with_all_contains(items, front, v);
            assert(!p(v));
            reveal(Seq::filter);
            assert(before.push(v).drop_last() =~= before);
        }
    }
}

/// Where every column is in the first branch, the key is what the first branch has of it.
proof fn lemma_key_from_first(bs: Seq<Seq<FactModel>>, bound: Set<Name>)
    requires
        bs.len() > 0,
        forall|v: Name| #[trigger]
            key_of(bs, bound).contains(v) ==> facts_occurrences(bs[0]).contains(v),
    ensures
        key_of(bs, bound) == with_all(seq![], facts_occurrences(bs[0])).filter(
            |v: Name| key_var(v, bound, branch_var_sets(bs)),
        ),
{
    let p = |v: Name| key_var(v, bound, branch_var_sets(bs));
    let first = facts_occurrences(bs[0]);
    lemma_branches_occurrences_first(bs);
    let rest = choose|rest: Seq<Name>| branches_occurrences(bs) == #[trigger] (first + rest);
    let all = with_all(seq![], branches_occurrences(bs));
    lemma_with_all_add(seq![], first, rest);
    assert forall|v: Name| #[trigger] rest.contains(v) && p(v) implies with_all(
        seq![],
        first,
    ).contains(v) by {
        lemma_add_contains(first, rest, v);
        lemma_with_all_contains(seq![], branches_occurrences(bs), v);
        let k = choose|k: int| 0 <= k < all.len() && all[k] == v;
        all.lemma_filter_contains(p, k);
        assert(key_of(bs, bound).contains(v));
        lemma_with_all_contains(seq![], first, v);
    }
    lemma_filter_with_all(with_all(seq![], first), rest, p);
}

/// Where a permutation puts a number.
proof fn place_of(order: Seq<int>, len: nat, i: int) -> (j: int)
    requires
        is_permutation(order, len),
        0 <= i < len,
    ensures
        0 <= j < len,
        order[j] == i,
{
    assert(order.contains(i));
    choose|j: int| 0 <= j < order.len() && order[j] == i
}

proof fn lemma_reordered_has(
    bs: Seq<Seq<FactModel>>,
    order: Seq<int>,
    v: Name,
)
    requires
        is_permutation(order, bs.len()),
    ensures
        (exists|i: int| 0 <= i < bs.len() && facts_occurrences(#[trigger] bs[i]).contains(v))
            <==> (exists|i: int|
            0 <= i < bs.len() && facts_occurrences(#[trigger] reordered(bs, order)[i]).contains(v)),
        (forall|i: int| 0 <= i < bs.len() ==> facts_occurrences(#[trigger] bs[i]).contains(v))
            <==> (forall|i: int|
            0 <= i < bs.len() ==> facts_occurrences(#[trigger] reordered(bs, order)[i]).contains(
                v,
            )),
{
    let other = reordered(bs, order);
    if exists|i: int| 0 <= i < bs.len() && facts_occurrences(#[trigger] bs[i]).contains(v) {
        let i = choose|i: int|
            0 <= i < bs.len() && facts_occurrences(#[trigger] bs[i]).contains(v);
        let j = place_of(order, bs.len(), i);
        assert(facts_occurrences(other[j]).contains(v));
    }
    if exists|i: int| 0 <= i < bs.len() && facts_occurrences(#[trigger] other[i]).contains(v) {
        let i = choose|i: int|
            0 <= i < bs.len() && facts_occurrences(#[trigger] other[i]).contains(v);
        assert(facts_occurrences(bs[order[i]]).contains(v));
    }
    if forall|i: int| 0 <= i < bs.len() ==> facts_occurrences(#[trigger] bs[i]).contains(v) {
        assert forall|i: int| 0 <= i < bs.len() implies facts_occurrences(
            #[trigger] other[i],
        ).contains(v) by {
            assert(facts_occurrences(bs[order[i]]).contains(v));
        }
    }
    if forall|i: int| 0 <= i < bs.len() ==> facts_occurrences(#[trigger] other[i]).contains(v) {
        assert forall|i: int| 0 <= i < bs.len() implies facts_occurrences(
            #[trigger] bs[i],
        ).contains(v) by {
            let j = place_of(order, bs.len(), i);
            assert(facts_occurrences(other[j]).contains(v));
        }
    }
}

proof fn lemma_reordered_key(bs: Seq<Seq<FactModel>>, order: Seq<int>, bound: Set<Name>)
    requires
        bs.len() > 0,
        is_permutation(order, bs.len()),
        order[0] == 0,
        forall|v: Name| #[trigger]
            key_of(bs, bound).contains(v) ==> facts_occurrences(bs[0]).contains(v),
    ensures
        key_of(reordered(bs, order), bound) == key_of(bs, bound),
{
    let other = reordered(bs, order);
    let p = |v: Name| key_var(v, bound, branch_var_sets(bs));
    let q = |v: Name| key_var(v, bound, branch_var_sets(other));
    assert(other[0] == bs[0]);
    assert forall|v: Name| #[trigger] key_of(other, bound).contains(v) <==> key_of(
        bs,
        bound,
    ).contains(v) by {
        lemma_key_contains(bs, bound, v);
        lemma_key_contains(other, bound, v);
        lemma_reordered_has(bs, order, v);
    }
    lemma_key_from_first(bs, bound);
    lemma_key_from_first(other, bound);
    assert forall|v: Name| #[trigger] p(v) == q(v) by {
        lemma_reordered_has(bs, order, v);
        lemma_key_var_said(bs, bound, v);
        lemma_key_var_said(other, bound, v);
    }
    assert(p =~= q);
}

proof fn lemma_key_var_said(bs: Seq<Seq<FactModel>>, bound: Set<Name>, v: Name)
    ensures
        key_var(v, bound, branch_var_sets(bs)) <==> bound.contains(v) || forall|i: int|
            0 <= i < bs.len() ==> facts_occurrences(#[trigger] bs[i]).contains(v),
{
    let sets = branch_var_sets(bs);
    if key_var(v, bound, sets) && !bound.contains(v) {
        assert forall|i: int| 0 <= i < bs.len() implies facts_occurrences(
            #[trigger] bs[i],
        ).contains(v) by {
            assert(sets[i].contains(v));
        }
    }
    if forall|i: int| 0 <= i < bs.len() ==> facts_occurrences(#[trigger] bs[i]).contains(v) {
        assert forall|i: int| 0 <= i < sets.len() implies (#[trigger] sets[i]).contains(v) by {
            assert(facts_occurrences(bs[i]).contains(v));
        }
    }
}

/// The order of the branches after the first changes nothing but the order of their rules:
/// the atom and the relation stay as they are, and every rule has the place and the name of
/// the one it takes the place of, with the body of its own branch.
///
/// The branches hold plain facts, since a nested disjunction takes its names where it
/// stands, and the first branch mentions every column, since columns are ordered by first
/// mention.
pub proof fn law_later_branches_can_be_reordered(
    span: Span,
    branches: Seq<Seq<FactModel>>,
    order: Seq<int>,
    env: Env,
    n: nat,
)
    requires
        forall|i: int| 0 <= i < branches.len() ==> all_plain(#[trigger] branches[i]),
        is_permutation(order, branches.len()),
        branches.len() > 0,
        order[0] == 0,
        forall|v: Name| #[trigger]
            key_of(branches, env.bound).contains(v) ==> facts_occurrences(branches[0]).contains(v),
        lowered_or(span, branches, env, n).result is Ok,
    ensures
        ({
            let first = lowered_or(span, branches, env, n);
            let second = lowered_or(span, reordered(branches, order), env, n);
            &&& second.result == first.result
            &&& second.next == first.next
            &&& first.aux.len() == branches.len() + 1
            &&& second.aux.len() == branches.len() + 1
            &&& second.aux[0] == first.aux[0]
            &&& forall|i: int|
                #![trigger order[i]]
                0 <= i < branches.len() ==> (first.aux[order[i] + 1] matches CommandModel::Rule {
                    rule: moved,
                } && first.aux[i + 1] matches CommandModel::Rule { rule: there }
                    && second.aux[i + 1] == (CommandModel::Rule {
                    rule: RuleModel { name: there.name, ..moved },
                }))
        }),
{
    let other = reordered(branches, order);
    let first = lowered_or(span, branches, env, n);
    let second = lowered_or(span, other, env, n);
    let key = key_of(branches, env.bound);
    let relation = nth_name(env.reserved, n, relation_hint());
    let none = Seq::<CommandModel>::empty();
    assert forall|i: int| 0 <= i < other.len() implies all_plain(#[trigger] other[i]) by {
        assert(all_plain(branches[order[i]]));
    }
    lemma_plain_branches_lowered(span, branches, branches.len(), env, n);
    lemma_plain_branches_lowered(span, other, other.len(), env, n);
    assert(branches.take(branches.len() as int) =~= branches);
    assert(other.take(other.len() as int) =~= other);
    assert forall|i: int| 0 <= i < other.len() implies (#[trigger] other[i]).len() > 0 by {
        assert(branches[order[i]].len() > 0);
    }
    lemma_reordered_key(branches, order, env.bound);
    let escapes = |v: Name| !key.contains(v) && env.outside.contains(v);
    lemma_first_such_none(branches_occurrences(branches), escapes);
    lemma_first_such_none(branches_occurrences(other), escapes);
    assert(first_escape(branches, key, env.outside) is None);
    assert forall|v: Name| #[trigger] branches_occurrences(other).contains(v) implies !escapes(
        v,
    ) by {
        lemma_branches_occurrences_contains(branches, v);
        lemma_branches_occurrences_contains(other, v);
        lemma_reordered_has(branches, order, v);
        assert(branches_occurrences(branches).contains(v));
    }
    assert(first_escape(other, key, env.outside) is None);
    let decl = relation_decl(span, key, relation, env.sorts, env.renaming);
    let rules = branch_rules(span, branches, key, relation, env, n + 1);
    let moved = branch_rules(span, other, key, relation, env, n + 1);
    assert(first.aux =~= seq![decl] + rules);
    assert(second.aux =~= seq![decl] + moved);
    assert forall|i: int|
        #![trigger order[i]]
        0 <= i < branches.len() implies (first.aux[order[i] + 1] matches CommandModel::Rule {
        rule: from,
    } && first.aux[i + 1] matches CommandModel::Rule { rule: there } && second.aux[i + 1] == (
    CommandModel::Rule { rule: RuleModel { name: there.name, ..from } })) by {
        assert(first.aux[order[i] + 1] == rules[order[i]]);
        assert(first.aux[i + 1] == rules[i]);
        assert(second.aux[i + 1] == moved[i]);
        assert(other[i] == branches[order[i]]);
    }
}

proof fn lemma_filter_distinct(s: Seq<Name>, p: spec_fn(Name) -> bool)
    requires
        s.no_duplicates(),
    ensures
        s.filter(p).no_duplicates(),
    decreases s.len(),
{
    reveal(Seq::filter);
    if s.len() > 0 {
        let front = s.drop_last();
        lemma_filter_distinct(front, p);
        if p(s.last()) && front.filter(p).contains(s.last()) {
            front.lemma_filter_contains_rev(p, s.last());
            let i = choose|i: int| 0 <= i < front.len() && front[i] == s.last();
            assert(s[i] == s[s.len() - 1]);
        }
    }
}

proof fn lemma_key_distinct(bs: Seq<Seq<FactModel>>, bound: Set<Name>)
    ensures
        key_of(bs, bound).no_duplicates(),
{
    lemma_with_all_no_duplicates(seq![], branches_occurrences(bs));
    lemma_filter_distinct(
        with_all(seq![], branches_occurrences(bs)),
        |v: Name| key_var(v, bound, branch_var_sets(bs)),
    );
}

proof fn lemma_stands_alone_same(
    branch: Seq<FactModel>,
    a: Seq<Name>,
    b: Seq<Name>,
    bound: Set<Name>,
)
    requires
        forall|v: Name| #[trigger] a.contains(v) <==> b.contains(v),
        stands_alone(branch, a, bound),
    ensures
        stands_alone(branch, b, bound),
{
    assert forall|i: int| 0 <= i < b.len() && bound.contains(#[trigger] b[i]) implies anchored(
        branch,
        b[i],
    ) by {
        assert(b.contains(b[i]));
        assert(a.contains(b[i]));
        let j = choose|j: int| 0 <= j < a.len() && a[j] == b[i];
        assert(anchored(branch, a[j]));
    }
}

/// The order of the branches changes nothing but the order of the columns and that of the
/// branches' rules: the relation has the same name and the same columns, each of its own
/// sort, and every rule has the place and the name of the one it takes the place of, with
/// the body of its own branch.
///
/// The branches hold plain facts, since a nested disjunction takes its names where it
/// stands.
pub proof fn law_branches_can_be_reordered(
    span: Span,
    branches: Seq<Seq<FactModel>>,
    order: Seq<int>,
    env: Env,
    n: nat,
)
    requires
        forall|i: int| 0 <= i < branches.len() ==> all_plain(#[trigger] branches[i]),
        is_permutation(order, branches.len()),
        lowered_or(span, branches, env, n).result is Ok,
    ensures
        ({
            let first = lowered_or(span, branches, env, n);
            let second = lowered_or(span, reordered(branches, order), env, n);
            let relation = nth_name(env.reserved, n, relation_hint());
            let columns = key_of(branches, env.bound);
            let moved_columns = key_of(reordered(branches, order), env.bound);
            &&& columns.no_duplicates()
            &&& moved_columns.no_duplicates()
            &&& forall|v: Name| #[trigger] columns.contains(v) <==> moved_columns.contains(v)
            &&& first.result == Ok::<FactModel, TypeErrorModel>(
                FactModel::Fact(key_atom(span, relation, columns)),
            )
            &&& second.result == Ok::<FactModel, TypeErrorModel>(
                FactModel::Fact(key_atom(span, relation, moved_columns)),
            )
            &&& second.next == first.next
            &&& first.aux.len() == branches.len() + 1
            &&& second.aux.len() == branches.len() + 1
            &&& first.aux[0] == relation_decl(span, columns, relation, env.sorts, env.renaming)
            &&& second.aux[0] == relation_decl(
                span,
                moved_columns,
                relation,
                env.sorts,
                env.renaming,
            )
            &&& forall|i: int|
                #![trigger order[i]]
                0 <= i < branches.len() ==> (first.aux[order[i] + 1] matches CommandModel::Rule {
                    rule: moved,
                } && first.aux[i + 1] matches CommandModel::Rule { rule: there }
                    && second.aux[i + 1] == (CommandModel::Rule {
                    rule: RuleModel {
                        name: there.name,
                        head: seq![
                            ActionModel::Expr(span, key_atom(span, relation, moved_columns)),
                        ],
                        ..moved
                    },
                }))
        }),
{
    let other = reordered(branches, order);
    let first = lowered_or(span, branches, env, n);
    let second = lowered_or(span, other, env, n);
    let key = key_of(branches, env.bound);
    let moved_key = key_of(other, env.bound);
    let relation = nth_name(env.reserved, n, relation_hint());
    assert forall|i: int| 0 <= i < other.len() implies all_plain(#[trigger] other[i]) by {
        assert(all_plain(branches[order[i]]));
    }
    lemma_plain_branches_lowered(span, branches, branches.len(), env, n);
    lemma_plain_branches_lowered(span, other, other.len(), env, n);
    assert(branches.take(branches.len() as int) =~= branches);
    assert(other.take(other.len() as int) =~= other);
    assert forall|i: int| 0 <= i < other.len() implies (#[trigger] other[i]).len() > 0 by {
        assert(branches[order[i]].len() > 0);
    }
    lemma_key_distinct(branches, env.bound);
    lemma_key_distinct(other, env.bound);
    assert forall|v: Name| #[trigger] key.contains(v) <==> moved_key.contains(v) by {
        lemma_key_contains(branches, env.bound, v);
        lemma_key_contains(other, env.bound, v);
        lemma_reordered_has(branches, order, v);
    }
    let escapes = |v: Name| !key.contains(v) && env.outside.contains(v);
    let moved_escapes = |v: Name| !moved_key.contains(v) && env.outside.contains(v);
    lemma_first_such_none(branches_occurrences(branches), escapes);
    lemma_first_such_none(branches_occurrences(other), moved_escapes);
    assert(first_escape(branches, key, env.outside) is None);
    assert forall|v: Name| #[trigger]
        branches_occurrences(other).contains(v) implies !moved_escapes(v) by {
        lemma_branches_occurrences_contains(branches, v);
        lemma_branches_occurrences_contains(other, v);
        lemma_reordered_has(branches, order, v);
        assert(branches_occurrences(branches).contains(v));
        assert(!escapes(v));
        assert(key.contains(v) <==> moved_key.contains(v));
    }
    assert(first_escape(other, moved_key, env.outside) is None);
    let untyped = |v: Name| !env.sorts.contains_key(renamed_var(v, env.renaming));
    lemma_first_such_none(key, untyped);
    lemma_first_such_none(moved_key, untyped);
    assert(first_untyped(key, env.sorts, env.renaming) is None);
    assert forall|v: Name| #[trigger] moved_key.contains(v) implies !untyped(v) by {
        assert(key.contains(v));
    }
    assert(first_untyped(moved_key, env.sorts, env.renaming) is None);
    let rules = branch_rules(span, branches, key, relation, env, n + 1);
    let moved_rules = branch_rules(span, other, moved_key, relation, env, n + 1);
    assert(first.aux =~= seq![relation_decl(span, key, relation, env.sorts, env.renaming)]
        + rules);
    assert(second.aux =~= seq![relation_decl(span, moved_key, relation, env.sorts, env.renaming)]
        + moved_rules);
    assert forall|i: int|
        #![trigger order[i]]
        0 <= i < branches.len() implies (first.aux[order[i] + 1] matches CommandModel::Rule {
        rule: moved,
    } && first.aux[i + 1] matches CommandModel::Rule { rule: there } && second.aux[i + 1] == (
    CommandModel::Rule {
        rule: RuleModel {
            name: there.name,
            head: seq![ActionModel::Expr(span, key_atom(span, relation, moved_key))],
            ..moved
        },
    })) by {
        let branch = branches[order[i]];
        assert(first.aux[order[i] + 1] == rules[order[i]]);
        assert(first.aux[i + 1] == rules[i]);
        assert(second.aux[i + 1] == moved_rules[i]);
        assert(other[i] == branch);
        if stands_alone(branch, key, env.bound) {
            lemma_stands_alone_same(branch, key, moved_key, env.bound);
        }
        if stands_alone(branch, moved_key, env.bound) {
            lemma_stands_alone_same(branch, moved_key, key, env.bound);
        }
    }
}

} // verus!
