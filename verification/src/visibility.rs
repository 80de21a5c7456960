//! Which variables can be seen where, read off the syntax.

use vstd::prelude::*;

use crate::ast::{FactModel, Name, RuleModel, Span};
use crate::commands::{lowered_rule, typing_query};
use crate::lowering::outside_of;
use crate::mentions::{
    action_mentions, fact_mentions, facts_mention, law_fact_vars_are_mentioned,
    law_head_vars_are_mentioned,
};
use crate::scope::{is_or, lemma_visible_or, scope, visible, visible_in};
use crate::success::{
    all_sorted, fact_well_scoped, law_lowering_succeeds, lemma_or_well_scoped, well_scoped,
};
use crate::vars::{actions_occurrences, fact_occurrences, is_global_name};

verus! {

/// No fact is a disjunction.
pub open spec fn is_flat(fs: Seq<FactModel>) -> bool {
    forall|i: int| 0 <= i < fs.len() ==> !(#[trigger] fs[i] is Or)
}

/// A plain fact of a conjunction mentions a variable.
pub open spec fn plain_fact_mentions(fs: Seq<FactModel>, v: Name) -> bool {
    exists|i: int|
        0 <= i < fs.len() && !(#[trigger] fs[i] is Or) && fact_mentions(fs[i], v)
}

/// Every branch mentions a variable.
pub open spec fn all_branches_mention(branches: Seq<Seq<FactModel>>, v: Name) -> bool {
    forall|b: int| 0 <= b < branches.len() ==> facts_mention(#[trigger] branches[b], v)
}

/// Some branch mentions a variable.
pub open spec fn some_branch_mentions(branches: Seq<Seq<FactModel>>, v: Name) -> bool {
    exists|b: int| 0 <= b < branches.len() && facts_mention(#[trigger] branches[b], v)
}

/// A conjunction binds what is bound around it and what its plain facts mention.
pub proof fn law_plain_facts_bind(bound: Set<Name>, fs: Seq<FactModel>, v: Name)
    ensures
        scope(bound, fs).contains(v) <==> bound.contains(v) || !is_global_name(v)
            && plain_fact_mentions(fs, v),
{
    assert forall|i: int| 0 <= i < fs.len() implies (fact_occurrences(
        #[trigger] fs[i],
    ).contains(v) <==> fact_mentions(fs[i], v) && !is_global_name(v)) by {
        law_fact_vars_are_mentioned(fs[i], v);
    }
    if plain_fact_mentions(fs, v) && !is_global_name(v) {
        let i = choose|i: int|
            0 <= i < fs.len() && !(#[trigger] fs[i] is Or) && fact_mentions(fs[i], v);
        assert(!is_or(fs[i]));
    }
}

/// What a plain fact mentions can be seen outside it.
pub proof fn law_plain_facts_hide_nothing(f: FactModel, bound: Set<Name>, v: Name)
    requires
        !(f is Or),
    ensures
        visible(f, bound, v) <==> fact_mentions(f, v) && !is_global_name(v),
{
    law_fact_vars_are_mentioned(f, v);
}

/// What a conjunction of plain facts mentions can be seen outside it.
pub proof fn law_flat_conjunctions_hide_nothing(fs: Seq<FactModel>, bound: Set<Name>, v: Name)
    requires
        is_flat(fs),
    ensures
        visible_in(fs, bound, v) <==> facts_mention(fs, v) && !is_global_name(v),
{
    let around = scope(bound, fs);
    assert forall|i: int| 0 <= i < fs.len() implies (visible(#[trigger] fs[i], around, v)
        <==> fact_mentions(fs[i], v) && !is_global_name(v)) by {
        law_plain_facts_hide_nothing(fs[i], around, v);
    }
    if visible_in(fs, bound, v) {
        let i = choose|i: int| 0 <= i < fs.len() && visible(#[trigger] fs[i], around, v);
        assert(fact_mentions(fs[i], v));
    }
    if facts_mention(fs, v) && !is_global_name(v) {
        let i = choose|i: int| 0 <= i < fs.len() && fact_mentions(#[trigger] fs[i], v);
        assert(visible(fs[i], around, v));
    }
}

/// Outside a disjunction the variables that every branch lets see can be seen, and those that
/// some branch lets see and that the surrounding conjunctions bind; no others. Of a branch
/// that holds plain facts, that is what it mentions.
pub proof fn law_branches_hide_their_locals(
    span: Span,
    branches: Seq<Seq<FactModel>>,
    bound: Set<Name>,
    v: Name,
)
    ensures
        visible(FactModel::Or(span, branches), bound, v) <==> {
            &&& exists|b: int| 0 <= b < branches.len() && visible_in(#[trigger] branches[b], bound, v)
            &&& bound.contains(v) || forall|b: int|
                0 <= b < branches.len() ==> visible_in(#[trigger] branches[b], bound, v)
        },
        (forall|b: int| 0 <= b < branches.len() ==> is_flat(#[trigger] branches[b])) ==> (visible(
            FactModel::Or(span, branches),
            bound,
            v,
        ) <==> {
            &&& !is_global_name(v)
            &&& some_branch_mentions(branches, v)
            &&& bound.contains(v) || all_branches_mention(branches, v)
        }),
{
    lemma_visible_or(span, branches, bound, v);
    if forall|b: int| 0 <= b < branches.len() ==> is_flat(#[trigger] branches[b]) {
        assert forall|b: int| 0 <= b < branches.len() implies (visible_in(
            #[trigger] branches[b],
            bound,
            v,
        ) <==> facts_mention(branches[b], v) && !is_global_name(v)) by {
            law_flat_conjunctions_hide_nothing(branches[b], bound, v);
        }
    }
}

/// A conjunction lets see what its facts let see, where its plain facts bind what they
/// mention.
pub proof fn law_conjunctions_hide_what_their_facts_hide(
    fs: Seq<FactModel>,
    bound: Set<Name>,
    v: Name,
)
    ensures
        visible_in(fs, bound, v) <==> exists|i: int|
            0 <= i < fs.len() && visible(#[trigger] fs[i], scope(bound, fs), v),
{
}

/// Used outside a fact is what is used outside its conjunction, and what the other facts of
/// the conjunction let see.
pub proof fn law_other_facts_are_outside(
    fs: Seq<FactModel>,
    i: int,
    bound: Set<Name>,
    outside: Set<Name>,
    v: Name,
)
    ensures
        outside_of(fs, i, bound, outside).contains(v) <==> outside.contains(v) || exists|j: int|
            0 <= j < fs.len() && j != i && visible(#[trigger] fs[j], scope(bound, fs), v),
{
}

/// The disjunctions of a conjunction have branches of plain facts.
pub open spec fn is_shallow(fs: Seq<FactModel>) -> bool {
    forall|j: int, b: int|
        0 <= j < fs.len() && fs[j] is Or && 0 <= b < fs[j]->Or_1.len() ==> is_flat(
            #[trigger] fs[j]->Or_1[b],
        )
}

/// A variable is local to a branch of a disjunction of plain branches among some facts: some
/// branch mentions it and some does not, and no plain fact beside the disjunction does.
pub open spec fn is_local(fs: Seq<FactModel>, j: int, v: Name) -> bool {
    &&& !is_global_name(v)
    &&& some_branch_mentions(fs[j]->Or_1, v)
    &&& !all_branches_mention(fs[j]->Or_1, v)
    &&& !plain_fact_mentions(fs, v)
}

/// A variable is used outside a disjunction of a rule without nested disjunctions: an
/// argument of an action mentions it, or every branch of another disjunction does.
pub open spec fn is_used_outside(rule: RuleModel, j: int, v: Name) -> bool {
    ||| exists|a: int| 0 <= a < rule.head.len() && action_mentions(#[trigger] rule.head[a], v)
    ||| exists|i: int|
        0 <= i < rule.body.len() && i != j && #[trigger] rule.body[i] is Or && some_branch_mentions(
            rule.body[i]->Or_1,
            v,
        ) && all_branches_mention(rule.body[i]->Or_1, v)
}

/// A rule without nested disjunctions whose query has been answered is lowered if and only if
/// each disjunction has branches, each branch has facts, and no variable that is local to a
/// branch is used outside its disjunction: by an action, or by every branch of another
/// disjunction. In particular a variable that is local to branches of two disjunctions is
/// not shared between them.
///
/// The reserved prefix must not make names of globals.
pub proof fn law_shallow_rules_are_lowered_unless_a_local_escapes(
    rule: RuleModel,
    sorts: Map<Name, Name>,
    reserved: Name,
    queried: nat,
    n: nat,
)
    requires
        !is_global_name(reserved),
        is_shallow(rule.body),
        all_sorted(typing_query(rule.body, reserved, queried).0, sorts),
    ensures
        lowered_rule(rule, sorts, reserved, queried, n).0 is Ok <==> forall|j: int|
            0 <= j < rule.body.len() && #[trigger] rule.body[j] is Or ==> {
                &&& rule.body[j]->Or_1.len() > 0
                &&& forall|b: int|
                    0 <= b < rule.body[j]->Or_1.len() ==> (#[trigger] rule.body[j]->Or_1[b]).len()
                        > 0
                &&& forall|v: Name| #[trigger]
                    is_local(rule.body, j, v) ==> !is_used_outside(rule, j, v)
            },
{
    let fs = rule.body;
    let used = actions_occurrences(rule.head).to_set();
    let none = Set::<Name>::empty();
    law_lowering_succeeds(rule, sorts, reserved, queried, n);
    assert forall|j: int| 0 <= j < fs.len() implies (fact_well_scoped(
        #[trigger] fs[j],
        scope(none, fs),
        outside_of(fs, j, none, used),
    ) <==> (fs[j] is Or ==> {
        &&& fs[j]->Or_1.len() > 0
        &&& forall|b: int| 0 <= b < fs[j]->Or_1.len() ==> (#[trigger] fs[j]->Or_1[b]).len() > 0
        &&& forall|v: Name| #[trigger] is_local(fs, j, v) ==> !is_used_outside(rule, j, v)
    })) by {
        if let FactModel::Or(span, bs) = fs[j] {
            lemma_shallow_or(rule, j, span, bs);
        }
    }
    assert(well_scoped(fs, none, used) <==> forall|j: int|
        0 <= j < fs.len() ==> fact_well_scoped(
            #[trigger] fs[j],
            scope(none, fs),
            outside_of(fs, j, none, used),
        ));
}

proof fn lemma_flat_well_scoped(fs: Seq<FactModel>, bound: Set<Name>, outside: Set<Name>)
    requires
        is_flat(fs),
    ensures
        well_scoped(fs, bound, outside),
{
    assert forall|j: int| 0 <= j < fs.len() implies fact_well_scoped(
        #[trigger] fs[j],
        scope(bound, fs),
        outside_of(fs, j, bound, outside),
    ) by {
        assert(!(fs[j] is Or));
    }
}

proof fn lemma_shallow_or(rule: RuleModel, j: int, span: Span, bs: Seq<Seq<FactModel>>)
    requires
        is_shallow(rule.body),
        0 <= j < rule.body.len(),
        rule.body[j] == FactModel::Or(span, bs),
    ensures
        fact_well_scoped(
            FactModel::Or(span, bs),
            scope(Set::empty(), rule.body),
            outside_of(
                rule.body,
                j,
                Set::empty(),
                actions_occurrences(rule.head).to_set(),
            ),
        ) <==> {
            &&& bs.len() > 0
            &&& forall|b: int| 0 <= b < bs.len() ==> (#[trigger] bs[b]).len() > 0
            &&& forall|v: Name| #[trigger]
                is_local(rule.body, j, v) ==> !is_used_outside(rule, j, v)
        },
{
    let fs = rule.body;
    let used = actions_occurrences(rule.head).to_set();
    let none = Set::<Name>::empty();
    let bound = scope(none, fs);
    let outside = outside_of(fs, j, none, used);
    let or = FactModel::Or(span, bs);
    assert forall|b: int| 0 <= b < bs.len() implies is_flat(#[trigger] bs[b]) by {
        assert(is_flat(fs[j]->Or_1[b]));
    }
    assert forall|b: int| 0 <= b < bs.len() implies well_scoped(#[trigger] bs[b], bound, outside) by {
        lemma_flat_well_scoped(bs[b], bound, outside);
    }
    lemma_or_well_scoped(span, bs, bound, outside);
    assert forall|v: Name| #[trigger] is_local(fs, j, v) <==> !visible(or, bound, v) && exists|
        b: int,
    | 0 <= b < bs.len() && visible_in(#[trigger] bs[b], bound, v) by {
        law_branches_hide_their_locals(span, bs, bound, v);
        law_plain_facts_bind(none, fs, v);
        assert forall|b: int| 0 <= b < bs.len() implies (visible_in(#[trigger] bs[b], bound, v)
            <==> facts_mention(bs[b], v) && !is_global_name(v)) by {
            law_flat_conjunctions_hide_nothing(bs[b], bound, v);
        }
        if !is_global_name(v) && some_branch_mentions(bs, v) {
            let b = choose|b: int| 0 <= b < bs.len() && facts_mention(#[trigger] bs[b], v);
            assert(visible_in(bs[b], bound, v));
        }
    }
    assert forall|v: Name| #[trigger] is_local(fs, j, v) implies (is_used_outside(rule, j, v)
        <==> outside.contains(v)) by {
        lemma_used_outside(rule, j, v);
    }
    if forall|v: Name| #[trigger] is_local(fs, j, v) ==> !is_used_outside(rule, j, v) {
        assert forall|b: int, v: Name|
            #![trigger visible_in(bs[b], bound, v)]
            0 <= b < bs.len() && visible_in(bs[b], bound, v) && outside.contains(v) implies visible(
            or,
            bound,
            v,
        ) by {
            if !visible(or, bound, v) {
                assert(is_local(fs, j, v));
            }
        }
    }
    if fact_well_scoped(or, bound, outside) {
        assert forall|v: Name| #[trigger] is_local(fs, j, v) implies !is_used_outside(rule, j, v) by {
            let b = choose|b: int| 0 <= b < bs.len() && visible_in(#[trigger] bs[b], bound, v);
            assert(visible_in(bs[b], bound, v));
        }
    }
}

proof fn lemma_used_outside(rule: RuleModel, j: int, v: Name)
    requires
        is_shallow(rule.body),
        is_local(rule.body, j, v),
    ensures
        is_used_outside(rule, j, v) <==> outside_of(
            rule.body,
            j,
            Set::empty(),
            actions_occurrences(rule.head).to_set(),
        ).contains(v),
{
    let fs = rule.body;
    let none = Set::<Name>::empty();
    let bound = scope(none, fs);
    let used = actions_occurrences(rule.head).to_set();
    law_head_vars_are_mentioned(rule.head, v);
    law_plain_facts_bind(none, fs, v);
    assert(!bound.contains(v));
    assert forall|i: int| 0 <= i < fs.len() implies (visible(#[trigger] fs[i], bound, v) <==> fs[i] is Or
        && some_branch_mentions(fs[i]->Or_1, v) && all_branches_mention(fs[i]->Or_1, v)) by {
        match fs[i] {
            FactModel::Or(span, bs) => {
                assert forall|b: int| 0 <= b < bs.len() implies is_flat(#[trigger] bs[b]) by {
                    assert(is_flat(fs[i]->Or_1[b]));
                }
                law_branches_hide_their_locals(span, bs, bound, v);
            },
            _ => {
                law_plain_facts_hide_nothing(fs[i], bound, v);
            },
        }
    }
    if is_used_outside(rule, j, v) && !used.contains(v) {
        let i = choose|i: int|
            0 <= i < fs.len() && i != j && #[trigger] fs[i] is Or && some_branch_mentions(
                fs[i]->Or_1,
                v,
            ) && all_branches_mention(fs[i]->Or_1, v);
        assert(visible(fs[i], bound, v));
    }
}

} // verus!
