//! What a type environment is asked, and what its reply leads to.

use vstd::prelude::*;

use crate::ast::{fact_models, CommandModel, Fact, FactModel, Name, RuleModel};
use crate::attributes::{lemma_disjunctive_rule, without_fails};
use crate::commands::{
    asked, disjunctive_rule, has_or, law_the_supply_is_taken_over, lowered_command, lowered_rule,
    lowering_of, resumed, typed_rule, typing_of, typing_query, under_fails, Reply, Typing,
};
use crate::error::{TypeError, TypeErrorModel};
use crate::laws::law_lowering_preserves_matches;
use crate::query::{facts_alike, law_query_holds_every_fact, lemma_flattened_grows, spread};
use crate::scope::is_or;
use crate::semantics::{at_fixpoint, holds_all, Assignment, Database};
use crate::sorts::{answer_has_sorted, law_answers_are_read};
use crate::success::{all_sorted, law_lowering_succeeds, well_scoped};
use crate::symbol_gen::SymbolGen;
use crate::typing::{ResolvedFact, TypeInfo};
use crate::vars::{actions_occurrences, is_global_name};

verus! {

/// A reply says what an answer says: the error, or the sorts that stand in the answer.
pub open spec fn says(typing: Typing, answer: Result<Vec<ResolvedFact>, TypeError>) -> bool {
    match answer {
        Err(e) => typing == Err::<Map<Name, Name>, TypeErrorModel>(e@),
        Ok(facts) => typing matches Ok(sorts) && forall|v: Name|
            #![trigger sorts.contains_key(v)]
            (sorts.contains_key(v) <==> exists|sort: Name| #[trigger]
                answer_has_sorted(facts@, v, sort)) && (sorts.contains_key(v) ==> answer_has_sorted(
                facts@,
                v,
                sorts[v],
            )),
    }
}

/// The type environment is asked for the sorts of the whole body, with every fact of every
/// branch of every disjunction. It gets a supply of the same prefix that has not been set
/// back. Its reply is what it answers, and what it takes from the supply is not handed out
/// again.
pub proof fn law_the_environment_is_asked_for_the_whole_body<T: TypeInfo>(
    type_info: &T,
    body: Seq<FactModel>,
    reserved: Name,
    n: nat,
    reply: Reply,
)
    requires
        asked(type_info, body, reserved, n, reply),
    ensures
        exists|
            query: Vec<Fact>,
            supply: SymbolGen,
            answer: Result<Vec<ResolvedFact>, TypeError>,
            back: SymbolGen,
        |
            {
                &&& #[trigger] call_ensures(
                    T::typecheck_facts,
                    (type_info, supply, &query),
                    (answer, back),
                )
                &&& facts_alike(fact_models(query@), spread(body, body.len()), reserved)
                &&& supply.reserved() == reserved
                &&& supply.count() >= n
                &&& says(reply.typing, answer)
                &&& reply.left >= supply.count()
                &&& back.reserved() == reserved ==> reply.left >= back.count()
            },
{
    let (query, supply, answer, back) = choose|
        query: Vec<Fact>,
        supply: SymbolGen,
        answer: Result<Vec<ResolvedFact>, TypeError>,
        back: SymbolGen,
    |
        {
            &&& #[trigger] call_ensures(
                T::typecheck_facts,
                (type_info, supply, &query),
                (answer, back),
            )
            &&& fact_models(query@) == typing_query(body, reserved, n).0
            &&& supply.reserved() == reserved
            &&& supply.count() == typing_query(body, reserved, n).1
            &&& reply.typing == typing_of(answer)
            &&& reply.left == resumed(back, reserved, typing_query(body, reserved, n).1)
        };
    law_query_holds_every_fact(body, reserved, n);
    lemma_flattened_grows(body, body.len(), Set::empty(), seq![], reserved, n);
    law_the_supply_is_taken_over(back, reserved, supply.count());
    if let Ok(facts) = answer {
        let sorts = reply.typing->Ok_0;
        assert forall|v: Name|
            #![trigger sorts.contains_key(v)]
            (sorts.contains_key(v) <==> exists|sort: Name| #[trigger]
                answer_has_sorted(facts@, v, sort)) && (sorts.contains_key(v) ==> answer_has_sorted(
                facts@,
                v,
                sorts[v],
            )) by {
            law_answers_are_read(answer, v);
        }
    }
    assert(says(reply.typing, answer));
}

proof fn lemma_under_fails(command: CommandModel, lowered: Seq<CommandModel>)
    requires
        lowered.len() > 0,
    ensures
        under_fails(command, lowered).len() == lowered.len(),
        under_fails(command, lowered).drop_last() == lowered.drop_last(),
        without_fails(under_fails(command, lowered).last()) == without_fails(lowered.last()),
    decreases command,
{
    if let CommandModel::Fail(span, inner) = command {
        let inside = under_fails(*inner, lowered);
        lemma_under_fails(*inner, lowered);
        assert(under_fails(command, lowered).drop_last() =~= inside.drop_last());
    }
}

/// What a lowering that succeeded returns for a rule: the rule comes last, under the `fail`s
/// of the command, and nothing of it has changed but its body. In every database that the
/// commands before it have been run to their fixpoint in, the new body holds under exactly the
/// values under which the body holds.
pub open spec fn is_lowering_of(
    commands: Seq<CommandModel>,
    rule: RuleModel,
    db: Database,
    s: Assignment,
) -> bool {
    &&& commands.len() > 0
    &&& without_fails(commands.last()) matches CommandModel::Rule { rule: lowered }
    &&& lowered == (RuleModel { body: lowered.body, ..rule })
    &&& at_fixpoint(db, commands.drop_last()) ==> (holds_all(lowered.body, db, s, Set::empty())
        <==> holds_all(rule.body, db, s, Set::empty()))
}

/// The lowering of a command that consists of a rule, under any number of `fail`s.
///
/// A rule without disjunctions is returned as it is, and nothing is taken from the supply.
/// For a rule with disjunctions the type environment is asked. Where it rejects the query, the
/// lowering fails with its error. Where it gives every variable of the query a sort, the
/// lowering succeeds if and only if the disjunctions are well scoped. What it returns then
/// means what the rule means.
pub proof fn law_commands_are_lowered_by_the_reply<T: TypeInfo>(
    type_info: &T,
    command: CommandModel,
    rule: RuleModel,
    reserved: Name,
    n: nat,
    result: Result<Seq<CommandModel>, TypeErrorModel>,
    next: nat,
    db: Database,
    s: Assignment,
)
    requires
        without_fails(command) == (CommandModel::Rule { rule }),
        lowering_of(type_info, command, reserved, n, result, next),
    ensures
        (forall|i: int| 0 <= i < rule.body.len() ==> !(#[trigger] rule.body[i] is Or)) ==> result
            == Ok::<Seq<CommandModel>, TypeErrorModel>(seq![command]) && next == n,
        (exists|i: int| 0 <= i < rule.body.len() && #[trigger] rule.body[i] is Or) ==> exists|
            reply: Reply,
        |
            {
                &&& #[trigger] asked(type_info, rule.body, reserved, n, reply)
                &&& reply.typing matches Err(e) ==> result == Err::<
                    Seq<CommandModel>,
                    TypeErrorModel,
                >(e) && next == reply.left
                &&& reply.typing matches Ok(sorts) ==> (!is_global_name(reserved) && all_sorted(
                    typing_query(rule.body, reserved, n).0,
                    sorts,
                ) ==> (result is Ok <==> well_scoped(
                    rule.body,
                    Set::empty(),
                    actions_occurrences(rule.head).to_set(),
                )))
                &&& result matches Ok(commands) ==> is_lowering_of(commands, rule, db, s)
            },
{
    lemma_disjunctive_rule(command, rule);
    if has_or(rule.body) {
        let reply = choose|reply: Reply| #[trigger]
            asked(type_info, rule.body, reserved, n, reply) && (result, next) == lowered_command(
                command,
                reply,
                reserved,
                n,
            );
        if let Ok(sorts) = reply.typing {
            if !is_global_name(reserved) && all_sorted(
                typing_query(rule.body, reserved, n).0,
                sorts,
            ) {
                law_lowering_succeeds(rule, sorts, reserved, n, reply.left);
            }
            if let Ok(commands) = result {
                let lowered = typed_rule(rule, reply, reserved, n).0->Ok_0;
                assert(lowered == lowered_rule(rule, sorts, reserved, n, reply.left).0->Ok_0);
                lemma_under_fails(command, lowered);
                assert(commands == under_fails(command, lowered));
                if at_fixpoint(db, commands.drop_last()) {
                    law_lowering_preserves_matches(rule, sorts, reserved, n, reply.left, db, s);
                }
                assert(lowered.last() is Rule);
                assert(is_lowering_of(commands, rule, db, s));
            }
        }
        assert(asked(type_info, rule.body, reserved, n, reply));
    } else {
        assert forall|i: int| 0 <= i < rule.body.len() implies !(#[trigger] rule.body[i] is Or) by {
            assert(!is_or(rule.body[i]));
        }
    }
    if exists|i: int| 0 <= i < rule.body.len() && #[trigger] rule.body[i] is Or {
        let i = choose|i: int| 0 <= i < rule.body.len() && #[trigger] rule.body[i] is Or;
        assert(is_or(rule.body[i]));
    }
}

/// A command that consists of no rule is returned as it is.
pub proof fn law_other_commands_are_returned<T: TypeInfo>(
    type_info: &T,
    command: CommandModel,
    reserved: Name,
    n: nat,
    result: Result<Seq<CommandModel>, TypeErrorModel>,
    next: nat,
)
    requires
        !(without_fails(command) is Rule),
        lowering_of(type_info, command, reserved, n, result, next),
    ensures
        result == Ok::<Seq<CommandModel>, TypeErrorModel>(seq![command]),
        next == n,
{
    lemma_no_rule(command);
}

proof fn lemma_no_rule(command: CommandModel)
    requires
        !(without_fails(command) is Rule),
    ensures
        disjunctive_rule(command) is None,
    decreases command,
{
    if let CommandModel::Fail(_, inner) = command {
        lemma_no_rule(*inner);
    }
}

} // verus!
