//! Lowering of whole rules and commands.
//!
//! Lowering runs before typechecking. The sorts of the key variables are looked up on
//! demand in a type environment, so everything downstream sees ordinary relations and
//! rules.

use vstd::prelude::*;

use crate::ast::{
    command_models, fact_models, group_models, Command, CommandModel, Fact, FactModel, Name, Rule,
    RuleModel, Span,
};
use crate::attributes::{
    all_in_ruleset, law_lowering_shares_the_ruleset, lemma_rule_in_ruleset, without_fails,
};
use crate::error::{Error, TypeError, TypeErrorModel};
use crate::flatten::{flatten_for_typing, flattened, Renaming};
use crate::generated::lemma_facts_generated;
use crate::lowering::{lower_fact_list, lowered_facts};
use crate::materialize::{env_of, Env, Surroundings};
use crate::query::lemma_flattened_grows;
use crate::scope::is_or;
use crate::symbol_gen::SymbolGen;
use crate::typing::{
    first_sorts, resolved_facts_occurrences, resolved_var_sorts, ResolvedFact, TypeInfo,
};
use crate::vars::{actions_occurrences, actions_vars, lemma_with_all_contains, VarSet};

verus! {

/// What a type environment answered: the sort of each variable, or why it has none.
pub type Typing = Result<Map<Name, Name>, TypeErrorModel>;

/// The model of a type environment's answer.
pub open spec fn typing_of(answer: Result<Vec<ResolvedFact>, TypeError>) -> Typing {
    match answer {
        Ok(facts) => Ok(first_sorts(Map::empty(), resolved_facts_occurrences(facts@))),
        Err(e) => Err(e@),
    }
}

/// Whether a disjunction is among the facts of a conjunction.
pub open spec fn has_or(fs: Seq<FactModel>) -> bool {
    exists|i: int| 0 <= i < fs.len() && is_or(#[trigger] fs[i])
}

/// What surrounds the body of a rule whose typing query started after `queried` names
/// had been handed out.
pub open spec fn rule_env(
    rule: RuleModel,
    sorts: Map<Name, Name>,
    reserved: Name,
    queried: nat,
) -> Env {
    Env {
        outside: actions_occurrences(rule.head).to_set(),
        bound: Set::empty(),
        context: seq![],
        ruleset: rule.ruleset,
        sorts,
        renaming: seq![],
        reserved,
        queried,
    }
}

/// The lowering of a rule, where `sorts` holds the sorts of the variables of its typing
/// query: the commands that take its place and the number of names handed out. The names
/// from `queried` on went to the query, those from `n` on are free.
pub open spec fn lowered_rule(
    rule: RuleModel,
    sorts: Map<Name, Name>,
    reserved: Name,
    queried: nat,
    n: nat,
) -> (Result<Seq<CommandModel>, TypeErrorModel>, nat) {
    let body = lowered_facts(rule.body, rule.body.len(), rule_env(rule, sorts, reserved, queried), n);
    (
        match body.result {
            Err(e) => Err(e),
            Ok(facts) => Ok(
                body.aux.push(CommandModel::Rule { rule: RuleModel { body: facts, ..rule } }),
            ),
        },
        body.next,
    )
}

/// The typing query of a rule body, and the number of names handed out for it.
pub open spec fn typing_query(body: Seq<FactModel>, reserved: Name, n: nat) -> (
    Seq<FactModel>,
    nat,
) {
    flattened(body, body.len(), Set::empty(), seq![], reserved, n)
}

/// What a type environment made of a query: the sorts or the error that it answered, and
/// how many names had been handed out when it was done.
pub struct Reply {
    pub typing: Typing,
    pub left: nat,
}

/// The number of names handed out once a type environment gives the supply back, which had
/// handed out `m` before. A supply that has another prefix or has been set back is not taken
/// over.
pub open spec fn resumed(back: SymbolGen, reserved: Name, m: nat) -> nat {
    if back.reserved() == reserved && back.count() >= m {
        back.count()
    } else {
        m
    }
}

/// Whether a type environment that is asked the query of a rule body can reply this way.
/// The query takes its names from the `n`-th of the supply on, and the environment gets the
/// supply after that.
pub open spec fn asked<T: TypeInfo>(
    type_info: &T,
    body: Seq<FactModel>,
    reserved: Name,
    n: nat,
    reply: Reply,
) -> bool {
    exists|
        query: Vec<Fact>,
        supply: SymbolGen,
        answer: Result<Vec<ResolvedFact>, TypeError>,
        back: SymbolGen,
    |
        {
            &&& #[trigger] call_ensures(
                T::typecheck_facts,
                (type_info, supply, &query),
                (answer, back),
            )
            &&& fact_models(query@) == typing_query(body, reserved, n).0
            &&& supply.reserved() == reserved
            &&& supply.count() == typing_query(body, reserved, n).1
            &&& reply.typing == typing_of(answer)
            &&& reply.left == resumed(back, reserved, typing_query(body, reserved, n).1)
        }
}

/// The lowering of a rule, given the type environment's reply to its query.
pub open spec fn typed_rule(rule: RuleModel, reply: Reply, reserved: Name, n: nat) -> (
    Result<Seq<CommandModel>, TypeErrorModel>,
    nat,
) {
    match reply.typing {
        Err(e) => (Err(e), reply.left),
        Ok(sorts) => lowered_rule(rule, sorts, reserved, n, reply.left),
    }
}

/// The rule with a disjunction that a command consists of, if any, under any number of
/// `fail`s.
pub open spec fn disjunctive_rule(command: CommandModel) -> Option<RuleModel>
    decreases command,
{
    match command {
        CommandModel::Rule { rule } => if has_or(rule.body) {
            Some(rule)
        } else {
            None
        },
        CommandModel::Fail(_, inner) => disjunctive_rule(*inner),
        _ => None,
    }
}

/// The last of some commands put under the `fail`s of another command.
pub open spec fn under_fails(command: CommandModel, lowered: Seq<CommandModel>) -> Seq<CommandModel>
    decreases command,
{
    match command {
        CommandModel::Fail(span, inner) => {
            let inside = under_fails(*inner, lowered);
            inside.drop_last().push(CommandModel::Fail(span, Box::new(inside.last())))
        },
        _ => lowered,
    }
}

/// The lowering of a command, given the type environment's reply to the query of its rule.
pub open spec fn lowered_command(command: CommandModel, reply: Reply, reserved: Name, n: nat) -> (
    Result<Seq<CommandModel>, TypeErrorModel>,
    nat,
) {
    match disjunctive_rule(command) {
        None => (Ok(seq![command]), n),
        Some(rule) => {
            let lowered = typed_rule(rule, reply, reserved, n);
            (
                match lowered.0 {
                    Err(e) => Err(e),
                    Ok(commands) => Ok(under_fails(command, commands)),
                },
                lowered.1,
            )
        },
    }
}

/// Whether the lowering of a command can have this result and leave this many names handed
/// out, where `n` were handed out before. A type environment is asked only where there is a
/// disjunction to lower.
pub open spec fn lowering_of<T: TypeInfo>(
    type_info: &T,
    command: CommandModel,
    reserved: Name,
    n: nat,
    result: Result<Seq<CommandModel>, TypeErrorModel>,
    next: nat,
) -> bool {
    match disjunctive_rule(command) {
        None => result == Ok::<Seq<CommandModel>, TypeErrorModel>(seq![command]) && next == n,
        Some(rule) => exists|reply: Reply| #[trigger]
            asked(type_info, rule.body, reserved, n, reply) && (result, next) == lowered_command(
                command,
                reply,
                reserved,
                n,
            ),
    }
}

/// The span of the first disjunction among some facts.
pub open spec fn first_or(fs: Seq<FactModel>) -> Option<Span>
    decreases fs.len(),
{
    if fs.len() == 0 {
        None
    } else {
        match first_or(fs.drop_last()) {
            Some(span) => Some(span),
            None => match fs.last() {
                FactModel::Or(span, _) => Some(span),
                _ => None,
            },
        }
    }
}

/// The span of the first disjunction of a command that stands outside a rule body.
pub open spec fn misplaced_or(command: CommandModel) -> Option<Span>
    decreases command,
{
    match command {
        CommandModel::Check(_, facts) => first_or(facts),
        CommandModel::Query(_, facts) => first_or(facts),
        CommandModel::Fail(_, inner) => misplaced_or(*inner),
        _ => None,
    }
}

/// A result as its model.
pub open spec fn outcome_of(result: Result<Vec<Command>, Error>) -> Result<
    Seq<CommandModel>,
    TypeErrorModel,
> {
    match result {
        Ok(commands) => Ok(command_models(commands@)),
        Err(e) => Err(e@),
    }
}

/// Whether a rule body has an `or` to lower.
pub fn body_has_or(body: &Vec<Fact>) -> (found: bool)
    ensures
        found == has_or(fact_models(body@)),
{
    broadcast use group_models;

    let mut i: usize = 0;
    while i < body.len()
        invariant
            i <= body.len(),
            forall|j: int| 0 <= j < i ==> !is_or(#[trigger] fact_models(body@)[j]),
        decreases body.len() - i,
    {
        match &body[i] {
            Fact::Or(_, _) => {
                assert(is_or(fact_models(body@)[i as int]));
                return true;
            },
            _ => {},
        }
        i = i + 1;
    }
    false
}

fn find_or(facts: &Vec<Fact>) -> (span: Option<Span>)
    ensures
        span == first_or(fact_models(facts@)),
        span is None <==> forall|i: int| 0 <= i < facts.len() ==> !(#[trigger] facts@[i] is Or),
        span matches Some(at) ==> exists|i: int|
            0 <= i < facts.len() && (#[trigger] facts@[i] matches Fact::Or(s, _) && s == at)
                && forall|j: int| 0 <= j < i ==> !(#[trigger] facts@[j] is Or),
{
    broadcast use group_models;

    let ghost fs = fact_models(facts@);
    let mut i: usize = 0;
    while i < facts.len()
        invariant
            i <= facts.len(),
            fs == fact_models(facts@),
            first_or(fs.take(i as int)) is None,
            forall|j: int| 0 <= j < i ==> !(#[trigger] facts@[j] is Or),
        decreases facts.len() - i,
    {
        assert(fs.take(i + 1).drop_last() =~= fs.take(i as int));
        match &facts[i] {
            Fact::Or(span, _) => {
                proof {
                    lemma_first_or_stays(fs, i + 1);
                }
                return Some(*span);
            },
            _ => {},
        }
        i = i + 1;
    }
    assert(fs.take(i as int) =~= fs);
    None
}

proof fn lemma_first_or_stays(fs: Seq<FactModel>, k: int)
    requires
        0 <= k <= fs.len(),
        first_or(fs.take(k)) is Some,
    ensures
        first_or(fs) == first_or(fs.take(k)),
    decreases fs.len(),
{
    if k == fs.len() {
        assert(fs.take(k) =~= fs);
    } else {
        assert(fs.drop_last().take(k) =~= fs.take(k));
        lemma_first_or_stays(fs.drop_last(), k);
    }
}

/// Rejects a command with an `or` outside a rule body: one in a query-shaped command such
/// as `check` or `query`.
pub fn check_or_placement(command: &Command) -> (result: Result<(), Error>)
    ensures
        match misplaced_or(command@) {
            Some(span) => result matches Err(e) && e@ == TypeErrorModel::OrOutsideRule(span),
            None => result is Ok,
        },
        (command matches Command::Check(_, facts) ==> (result is Ok <==> forall|i: int|
            0 <= i < facts.len() ==> !(#[trigger] facts@[i] is Or))),
        (command matches Command::Query(_, facts) ==> (result is Ok <==> forall|i: int|
            0 <= i < facts.len() ==> !(#[trigger] facts@[i] is Or))),
    decreases command,
{
    match command {
        Command::Check(_, facts) => match find_or(facts) {
            Some(span) => Err(Error::TypeError(TypeError::OrOutsideRule(span))),
            None => Ok(()),
        },
        Command::Query(_, facts) => match find_or(facts) {
            Some(span) => Err(Error::TypeError(TypeError::OrOutsideRule(span))),
            None => Ok(()),
        },
        Command::Fail(_, inner) => check_or_placement(inner),
        _ => Ok(()),
    }
}

/// Lowers a rule whose typing query has been resolved: the generated relations and
/// auxiliary rules, then the rule with its new body. `queried` is the supply of names as
/// it was before the query took its own from it.
pub fn lower_typed_rule(
    resolved: &Vec<ResolvedFact>,
    queried: SymbolGen,
    symbol_gen: &mut SymbolGen,
    rule: Rule,
) -> (result: Result<Vec<Command>, Error>)
    requires
        queried.reserved() == old(symbol_gen).reserved(),
    ensures
        final(symbol_gen).reserved() == old(symbol_gen).reserved(),
        (outcome_of(result), final(symbol_gen).count()) == lowered_rule(
            rule@,
            first_sorts(Map::empty(), resolved_facts_occurrences(resolved@)),
            old(symbol_gen).reserved(),
            queried.count(),
            old(symbol_gen).count(),
        ),
        result matches Ok(commands) ==> commands.len() > 0 && all_in_ruleset(
            command_models(commands@),
            rule.ruleset@,
        ) && (commands@.last() matches Command::Rule { rule: lowered } && lowered == (Rule {
            body: lowered.body,
            ..rule
        })),
{
    let mut queried = queried;
    let ghost start = queried.count();
    let ghost reserved = symbol_gen.reserved();
    let ghost n = symbol_gen.count();
    let renaming = Renaming::new();
    let var_sorts = resolved_var_sorts(resolved);
    let around = Surroundings {
        outside: actions_vars(&rule.head),
        bound: VarSet::new(),
        context: Vec::new(),
    };
    let mut aux: Vec<Command> = Vec::new();
    proof {
        let occurrences = actions_occurrences(rule.head@);
        assert forall|v: Name|
            around.outside@.to_set().contains(v) <==> #[trigger] occurrences.to_set().contains(
                v,
            ) by {
            lemma_with_all_contains(seq![], occurrences, v);
        }
        assert(around.outside@.to_set() =~= occurrences.to_set());
        assert(around.bound@.to_set() =~= Set::<Name>::empty());
        assert(fact_models(around.context@) =~= Seq::<FactModel>::empty());
        assert(env_of(
            &around,
            rule.ruleset@,
            var_sorts@,
            renaming@,
            symbol_gen.reserved(),
            start,
        ) == rule_env(rule@, var_sorts@, symbol_gen.reserved(), start));
        assert(command_models(aux@) =~= Seq::<CommandModel>::empty());
    }
    let body = lower_fact_list(
        &rule.body,
        &around,
        &rule.ruleset,
        &var_sorts,
        &renaming,
        &mut queried,
        symbol_gen,
        &mut aux,
    );
    match body {
        Err(e) => Err(e),
        Ok(body) => {
            let ghost before = aux@;
            let lowered = Rule { body, ..rule };
            aux.push(Command::Rule { rule: lowered });
            proof {
                assert(command_models(before) =~= Seq::<CommandModel>::empty() + command_models(
                    before,
                ));
                assert(command_models(aux@) =~= command_models(before).push(
                    CommandModel::Rule { rule: lowered@ },
                ));
                lemma_rule_in_ruleset(rule@, var_sorts@, reserved, start, n);
            }
            Ok(aux)
        },
    }
}

/// Lowers a rule. The type environment is asked once, for the sorts of the flattened
/// body; its error, if it has one, is the result. It may take names from the supply; one
/// that hands back another supply, or one set back, changes nothing.
pub fn lower_rule<T: TypeInfo>(
    type_info: &T,
    symbol_gen: &mut SymbolGen,
    rule: Rule,
) -> (result: Result<Vec<Command>, Error>)
    ensures
        final(symbol_gen).reserved() == old(symbol_gen).reserved(),
        final(symbol_gen).count() >= old(symbol_gen).count(),
        exists|reply: Reply| #[trigger]
            asked(
                type_info,
                fact_models(rule.body@),
                old(symbol_gen).reserved(),
                old(symbol_gen).count(),
                reply,
            ) && (outcome_of(result), final(symbol_gen).count()) == typed_rule(
                rule@,
                reply,
                old(symbol_gen).reserved(),
                old(symbol_gen).count(),
            ),
        result matches Ok(commands) ==> commands.len() > 0 && all_in_ruleset(
            command_models(commands@),
            rule.ruleset@,
        ) && (commands@.last() matches Command::Rule { rule: lowered } && lowered == (Rule {
            body: lowered.body,
            ..rule
        })),
{
    let ghost reserved = symbol_gen.reserved();
    let ghost n = symbol_gen.count();
    let queried = symbol_gen.clone();
    let query = flatten_for_typing(&rule.body, symbol_gen);
    let ghost m = symbol_gen.count();
    let lent = symbol_gen.clone();
    let (answer, back) = type_info.typecheck_facts(lent, &query);
    let ghost reply = Reply { typing: typing_of(answer), left: resumed(back, reserved, m) };
    assert(call_ensures(T::typecheck_facts, (type_info, lent, &query), (answer, back)));
    if back.continues(symbol_gen) {
        *symbol_gen = back;
    }
    proof {
        assert(asked(type_info, fact_models(rule.body@), reserved, n, reply));
        lemma_typed_rule_grows(rule@, reply, reserved, n);
    }
    match answer {
        Err(e) => Err(Error::TypeError(e)),
        Ok(resolved) => lower_typed_rule(&resolved, queried, symbol_gen, rule),
    }
}

/// No name is handed out twice: the names of the query come before those that the type
/// environment takes, and these before those of the lowering.
proof fn lemma_typed_rule_grows(rule: RuleModel, reply: Reply, reserved: Name, n: nat)
    requires
        reply.left >= typing_query(rule.body, reserved, n).1,
    ensures
        typed_rule(rule, reply, reserved, n).1 >= reply.left,
        reply.left >= n,
{
    lemma_flattened_grows(rule.body, rule.body.len(), Set::empty(), seq![], reserved, n);
    if let Ok(sorts) = reply.typing {
        let env = rule_env(rule, sorts, reserved, n);
        lemma_facts_generated(rule.body, rule.body.len(), env, reply.left);
    }
}

/// Rewrites a command so that any `or` in a rule body is replaced by a
/// materialized-union relation plus per-branch auxiliary rules. Commands without
/// disjunctions (and non-rule commands) are returned unchanged.
pub fn lower_disjunctions<T: TypeInfo>(
    type_info: &T,
    symbol_gen: &mut SymbolGen,
    command: Command,
) -> (result: Result<Vec<Command>, Error>)
    ensures
        final(symbol_gen).reserved() == old(symbol_gen).reserved(),
        final(symbol_gen).count() >= old(symbol_gen).count(),
        disjunctive_rule(command@) is None ==> (result matches Ok(commands) && commands@ == seq![
            command,
        ]),
        lowering_of(
            type_info,
            command@,
            old(symbol_gen).reserved(),
            old(symbol_gen).count(),
            outcome_of(result),
            final(symbol_gen).count(),
        ),
        result matches Ok(commands) ==> (without_fails(command@) matches CommandModel::Rule { rule }
            ==> all_in_ruleset(command_models(commands@), rule.ruleset)),
    decreases command,
{
    let ghost model = command@;
    let ghost reserved = symbol_gen.reserved();
    let ghost n = symbol_gen.count();
    let result = match command {
        Command::Rule { rule } => {
            if body_has_or(&rule.body) {
                lower_rule(type_info, symbol_gen, rule)
            } else {
                let unchanged: Vec<Command> = vec![Command::Rule { rule }];
                assert(unchanged@ =~= seq![command]);
                assert(command_models(unchanged@) =~= seq![command@]);
                Ok(unchanged)
            }
        },
        Command::Fail(span, inner) => {
            // A subcommand may expand into several commands: only the last of them is
            // asserted to fail.
            let ghost inside = *inner;
            match lower_disjunctions(type_info, symbol_gen, *inner) {
                Err(e) => Err(e),
                Ok(mut lowered) => {
                    let ghost before = lowered@;
                    proof {
                        lemma_some_command(inside@);
                    }
                    let last = lowered.pop().unwrap();
                    lowered.push(Command::Fail(span, Box::new(last)));
                    proof {
                        if disjunctive_rule(command@) is None {
                            assert(lowered@ =~= seq![command]);
                            assert(command_models(lowered@) =~= seq![command@]);
                        } else {
                            assert(command_models(lowered@) =~= command_models(
                                before,
                            ).drop_last().push(
                                CommandModel::Fail(span, Box::new(command_models(before).last())),
                            ));
                        }
                    }
                    Ok(lowered)
                },
            }
        },
        other => {
            let unchanged: Vec<Command> = vec![other];
            assert(unchanged@ =~= seq![command]);
            assert(command_models(unchanged@) =~= seq![command@]);
            Ok(unchanged)
        },
    };
    proof {
        if let Ok(commands) = &result {
            if let CommandModel::Rule { rule } = without_fails(model) {
                law_lowering_shares_the_ruleset(
                    type_info,
                    model,
                    rule,
                    reserved,
                    n,
                    command_models(commands@),
                    symbol_gen.count(),
                );
            }
        }
    }
    result
}

/// Lowering a command yields at least one command.
proof fn lemma_some_command(command: CommandModel)
    ensures
        forall|reply: Reply, reserved: Name, n: nat|
            #![trigger lowered_command(command, reply, reserved, n)]
            lowered_command(command, reply, reserved, n).0 matches Ok(commands) ==> commands.len()
                > 0,
{
    assert forall|reply: Reply, reserved: Name, n: nat|
        #![trigger lowered_command(command, reply, reserved, n)]
        lowered_command(command, reply, reserved, n).0 matches Ok(commands) ==> commands.len()
            > 0 by {
        if let Some(rule) = disjunctive_rule(command) {
            if let Ok(lowered) = typed_rule(rule, reply, reserved, n).0 {
                lemma_under_fails_len(command, lowered);
            }
        }
    }
}

pub proof fn lemma_under_fails_len(command: CommandModel, lowered: Seq<CommandModel>)
    requires
        lowered.len() > 0,
    ensures
        under_fails(command, lowered).len() == lowered.len(),
    decreases command,
{
    match command {
        CommandModel::Fail(_, inner) => lemma_under_fails_len(*inner, lowered),
        _ => {},
    }
}

/// What a type environment takes from the supply is not handed out again: the supply that it
/// gives back is taken over. One that has another prefix or that has been set back is not,
/// and the supply never falls behind the query.
pub proof fn law_the_supply_is_taken_over(back: SymbolGen, reserved: Name, m: nat)
    ensures
        resumed(back, reserved, m) >= m,
        back.reserved() == reserved ==> resumed(back, reserved, m) >= back.count(),
        resumed(back, reserved, m) == m || back.reserved() == reserved && resumed(
            back,
            reserved,
            m,
        ) == back.count(),
{
}

/// A rule whose query the type environment rejects is rejected with its error, and nothing
/// more is taken from the supply.
pub proof fn law_rejections_are_passed_on(
    rule: RuleModel,
    answer: Result<Vec<ResolvedFact>, TypeError>,
    left: nat,
    reserved: Name,
    n: nat,
)
    requires
        answer is Err,
    ensures
        typed_rule(rule, Reply { typing: typing_of(answer), left }, reserved, n) == (
            Err::<Seq<CommandModel>, TypeErrorModel>(answer->Err_0@),
            left,
        ),
{
}

} // verus!
