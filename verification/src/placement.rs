//! Where a disjunction may stand.

use vstd::prelude::*;

use crate::ast::{CommandModel, FactModel, RuleModel, Span};
use crate::commands::{disjunctive_rule, first_or, misplaced_or};

verus! {

/// A disjunction is among some facts, with this span and with none before it.
pub open spec fn starts_with_or(fs: Seq<FactModel>, span: Span) -> bool {
    exists|i: int|
        0 <= i < fs.len() && (#[trigger] fs[i] matches FactModel::Or(at, _) && at == span)
            && forall|j: int| 0 <= j < i ==> !(#[trigger] fs[j] is Or)
}

proof fn lemma_first_or(fs: Seq<FactModel>)
    ensures
        first_or(fs) is None <==> forall|i: int| 0 <= i < fs.len() ==> !(#[trigger] fs[i] is Or),
        first_or(fs) matches Some(span) ==> starts_with_or(fs, span),
    decreases fs.len(),
{
    if fs.len() > 0 {
        let front = fs.drop_last();
        let last = fs.len() - 1;
        lemma_first_or(front);
        match first_or(front) {
            Some(span) => {
                let i = choose|i: int|
                    0 <= i < front.len() && (#[trigger] front[i] matches FactModel::Or(at, _) && at
                        == span) && forall|j: int| 0 <= j < i ==> !(#[trigger] front[j] is Or);
                assert(fs[i] == front[i]);
                assert forall|j: int| 0 <= j < i implies !(#[trigger] fs[j] is Or) by {
                    assert(front[j] == fs[j]);
                }
            },
            None => {
                assert forall|j: int| 0 <= j < last implies !(#[trigger] fs[j] is Or) by {
                    assert(front[j] == fs[j]);
                }
                assert(fs[last] == fs.last());
            },
        }
    }
}

/// A `check` or a `query` is accepted if and only if none of its facts, wherever it stands,
/// is a disjunction. One that is rejected is rejected for the first of them.
pub proof fn law_queries_hold_no_or(span: Span, fs: Seq<FactModel>)
    ensures
        misplaced_or(CommandModel::Check(span, fs)) is None <==> forall|i: int|
            0 <= i < fs.len() ==> !(#[trigger] fs[i] is Or),
        misplaced_or(CommandModel::Check(span, fs)) matches Some(at) ==> starts_with_or(fs, at),
        misplaced_or(CommandModel::Query(span, fs)) is None <==> forall|i: int|
            0 <= i < fs.len() ==> !(#[trigger] fs[i] is Or),
        misplaced_or(CommandModel::Query(span, fs)) matches Some(at) ==> starts_with_or(fs, at),
{
    lemma_first_or(fs);
}

/// A command under `fail` is accepted if and only if the command is, and rejected for the
/// same disjunction.
pub proof fn law_fail_is_placed_as_its_command(span: Span, inner: CommandModel)
    ensures
        misplaced_or(CommandModel::Fail(span, Box::new(inner))) == misplaced_or(inner),
{
}

/// Every other command is accepted, a rule with disjunctions among them.
pub proof fn law_other_commands_are_accepted(command: CommandModel)
    requires
        !(command is Check),
        !(command is Query),
        !(command is Fail),
    ensures
        misplaced_or(command) is None,
{
}

/// A rule is lowered if and only if one of its facts, wherever it stands, is a disjunction;
/// so is a rule under `fail`. No other command is.
pub proof fn law_rules_with_an_or_are_lowered(
    rule: RuleModel,
    span: Span,
    inner: CommandModel,
    other: CommandModel,
)
    ensures
        disjunctive_rule(CommandModel::Rule { rule }) is Some <==> exists|i: int|
            0 <= i < rule.body.len() && #[trigger] rule.body[i] is Or,
        disjunctive_rule(CommandModel::Rule { rule }) matches Some(found) ==> found == rule,
        disjunctive_rule(CommandModel::Fail(span, Box::new(inner))) == disjunctive_rule(inner),
        !(other is Rule) && !(other is Fail) ==> disjunctive_rule(other) is None,
{
}

} // verus!
