//! What can be wrong with a disjunction.

use vstd::prelude::*;

use crate::ast::{Name, Span};

verus! {

#[derive(Debug, PartialEq, Eq)]
pub enum TypeError {
    /// A branch of a disjunction has no facts.
    EmptyOrBranch(Span),
    /// A disjunction has no branches.
    OrWithoutBranches(Span),
    /// A variable that is local to a branch is used outside its disjunction.
    OrBranchLocalEscapes(String, Span),
    /// A disjunction stands where no rule body is.
    OrOutsideRule(Span),
    /// The type environment gave a key variable of a disjunction no sort.
    UntypedVariable(String, Span),
    /// The type environment rejected the facts, for the reason given.
    Rejected(String),
}

#[derive(Debug, PartialEq, Eq)]
pub enum Error {
    TypeError(TypeError),
}

/// The model of a [`TypeError`].
pub enum TypeErrorModel {
    EmptyOrBranch(Span),
    OrWithoutBranches(Span),
    OrBranchLocalEscapes(Name, Span),
    OrOutsideRule(Span),
    UntypedVariable(Name, Span),
    Rejected(Name),
}

impl View for TypeError {
    type V = TypeErrorModel;

    open spec fn view(&self) -> TypeErrorModel {
        match self {
            TypeError::EmptyOrBranch(span) => TypeErrorModel::EmptyOrBranch(*span),
            TypeError::OrWithoutBranches(span) => TypeErrorModel::OrWithoutBranches(*span),
            TypeError::OrBranchLocalEscapes(v, span) => TypeErrorModel::OrBranchLocalEscapes(
                v@,
                *span,
            ),
            TypeError::OrOutsideRule(span) => TypeErrorModel::OrOutsideRule(*span),
            TypeError::UntypedVariable(v, span) => TypeErrorModel::UntypedVariable(v@, *span),
            TypeError::Rejected(reason) => TypeErrorModel::Rejected(reason@),
        }
    }
}

impl View for Error {
    type V = TypeErrorModel;

    open spec fn view(&self) -> TypeErrorModel {
        match self {
            Error::TypeError(e) => e@,
        }
    }
}

/// The text that describes an error.
pub open spec fn error_text(e: TypeErrorModel) -> Seq<char> {
    match e {
        TypeErrorModel::EmptyOrBranch(_) => "a branch of an `or` is empty"@,
        TypeErrorModel::OrWithoutBranches(_) => "an `or` has no branches"@,
        TypeErrorModel::OrBranchLocalEscapes(v, _) => "variable "@ + v
            + " is local to one branch of an `or` but is used outside it"@,
        TypeErrorModel::OrOutsideRule(_) => "`or` is only supported inside rule bodies"@,
        TypeErrorModel::UntypedVariable(v, _) => "no sort is known for variable "@ + v,
        TypeErrorModel::Rejected(reason) => reason,
    }
}

impl TypeError {
    /// The text that describes the error.
    pub fn message(&self) -> (text: String)
        ensures
            text@ == error_text(self@),
    {
        match self {
            TypeError::EmptyOrBranch(_) => String::from_str("a branch of an `or` is empty"),
            TypeError::OrWithoutBranches(_) => String::from_str("an `or` has no branches"),
            TypeError::OrBranchLocalEscapes(v, _) => String::from_str("variable ").concat(
                v.as_str(),
            ).concat(" is local to one branch of an `or` but is used outside it"),
            TypeError::OrOutsideRule(_) => String::from_str(
                "`or` is only supported inside rule bodies",
            ),
            TypeError::UntypedVariable(v, _) => String::from_str(
                "no sort is known for variable ",
            ).concat(v.as_str()),
            TypeError::Rejected(reason) => reason.clone(),
        }
    }
}

impl Error {
    /// The text that describes the error.
    pub fn message(&self) -> (text: String)
        ensures
            text@ == error_text(self@),
    {
        match self {
            Error::TypeError(e) => e.message(),
        }
    }
}

/// The texts that speak of a variable are the same for all variables but for its name, which
/// they hold as it is. No text depends on where the error is.
pub proof fn law_messages_name_the_variable(v: Name, w: Name, span: Span, at: Span)
    ensures
        exists|before: Name, after: Name|
            error_text(TypeErrorModel::OrBranchLocalEscapes(v, span)) == #[trigger] (before + v
                + after) && error_text(TypeErrorModel::OrBranchLocalEscapes(w, at)) == before + w
                + after,
        exists|before: Name, after: Name|
            error_text(TypeErrorModel::UntypedVariable(v, span)) == #[trigger] (before + v + after)
                && error_text(TypeErrorModel::UntypedVariable(w, at)) == before + w + after,
        error_text(TypeErrorModel::EmptyOrBranch(span)) == error_text(
            TypeErrorModel::EmptyOrBranch(at),
        ),
        error_text(TypeErrorModel::OrWithoutBranches(span)) == error_text(
            TypeErrorModel::OrWithoutBranches(at),
        ),
        error_text(TypeErrorModel::OrOutsideRule(span)) == error_text(
            TypeErrorModel::OrOutsideRule(at),
        ),
        error_text(TypeErrorModel::Rejected(v)) == v,
{
    let escapes = " is local to one branch of an `or` but is used outside it"@;
    assert(error_text(TypeErrorModel::OrBranchLocalEscapes(v, span)) =~= "variable "@ + v + escapes);
    assert(error_text(TypeErrorModel::OrBranchLocalEscapes(w, at)) =~= "variable "@ + w + escapes);
    let untyped = "no sort is known for variable "@;
    let none = Seq::<char>::empty();
    assert(error_text(TypeErrorModel::UntypedVariable(v, span)) =~= untyped + v + none);
    assert(error_text(TypeErrorModel::UntypedVariable(w, at)) =~= untyped + w + none);
}

} // verus!
