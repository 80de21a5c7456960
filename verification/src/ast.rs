//! Surface syntax of rules and commands, and the mathematical model of each type.
//!
//! The model of a value replaces every string by its characters and every vector by
//! the sequence of its elements' models. Contracts speak of models only.

use vstd::prelude::*;

verus! {

/// A variable, function, relation, rule or ruleset name, as a sequence of characters.
pub type Name = Seq<char>;

/// A half-open range of source positions.
#[derive(Clone, Copy, Debug, PartialEq, Eq)]
pub struct Span {
    pub start: usize,
    pub end: usize,
}

/// A constant. A floating-point constant is kept as its IEEE-754 bits.
#[derive(Debug, PartialEq, Eq)]
pub enum Literal {
    Int(i64),
    Float(u64),
    String(String),
    Bool(bool),
    Unit,
}

/// An expression over named functions, variables and constants.
#[derive(Debug, PartialEq, Eq)]
pub enum Expr {
    Lit(Span, Literal),
    Var(Span, String),
    Call(Span, String, Vec<Expr>),
}

/// One conjunct of a rule body.
#[derive(Debug, PartialEq, Eq)]
pub enum Fact {
    /// Both sides have a value, and it is the same one.
    Eq(Span, Expr, Expr),
    /// The expression has a value; of a relation, the tuple is in it.
    Fact(Expr),
    /// At least one branch holds. A branch is a conjunction of facts.
    Or(Span, Vec<Vec<Fact>>),
}

/// What a `Change` action does to a row.
#[derive(Clone, Copy, Debug, PartialEq, Eq)]
pub enum Change {
    Delete,
    Subsume,
}

/// One step of a rule's head.
#[derive(Debug, PartialEq, Eq)]
pub enum Action {
    Let(Span, String, Expr),
    Assign(Span, String, Vec<Expr>, Expr),
    Change(Span, Change, String, Vec<Expr>),
    Union(Span, Expr, Expr),
    Panic(Span, String),
    Expr(Span, Expr),
}

/// A rule's head.
#[derive(Debug, PartialEq, Eq)]
pub struct Actions(pub Vec<Action>);

/// How the matches of a rule are enumerated.
#[derive(Clone, Copy, Debug, PartialEq, Eq)]
pub enum RuleEvalMode {
    Seminaive,
    Naive,
    UnsafeSeminaive,
}

impl Default for RuleEvalMode {
    fn default() -> (mode: Self)
        ensures
            mode == RuleEvalMode::Seminaive,
    {
        RuleEvalMode::Seminaive
    }
}

#[derive(Debug, PartialEq, Eq)]
pub struct Rule {
    pub span: Span,
    pub head: Actions,
    pub body: Vec<Fact>,
    pub name: String,
    pub ruleset: String,
    pub eval_mode: RuleEvalMode,
    pub no_decomp: bool,
    pub include_subsumed: bool,
}

#[derive(Debug, PartialEq, Eq)]
pub enum Command {
    Relation { span: Span, name: String, inputs: Vec<String> },
    Ruleset(Span, String),
    Rule { rule: Rule },
    Action(Action),
    Check(Span, Vec<Fact>),
    Query(Span, Vec<Fact>),
    Fail(Span, Box<Command>),
}

/// The model of a [`Literal`].
pub enum LiteralModel {
    Int(i64),
    Float(u64),
    String(Name),
    Bool(bool),
    Unit,
}

/// The model of an [`Expr`].
pub enum ExprModel {
    Lit(Span, LiteralModel),
    Var(Span, Name),
    Call(Span, Name, Seq<ExprModel>),
}

/// The model of a [`Fact`].
pub enum FactModel {
    Eq(Span, ExprModel, ExprModel),
    Fact(ExprModel),
    Or(Span, Seq<Seq<FactModel>>),
}

/// The model of an [`Action`].
pub enum ActionModel {
    Let(Span, Name, ExprModel),
    Assign(Span, Name, Seq<ExprModel>, ExprModel),
    Change(Span, Change, Name, Seq<ExprModel>),
    Union(Span, ExprModel, ExprModel),
    Panic(Span, Name),
    Expr(Span, ExprModel),
}

/// The model of a [`Rule`].
pub struct RuleModel {
    pub span: Span,
    pub head: Seq<ActionModel>,
    pub body: Seq<FactModel>,
    pub name: Name,
    pub ruleset: Name,
    pub eval_mode: RuleEvalMode,
    pub no_decomp: bool,
    pub include_subsumed: bool,
}

/// The model of a [`Command`].
pub enum CommandModel {
    Relation { span: Span, name: Name, inputs: Seq<Name> },
    Ruleset(Span, Name),
    Rule { rule: RuleModel },
    Action(ActionModel),
    Check(Span, Seq<FactModel>),
    Query(Span, Seq<FactModel>),
    Fail(Span, Box<CommandModel>),
}

impl View for Literal {
    type V = LiteralModel;

    open spec fn view(&self) -> LiteralModel {
        match self {
            Literal::Int(i) => LiteralModel::Int(*i),
            Literal::Float(b) => LiteralModel::Float(*b),
            Literal::String(s) => LiteralModel::String(s@),
            Literal::Bool(b) => LiteralModel::Bool(*b),
            Literal::Unit => LiteralModel::Unit,
        }
    }
}

/// The characters of each string of a list.
pub open spec fn names(strings: Seq<String>) -> Seq<Name> {
    Seq::new(strings.len(), |i: int| strings[i]@)
}

/// The models of the expressions of a list.
pub open spec fn expr_models(exprs: Seq<Expr>) -> Seq<ExprModel>
    decreases exprs,
{
    Seq::new(
        exprs.len(),
        |i: int|
            if 0 <= i < exprs.len() {
                exprs[i].view()
            } else {
                arbitrary()
            },
    )
}

impl View for Expr {
    type V = ExprModel;

    open spec fn view(&self) -> ExprModel
        decreases self,
    {
        match self {
            Expr::Lit(span, l) => ExprModel::Lit(*span, l@),
            Expr::Var(span, v) => ExprModel::Var(*span, v@),
            Expr::Call(span, f, args) => ExprModel::Call(*span, f@, expr_models(args@)),
        }
    }
}

/// The models of the facts of a conjunction.
pub open spec fn fact_models(facts: Seq<Fact>) -> Seq<FactModel>
    decreases facts,
{
    Seq::new(
        facts.len(),
        |i: int|
            if 0 <= i < facts.len() {
                facts[i].view()
            } else {
                arbitrary()
            },
    )
}

/// The models of the branches of a disjunction.
pub open spec fn branch_models(branches: Seq<Vec<Fact>>) -> Seq<Seq<FactModel>>
    decreases branches,
{
    Seq::new(
        branches.len(),
        |i: int|
            if 0 <= i < branches.len() {
                fact_models(branches[i]@)
            } else {
                arbitrary()
            },
    )
}

impl View for Fact {
    type V = FactModel;

    open spec fn view(&self) -> FactModel
        decreases self,
    {
        match self {
            Fact::Eq(span, e1, e2) => FactModel::Eq(*span, e1@, e2@),
            Fact::Fact(e) => FactModel::Fact(e@),
            Fact::Or(span, branches) => FactModel::Or(*span, branch_models(branches@)),
        }
    }
}

impl View for Action {
    type V = ActionModel;

    open spec fn view(&self) -> ActionModel {
        match self {
            Action::Let(span, v, e) => ActionModel::Let(*span, v@, e@),
            Action::Assign(span, f, args, e) => ActionModel::Assign(*span, f@, expr_models(args@), e@),
            Action::Change(span, c, f, args) => ActionModel::Change(
                *span,
                *c,
                f@,
                expr_models(args@),
            ),
            Action::Union(span, e1, e2) => ActionModel::Union(*span, e1@, e2@),
            Action::Panic(span, msg) => ActionModel::Panic(*span, msg@),
            Action::Expr(span, e) => ActionModel::Expr(*span, e@),
        }
    }
}

/// The models of the actions of a list.
pub open spec fn action_models(actions: Seq<Action>) -> Seq<ActionModel> {
    Seq::new(actions.len(), |i: int| actions[i]@)
}

impl View for Actions {
    type V = Seq<ActionModel>;

    open spec fn view(&self) -> Seq<ActionModel> {
        action_models(self.0@)
    }
}

impl View for Rule {
    type V = RuleModel;

    open spec fn view(&self) -> RuleModel {
        RuleModel {
            span: self.span,
            head: self.head@,
            body: fact_models(self.body@),
            name: self.name@,
            ruleset: self.ruleset@,
            eval_mode: self.eval_mode,
            no_decomp: self.no_decomp,
            include_subsumed: self.include_subsumed,
        }
    }
}

impl View for Command {
    type V = CommandModel;

    open spec fn view(&self) -> CommandModel
        decreases self,
    {
        match self {
            Command::Relation { span, name, inputs } => CommandModel::Relation {
                span: *span,
                name: name@,
                inputs: names(inputs@),
            },
            Command::Ruleset(span, name) => CommandModel::Ruleset(*span, name@),
            Command::Rule { rule } => CommandModel::Rule { rule: rule@ },
            Command::Action(action) => CommandModel::Action(action@),
            Command::Check(span, facts) => CommandModel::Check(*span, fact_models(facts@)),
            Command::Query(span, facts) => CommandModel::Query(*span, fact_models(facts@)),
            Command::Fail(span, inner) => CommandModel::Fail(*span, Box::new((**inner).view())),
        }
    }
}

/// The models of the commands of a program.
pub open spec fn command_models(commands: Seq<Command>) -> Seq<CommandModel> {
    Seq::new(commands.len(), |i: int| commands[i]@)
}

pub broadcast proof fn lemma_expr_models_index(exprs: Seq<Expr>, i: int)
    requires
        0 <= i < exprs.len(),
    ensures
        #[trigger] expr_models(exprs)[i] == exprs[i]@,
{
}

pub broadcast proof fn lemma_expr_models_len(exprs: Seq<Expr>)
    ensures
        #[trigger] expr_models(exprs).len() == exprs.len(),
{
}

pub broadcast proof fn lemma_fact_models_index(facts: Seq<Fact>, i: int)
    requires
        0 <= i < facts.len(),
    ensures
        #[trigger] fact_models(facts)[i] == facts[i]@,
{
}

pub broadcast proof fn lemma_fact_models_len(facts: Seq<Fact>)
    ensures
        #[trigger] fact_models(facts).len() == facts.len(),
{
}

pub broadcast proof fn lemma_branch_models_index(branches: Seq<Vec<Fact>>, i: int)
    requires
        0 <= i < branches.len(),
    ensures
        #[trigger] branch_models(branches)[i] == fact_models(branches[i]@),
{
}

pub broadcast proof fn lemma_branch_models_len(branches: Seq<Vec<Fact>>)
    ensures
        #[trigger] branch_models(branches).len() == branches.len(),
{
}

/// Lists of models are the element-wise models of lists.
pub broadcast group group_models {
    lemma_expr_models_index,
    lemma_expr_models_len,
    lemma_fact_models_index,
    lemma_fact_models_len,
    lemma_branch_models_index,
    lemma_branch_models_len,
}

impl Clone for Literal {
    fn clone(&self) -> (copy: Self)
        ensures
            copy@ == self@,
    {
        match self {
            Literal::Int(i) => Literal::Int(*i),
            Literal::Float(b) => Literal::Float(*b),
            Literal::String(s) => Literal::String(s.clone()),
            Literal::Bool(b) => Literal::Bool(*b),
            Literal::Unit => Literal::Unit,
        }
    }
}

impl Clone for Expr {
    fn clone(&self) -> (copy: Self)
        ensures
            copy@ == self@,
        decreases self,
    {
        match self {
            Expr::Lit(span, l) => Expr::Lit(*span, l.clone()),
            Expr::Var(span, v) => Expr::Var(*span, v.clone()),
            Expr::Call(span, f, args) => Expr::Call(*span, f.clone(), clone_exprs(args)),
        }
    }
}

fn clone_exprs(exprs: &Vec<Expr>) -> (copy: Vec<Expr>)
    ensures
        expr_models(copy@) == expr_models(exprs@),
    decreases exprs,
{
    broadcast use group_models;

    let mut copy: Vec<Expr> = Vec::new();
    let mut i: usize = 0;
    while i < exprs.len()
        invariant
            i <= exprs.len(),
            copy.len() == i,
            forall|j: int| 0 <= j < i ==> #[trigger] copy[j]@ == exprs[j]@,
        decreases exprs.len() - i,
    {
        copy.push(exprs[i].clone());
        i = i + 1;
    }
    assert(expr_models(copy@) =~= expr_models(exprs@));
    copy
}

impl Clone for Fact {
    fn clone(&self) -> (copy: Self)
        ensures
            copy@ == self@,
        decreases self,
    {
        match self {
            Fact::Eq(span, e1, e2) => Fact::Eq(*span, e1.clone(), e2.clone()),
            Fact::Fact(e) => Fact::Fact(e.clone()),
            Fact::Or(span, branches) => Fact::Or(*span, clone_branches(branches)),
        }
    }
}

/// Copies a conjunction.
pub fn clone_facts(facts: &Vec<Fact>) -> (copy: Vec<Fact>)
    ensures
        fact_models(copy@) == fact_models(facts@),
    decreases facts,
{
    broadcast use group_models;

    let mut copy: Vec<Fact> = Vec::new();
    let mut i: usize = 0;
    while i < facts.len()
        invariant
            i <= facts.len(),
            copy.len() == i,
            forall|j: int| 0 <= j < i ==> #[trigger] copy[j]@ == facts[j]@,
        decreases facts.len() - i,
    {
        copy.push(facts[i].clone());
        i = i + 1;
    }
    assert(fact_models(copy@) =~= fact_models(facts@));
    copy
}

fn clone_branches(branches: &Vec<Vec<Fact>>) -> (copy: Vec<Vec<Fact>>)
    ensures
        branch_models(copy@) == branch_models(branches@),
    decreases branches,
{
    broadcast use group_models;

    let mut copy: Vec<Vec<Fact>> = Vec::new();
    let mut i: usize = 0;
    while i < branches.len()
        invariant
            i <= branches.len(),
            copy.len() == i,
            forall|j: int|
                0 <= j < i ==> fact_models(#[trigger] copy[j]@) == fact_models(branches[j]@),
        decreases branches.len() - i,
    {
        copy.push(clone_facts(&branches[i]));
        i = i + 1;
    }
    assert(branch_models(copy@) =~= branch_models(branches@));
    copy
}

} // verus!
