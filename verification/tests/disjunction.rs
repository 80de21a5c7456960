//! Behavioral tests for disjunction (`or`) in rule bodies.
//!
//! A body `C and (D1 or ... or Dn)` matches when `C` holds and at least one branch `Di`
//! holds. Only the variables common to every branch (plus variables bound by the
//! surrounding conjunction) are visible outside the `or`. Branch-local variables that
//! escape their `or`, and empty branches, are type errors.
//!
//! Each test runs a program to a fixpoint and asserts on the resulting database via
//! `check` / `fail`. The programs are run by a small interpreter, which lowers every
//! command with the library and evaluates the plain rules that come back.

use std::collections::BTreeMap;

use disjunction::ast::{
    Action, Actions, Command, Expr, Fact, Literal, Rule, RuleEvalMode, Span,
};
use disjunction::commands::{check_or_placement, lower_disjunctions};
use disjunction::error::TypeError;
use disjunction::symbol_gen::SymbolGen;
use disjunction::typing::{ResolvedExpr, ResolvedFact, ResolvedVar, Sort, TypeInfo};

/// A parsed S-expression with its position.
#[derive(Clone, Debug)]
enum Sexp {
    Atom(String, Span),
    List(Vec<Sexp>, Span),
}

impl Sexp {
    fn span(&self) -> Span {
        match self {
            Sexp::Atom(_, span) => *span,
            Sexp::List(_, span) => *span,
        }
    }

    fn atom(&self) -> &str {
        match self {
            Sexp::Atom(text, _) => text,
            Sexp::List(_, _) => panic!("expected an atom"),
        }
    }

    fn list(&self) -> &Vec<Sexp> {
        match self {
            Sexp::List(items, _) => items,
            Sexp::Atom(text, _) => panic!("expected a list, found {text}"),
        }
    }
}

fn parse_sexps(chars: &[char], at: &mut usize) -> Vec<Sexp> {
    let mut out = Vec::new();
    while *at < chars.len() {
        let c = chars[*at];
        if c.is_whitespace() {
            *at += 1;
        } else if c == ';' {
            while *at < chars.len() && chars[*at] != '\n' {
                *at += 1;
            }
        } else if c == '(' {
            let start = *at;
            *at += 1;
            let items = parse_sexps(chars, at);
            assert!(*at < chars.len() && chars[*at] == ')', "unclosed list");
            *at += 1;
            out.push(Sexp::List(items, Span { start, end: *at }));
        } else if c == ')' {
            break;
        } else {
            let start = *at;
            let mut text = String::new();
            while *at < chars.len()
                && !chars[*at].is_whitespace()
                && chars[*at] != '('
                && chars[*at] != ')'
                && chars[*at] != ';'
            {
                text.push(chars[*at]);
                *at += 1;
            }
            out.push(Sexp::Atom(text, Span { start, end: *at }));
        }
    }
    out
}

fn parse_expr(sexp: &Sexp) -> Expr {
    match sexp {
        Sexp::Atom(text, span) => match text.parse::<i64>() {
            Ok(i) => Expr::Lit(*span, Literal::Int(i)),
            Err(_) => Expr::Var(*span, text.clone()),
        },
        Sexp::List(items, span) => Expr::Call(
            *span,
            items[0].atom().to_string(),
            items[1..].iter().map(parse_expr).collect(),
        ),
    }
}

/// A branch is a list of facts, or a fact that stands by itself.
fn parse_branch(sexp: &Sexp) -> Vec<Fact> {
    match sexp.list().first() {
        Some(Sexp::Atom(_, _)) => vec![parse_fact(sexp)],
        _ => sexp.list().iter().map(parse_fact).collect(),
    }
}

fn parse_fact(sexp: &Sexp) -> Fact {
    if let Sexp::List(items, span) = sexp {
        if let Some(Sexp::Atom(head, _)) = items.first() {
            if head == "or" || head == "OR" {
                return Fact::Or(*span, items[1..].iter().map(parse_branch).collect());
            }
            if head == "=" {
                return Fact::Eq(*span, parse_expr(&items[1]), parse_expr(&items[2]));
            }
        }
    }
    Fact::Fact(parse_expr(sexp))
}

fn parse_action(sexp: &Sexp) -> Action {
    let items = sexp.list();
    let span = sexp.span();
    match items[0].atom() {
        "set" => match parse_expr(&items[1]) {
            Expr::Call(_, f, args) => Action::Assign(span, f, args, parse_expr(&items[2])),
            _ => panic!("set of something that is no call"),
        },
        "union" => Action::Union(span, parse_expr(&items[1]), parse_expr(&items[2])),
        _ => Action::Expr(span, parse_expr(sexp)),
    }
}

#[derive(Clone, Copy, Debug, PartialEq, Eq, PartialOrd, Ord)]
enum Value {
    Unit,
    Int(i64),
    Id(usize),
}

#[derive(Clone, Debug, PartialEq)]
enum Kind {
    Relation,
    Constructor,
    /// A function whose rows keep the larger of two values.
    Max,
}

#[derive(Clone, Debug)]
struct Decl {
    inputs: Vec<String>,
    output: String,
    kind: Kind,
}

/// The declared functions, as a type environment.
#[derive(Clone, Debug, Default)]
struct Types {
    decls: BTreeMap<String, Decl>,
}

fn rejected(reason: String) -> TypeError {
    TypeError::Rejected(reason)
}

impl Types {
    /// Notes that an expression has a sort, if one is given, and returns the sort it is
    /// found to have.
    fn infer(
        &self,
        e: &Expr,
        expected: Option<String>,
        sorts: &mut BTreeMap<String, String>,
    ) -> Result<Option<String>, TypeError> {
        let found = match e {
            Expr::Lit(_, Literal::Int(_)) => Some("i64".to_string()),
            Expr::Lit(_, _) => None,
            Expr::Var(_, v) => {
                if let (None, Some(sort)) = (sorts.get(v), &expected) {
                    sorts.insert(v.clone(), sort.clone());
                }
                sorts.get(v).cloned()
            }
            Expr::Call(_, f, args) => {
                if f == "!=" {
                    let first = self.infer(&args[0], None, sorts)?;
                    let second = self.infer(&args[1], first, sorts)?;
                    self.infer(&args[0], second, sorts)?;
                    Some("Unit".to_string())
                } else {
                    let decl = match self.decls.get(f) {
                        Some(decl) => decl,
                        None => return Err(rejected(format!("unknown function {f}"))),
                    };
                    if decl.inputs.len() != args.len() {
                        return Err(rejected(format!("arity of {f}")));
                    }
                    for (arg, sort) in args.iter().zip(&decl.inputs) {
                        self.infer(arg, Some(sort.clone()), sorts)?;
                    }
                    Some(decl.output.clone())
                }
            }
        };
        match (&found, &expected) {
            (Some(a), Some(b)) if a != b => Err(rejected(format!("expected {b}, found {a}"))),
            _ => Ok(found),
        }
    }

    fn resolve(&self, e: &Expr, sorts: &BTreeMap<String, String>) -> Result<ResolvedExpr, TypeError> {
        Ok(match e {
            Expr::Lit(span, l) => ResolvedExpr::Lit(*span, l.clone()),
            Expr::Var(span, v) => match sorts.get(v) {
                Some(sort) => ResolvedExpr::Var(
                    *span,
                    ResolvedVar { name: v.clone(), sort: Sort { name: sort.clone() } },
                ),
                None => return Err(rejected(format!("no sort for {v}"))),
            },
            Expr::Call(span, f, args) => {
                let mut resolved = Vec::new();
                for arg in args {
                    resolved.push(self.resolve(arg, sorts)?);
                }
                ResolvedExpr::Call(*span, f.clone(), resolved)
            }
        })
    }
}

impl TypeInfo for Types {
    fn typecheck_facts(
        &self,
        symbol_gen: SymbolGen,
        facts: &Vec<Fact>,
    ) -> (Result<Vec<ResolvedFact>, TypeError>, SymbolGen) {
        (self.typecheck(facts), symbol_gen)
    }
}

impl Types {
    fn typecheck(&self, facts: &Vec<Fact>) -> Result<Vec<ResolvedFact>, TypeError> {
        let mut sorts = BTreeMap::new();
        // Sorts travel along equations, so a second pass may learn more than the first.
        for _ in 0..facts.len() + 1 {
            for fact in facts {
                match fact {
                    Fact::Eq(_, e1, e2) => {
                        let first = self.infer(e1, None, &mut sorts)?;
                        let second = self.infer(e2, first, &mut sorts)?;
                        self.infer(e1, second, &mut sorts)?;
                    }
                    Fact::Fact(e) => {
                        self.infer(e, None, &mut sorts)?;
                    }
                    Fact::Or(_, _) => panic!("a query holds plain facts only"),
                }
            }
        }
        let mut resolved = Vec::new();
        for fact in facts {
            resolved.push(match fact {
                Fact::Eq(span, e1, e2) => ResolvedFact::Eq(
                    *span,
                    self.resolve(e1, &sorts)?,
                    self.resolve(e2, &sorts)?,
                ),
                Fact::Fact(e) => ResolvedFact::Fact(self.resolve(e, &sorts)?),
                Fact::Or(_, _) => panic!("a query holds plain facts only"),
            });
        }
        Ok(resolved)
    }
}

type Bindings = BTreeMap<String, Value>;

/// An interpreter of plain rules.
struct EGraph {
    types: Types,
    symbol_gen: SymbolGen,
    rules: Vec<Rule>,
    rows: BTreeMap<String, BTreeMap<Vec<Value>, Value>>,
    parents: Vec<usize>,
}

impl EGraph {
    fn new() -> EGraph {
        EGraph {
            types: Types::default(),
            symbol_gen: SymbolGen::new("@".to_string()),
            rules: Vec::new(),
            rows: BTreeMap::new(),
            parents: Vec::new(),
        }
    }

    fn declare(&mut self, name: &str, inputs: Vec<String>, output: &str, kind: Kind) {
        let decl = Decl { inputs, output: output.to_string(), kind };
        assert!(self.types.decls.insert(name.to_string(), decl).is_none(), "{name} twice");
        self.rows.insert(name.to_string(), BTreeMap::new());
    }

    fn find(&self, value: Value) -> Value {
        match value {
            Value::Id(mut id) => {
                while self.parents[id] != id {
                    id = self.parents[id];
                }
                Value::Id(id)
            }
            other => other,
        }
    }

    fn union(&mut self, a: Value, b: Value) -> bool {
        match (self.find(a), self.find(b)) {
            (Value::Id(x), Value::Id(y)) if x != y => {
                self.parents[x.max(y)] = x.min(y);
                true
            }
            _ => false,
        }
    }

    /// Brings every row up to date with the unions made so far.
    fn rebuild(&mut self) {
        loop {
            let mut unions = Vec::new();
            let names: Vec<String> = self.rows.keys().cloned().collect();
            for name in names {
                let kind = self.types.decls[&name].kind.clone();
                let old = self.rows[&name].clone();
                let mut new: BTreeMap<Vec<Value>, Value> = BTreeMap::new();
                for (args, value) in old {
                    let args: Vec<Value> = args.into_iter().map(|v| self.find(v)).collect();
                    let value = self.find(value);
                    match (new.get(&args).copied(), &kind) {
                        (None, _) => {
                            new.insert(args, value);
                        }
                        (Some(known), Kind::Max) => {
                            new.insert(args, known.max(value));
                        }
                        (Some(known), _) => unions.push((known, value)),
                    }
                }
                self.rows.insert(name, new);
            }
            let mut changed = false;
            for (a, b) in unions {
                changed |= self.union(a, b);
            }
            if !changed {
                return;
            }
        }
    }

    /// The value of an expression, with the row it needs added where that is allowed.
    fn build(&mut self, e: &Expr, bindings: &Bindings) -> Value {
        match e {
            Expr::Lit(_, Literal::Int(i)) => Value::Int(*i),
            Expr::Lit(_, _) => panic!("unsupported literal"),
            Expr::Var(_, v) => match bindings.get(v) {
                Some(value) => self.find(*value),
                None => panic!("unbound variable {v}"),
            },
            Expr::Call(_, f, args) => {
                let args: Vec<Value> = args.iter().map(|a| self.build(a, bindings)).collect();
                if let Some(value) = self.rows[f].get(&args) {
                    return *value;
                }
                let value = match self.types.decls[f].kind {
                    Kind::Relation => Value::Unit,
                    Kind::Constructor => {
                        self.parents.push(self.parents.len());
                        Value::Id(self.parents.len() - 1)
                    }
                    Kind::Max => panic!("lookup of a missing row of {f}"),
                };
                self.rows.get_mut(f).unwrap().insert(args, value);
                value
            }
        }
    }

    fn perform(&mut self, action: &Action, bindings: &Bindings) {
        match action {
            Action::Expr(_, e) => {
                self.build(e, bindings);
            }
            Action::Assign(_, f, args, e) => {
                let args: Vec<Value> = args.iter().map(|a| self.build(a, bindings)).collect();
                let value = self.build(e, bindings);
                let rows = self.rows.get_mut(f).unwrap();
                let value = rows.get(&args).map_or(value, |known| value.max(*known));
                rows.insert(args, value);
            }
            Action::Union(_, e1, e2) => {
                let a = self.build(e1, bindings);
                let b = self.build(e2, bindings);
                self.union(a, b);
            }
            other => panic!("unsupported action {other:?}"),
        }
    }

    /// Every way to give an expression a value, and what it binds.
    fn lookup(&self, e: &Expr, bindings: &Bindings) -> Vec<(Bindings, Value)> {
        match e {
            Expr::Lit(_, Literal::Int(i)) => vec![(bindings.clone(), Value::Int(*i))],
            Expr::Lit(_, _) => panic!("unsupported literal"),
            Expr::Var(_, v) => match bindings.get(v) {
                Some(value) => vec![(bindings.clone(), *value)],
                None => panic!("ungrounded variable {v}"),
            },
            Expr::Call(_, f, args) if f == "!=" => {
                let a = self.lookup(&args[0], bindings);
                let b = self.lookup(&args[1], bindings);
                if a[0].1 != b[0].1 {
                    vec![(bindings.clone(), Value::Unit)]
                } else {
                    vec![]
                }
            }
            Expr::Call(_, f, args) => {
                let mut out = Vec::new();
                for (row, value) in &self.rows[f] {
                    let mut found = vec![bindings.clone()];
                    for (arg, value) in args.iter().zip(row) {
                        found = found.iter().flat_map(|b| self.unify(arg, *value, b)).collect();
                    }
                    out.extend(found.into_iter().map(|b| (b, *value)));
                }
                out
            }
        }
    }

    /// Every way to give an expression the given value.
    fn unify(&self, e: &Expr, value: Value, bindings: &Bindings) -> Vec<Bindings> {
        if let Expr::Var(_, v) = e {
            if !bindings.contains_key(v) {
                let mut extended = bindings.clone();
                extended.insert(v.clone(), value);
                return vec![extended];
            }
        }
        self.lookup(e, bindings)
            .into_iter()
            .filter(|(_, found)| *found == value)
            .map(|(b, _)| b)
            .collect()
    }

    fn is_bound(e: &Expr, bindings: &Bindings) -> bool {
        match e {
            Expr::Lit(_, _) => true,
            Expr::Var(_, v) => bindings.contains_key(v),
            Expr::Call(_, f, args) => {
                f != "!=" || args.iter().all(|a| EGraph::is_bound(a, bindings))
            }
        }
    }

    /// The matches of a conjunction of plain facts. Facts wait until their variables are
    /// grounded.
    fn matches(&self, facts: &[Fact], bindings: &Bindings) -> Vec<Bindings> {
        if facts.is_empty() {
            return vec![bindings.clone()];
        }
        let ready = facts.iter().position(|fact| match fact {
            Fact::Fact(e) => EGraph::is_bound(e, bindings),
            Fact::Eq(_, e1, e2) => {
                EGraph::is_bound(e1, bindings) || EGraph::is_bound(e2, bindings)
            }
            Fact::Or(_, _) => panic!("an `or` was left in a rule"),
        });
        let i = ready.expect("a fact is ungrounded");
        let mut rest: Vec<Fact> = facts.to_vec();
        let next = match rest.remove(i) {
            Fact::Fact(e) => self.lookup(&e, bindings).into_iter().map(|(b, _)| b).collect(),
            Fact::Eq(_, e1, e2) => {
                let (known, other) =
                    if EGraph::is_bound(&e1, bindings) { (e1, e2) } else { (e2, e1) };
                let mut out: Vec<Bindings> = Vec::new();
                for (b, value) in self.lookup(&known, bindings) {
                    out.extend(self.unify(&other, value, &b));
                }
                out
            }
            Fact::Or(_, _) => unreachable!(),
        };
        next.iter().flat_map(|b| self.matches(&rest, b)).collect()
    }

    fn run_rules(&mut self, ruleset: &str, times: usize) {
        for _ in 0..times {
            let mut work: Vec<(usize, Bindings)> = Vec::new();
            for (i, rule) in self.rules.iter().enumerate() {
                if rule.ruleset == ruleset {
                    for bindings in self.matches(&rule.body, &Bindings::new()) {
                        work.push((i, bindings));
                    }
                }
            }
            for (i, bindings) in work {
                let actions = std::mem::take(&mut self.rules[i].head.0);
                for action in &actions {
                    self.perform(action, &bindings);
                }
                self.rules[i].head.0 = actions;
            }
            self.rebuild();
        }
    }

    fn run_plain(&mut self, command: Command) -> Result<(), String> {
        match command {
            Command::Relation { name, inputs, .. } => {
                self.declare(&name, inputs, "Unit", Kind::Relation);
                Ok(())
            }
            Command::Rule { rule } => {
                self.types.typecheck(&rule.body).map_err(|e| e.message())?;
                self.rules.push(rule);
                Ok(())
            }
            Command::Action(action) => {
                self.perform(&action, &Bindings::new());
                self.rebuild();
                Ok(())
            }
            Command::Check(_, facts) => {
                self.types.typecheck(&facts).map_err(|e| e.message())?;
                if self.matches(&facts, &Bindings::new()).is_empty() {
                    Err("check failed".to_string())
                } else {
                    Ok(())
                }
            }
            Command::Fail(_, inner) => match self.run_plain(*inner) {
                Ok(()) => Err("expected a failure".to_string()),
                Err(_) => Ok(()),
            },
            Command::Ruleset(_, _) => Ok(()),
            Command::Query(_, _) => Ok(()),
        }
    }

    fn run_command(&mut self, command: Command) -> Result<(), String> {
        check_or_placement(&command).map_err(|e| e.message())?;
        let lowered = lower_disjunctions(&self.types, &mut self.symbol_gen, command)
            .map_err(|e| e.message())?;
        for command in lowered {
            self.run_plain(command)?;
        }
        Ok(())
    }

    fn command(&self, sexp: &Sexp) -> Command {
        let items = sexp.list();
        let span = sexp.span();
        match items[0].atom() {
            "check" => Command::Check(span, items[1..].iter().map(parse_fact).collect()),
            "fail" => Command::Fail(span, Box::new(self.command(&items[1]))),
            "ruleset" => Command::Ruleset(span, items[1].atom().to_string()),
            "rule" => {
                let mut rule = Rule {
                    span,
                    head: Actions(items[2].list().iter().map(parse_action).collect()),
                    body: items[1].list().iter().map(parse_fact).collect(),
                    name: String::new(),
                    ruleset: String::new(),
                    eval_mode: RuleEvalMode::default(),
                    no_decomp: false,
                    include_subsumed: false,
                };
                let mut i = 3;
                while i < items.len() {
                    match items[i].atom() {
                        ":ruleset" => {
                            rule.ruleset = items[i + 1].atom().to_string();
                            i += 1;
                        }
                        ":unsafe-seminaive" => rule.eval_mode = RuleEvalMode::UnsafeSeminaive,
                        ":naive" => rule.eval_mode = RuleEvalMode::Naive,
                        other => panic!("unknown option {other}"),
                    }
                    i += 1;
                }
                Command::Rule { rule }
            }
            "rewrite" => {
                let root = Expr::Var(span, "rewrite_var__".to_string());
                let mut body = vec![Fact::Eq(span, root.clone(), parse_expr(&items[1]))];
                if items.len() > 3 {
                    assert_eq!(items[3].atom(), ":when");
                    body.extend(items[4].list().iter().map(parse_fact));
                }
                Command::Rule {
                    rule: Rule {
                        span,
                        head: Actions(vec![Action::Union(span, root, parse_expr(&items[2]))]),
                        body,
                        name: String::new(),
                        ruleset: String::new(),
                        eval_mode: RuleEvalMode::default(),
                        no_decomp: false,
                        include_subsumed: false,
                    },
                }
            }
            _ => Command::Action(parse_action(sexp)),
        }
    }

    fn sorts(sexp: &Sexp) -> Vec<String> {
        sexp.list().iter().map(|s| s.atom().to_string()).collect()
    }

    fn run_program(&mut self, program: &str) -> Result<(), String> {
        let chars: Vec<char> = program.chars().collect();
        let mut at = 0;
        for sexp in parse_sexps(&chars, &mut at) {
            let items = sexp.list();
            match items[0].atom() {
                "relation" => {
                    self.declare(items[1].atom(), EGraph::sorts(&items[2]), "Unit", Kind::Relation);
                }
                "function" => {
                    assert_eq!(items[4].atom(), ":merge");
                    assert_eq!(items[5].list()[0].atom(), "max");
                    let output = items[3].atom().to_string();
                    self.declare(items[1].atom(), EGraph::sorts(&items[2]), &output, Kind::Max);
                }
                "datatype" => {
                    let sort = items[1].atom().to_string();
                    for variant in &items[2..] {
                        let parts = variant.list();
                        let inputs = parts[1..].iter().map(|s| s.atom().to_string()).collect();
                        self.declare(parts[0].atom(), inputs, &sort, Kind::Constructor);
                    }
                }
                "run" => {
                    let (ruleset, times) = if items.len() > 2 {
                        (items[1].atom(), items[2].atom())
                    } else {
                        ("", items[1].atom())
                    };
                    self.run_rules(ruleset, times.parse().unwrap());
                }
                _ => {
                    let command = self.command(&sexp);
                    self.run_command(command)?;
                }
            }
        }
        Ok(())
    }
}

/// Runs a program, returning any error.
fn run(program: &str) -> Result<(), String> {
    EGraph::new().run_program(program)
}

/// A two-branch `or` over relations behaves as set union.
#[test]
fn or_basic_union() -> Result<(), String> {
    run("
(relation A (i64))
(relation B (i64))
(relation R (i64))
(A 1) (A 2)
(B 2) (B 3)
(rule ((or ((A x)) ((B x)))) ((R x)))
(run 5)
(check (R 1))
(check (R 2))
(check (R 3))
(fail (check (R 4)))
")
}

/// An `or` conjoined with a surrounding fact `C` matches only when `C` holds and
/// at least one branch holds.
#[test]
fn or_with_conjunction() -> Result<(), String> {
    run("
(relation C (i64))
(relation A (i64))
(relation B (i64))
(relation R (i64))
(C 1) (C 2) (C 3)
(A 1) (A 2)
(B 2) (B 3)
(rule ((C x) (or ((A x)) ((B x)))) ((R x)))
(run 5)
(check (R 1))
(check (R 2))
(check (R 3))
(fail (check (R 4)))
")
}

/// A `C` value that satisfies neither branch does not fire.
#[test]
fn or_conjunction_requires_a_branch() -> Result<(), String> {
    run("
(relation C (i64))
(relation A (i64))
(relation R (i64))
(C 5)
(rule ((C x) (or ((A x)) ((A x)))) ((R x)))
(run 5)
(fail (check (R 5)))
")
}

/// A variable common to every branch may be used in the action; a branch-local
/// variable (`y`) stays inside its branch.
#[test]
fn or_common_variable() -> Result<(), String> {
    run("
(relation P (i64 i64))
(relation Q (i64 i64))
(relation Out (i64))
(P 1 10)
(Q 1 20)
(P 2 30)
(rule ((or ((P x y)) ((Q x y)))) ((Out x)))
(run 5)
(check (Out 1))
(check (Out 2))
(fail (check (Out 3)))
")
}

/// Three-branch `or`.
#[test]
fn or_three_branches() -> Result<(), String> {
    run("
(relation A (i64))
(relation B (i64))
(relation C (i64))
(relation R (i64))
(A 1) (B 2) (C 3)
(rule ((or ((A x)) ((B x)) ((C x)))) ((R x)))
(run 5)
(check (R 1))
(check (R 2))
(check (R 3))
(fail (check (R 4)))
")
}

/// A branch may itself be a conjunction of several facts.
#[test]
fn or_branch_is_a_conjunction() -> Result<(), String> {
    run("
(relation A (i64))
(relation B (i64))
(relation C (i64))
(relation R (i64))
(A 1) (B 1)
(A 2)
(C 3)
(rule ((or ((A x) (B x)) ((C x)))) ((R x)))
(run 5)
(check (R 1))
(fail (check (R 2)))
(check (R 3))
")
}

/// Two `or`s in one body distribute as a cartesian product of branch choices.
#[test]
fn or_two_disjunctions() -> Result<(), String> {
    run("
(relation A (i64))
(relation B (i64))
(relation C (i64))
(relation D (i64))
(relation R (i64))
(A 1) (C 1)
(B 2) (D 2)
(A 3) (D 3)
(rule ((or ((A x)) ((B x))) (or ((C x)) ((D x)))) ((R x)))
(run 5)
(check (R 1))
(check (R 2))
(check (R 3))
(fail (check (R 4)))
")
}

/// A branch may join several atoms internally on a branch-local variable, with
/// only the common variable escaping.
#[test]
fn or_branch_internal_join() -> Result<(), String> {
    run("
(relation A (i64 i64))
(relation B (i64 i64))
(relation C (i64 i64))
(relation Res (i64))
(A 1 9) (B 9 1)
(C 2 2)
(rule ((or ((A x t) (B t x)) ((C x x)))) ((Res x)))
(run 3)
(check (Res 1))
(check (Res 2))
(fail (check (Res 9)))
")
}

/// An `or` nested inside a branch of another `or` flattens correctly.
#[test]
fn or_nested() -> Result<(), String> {
    run("
(relation A (i64))
(relation B (i64))
(relation C (i64))
(relation R (i64))
(A 1) (B 2) (C 3)
(rule ((or ((A x)) ((or ((B x)) ((C x)))))) ((R x)))
(run 5)
(check (R 1))
(check (R 2))
(check (R 3))
(fail (check (R 4)))
")
}

/// `or` works with an equality (`union`) action over an eq-sort.
#[test]
fn or_with_union_action() -> Result<(), String> {
    run("
(datatype Math (Num i64))
(relation A (Math))
(relation B (Math))
(A (Num 1))
(B (Num 2))
(rule ((or ((A x)) ((B x)))) ((union x (Num 0))))
(run 5)
(check (= (Num 0) (Num 1)))
(check (= (Num 0) (Num 2)))
")
}

/// A branch-local variable used outside its `or` is a type error.
#[test]
fn or_branch_local_escapes_errors() {
    let err = run("
(relation P (i64 i64))
(relation Q (i64 i64))
(relation Out (i64))
(rule ((or ((P x y)) ((Q x z)))) ((Out y)))
")
    .unwrap_err();
    assert!(
        err.contains("local to one branch") && err.contains('y'),
        "unexpected error: {err}"
    );
}

/// An empty `or` branch is a type error.
#[test]
fn or_empty_branch_errors() {
    let err = run("
(relation A (i64))
(relation R (i64))
(rule ((or ((A x)) ())) ((R x)))
")
    .unwrap_err();
    assert!(err.contains("empty"), "unexpected error: {err}");
}

/// `or` is rejected in query-shaped commands like `check`.
#[test]
fn or_outside_rule_errors() {
    let err = run("
(relation A (i64))
(relation B (i64))
(A 1)
(check (or ((A 1)) ((B 1))))
")
    .unwrap_err();
    assert!(
        err.contains("only supported inside rule bodies"),
        "unexpected error: {err}"
    );
}

/// `or` works in a `rewrite`'s `:when` condition (which desugars to a rule).
#[test]
fn or_in_rewrite_condition() -> Result<(), String> {
    run("
(datatype Math (Num i64) (Add Math Math))
(relation Good (Math))
(relation Alt (Math))
(Good (Num 1))
(rewrite (Add x y) (Add y x) :when ((or ((Good x)) ((Alt x)))))
(Add (Num 1) (Num 2))
(run 3)
(check (= (Add (Num 1) (Num 2)) (Add (Num 2) (Num 1))))
")
}

/// A *correlated* `or` whose branches each equate an outer column with a
/// variable bound elsewhere in the surrounding conjunction — the e-graph
/// rebuild pattern. Every branch references the outer-bound `a`/`b`/`c` (from
/// `v`) and `d` (from the seminaive delta atom `u`); a `(!= d e)` primitive
/// sits in the conjunction beside the `or`. The action reads another table
/// (`f`) by function lookup. Under `:unsafe-seminaive` this must fire exactly
/// for `v`-rows that mention a `u`-key in some column (with `d != e`).
#[test]
fn or_correlated_seminaive_rebuild() -> Result<(), String> {
    run("
(relation v (i64 i64 i64))
(relation u (i64 i64))
(function f (i64) i64 :merge (max old new))
(relation hit (i64 i64 i64))

(set (f 1) 10) (set (f 2) 20) (set (f 3) 30)
(set (f 4) 40) (set (f 5) 50) (set (f 6) 60)
(set (f 7) 70) (set (f 9) 90)

(v 1 2 3)
(v 4 5 6)
(v 7 7 9)

(u 2 8)   ; d=2, e=8: hits (v 1 2 3) via column b
(u 9 8)   ; d=9, e=8: hits (v 7 7 9) via column c
(u 5 5)   ; d=e=5: filtered out by (!= d e), so (v 4 5 6) is not hit

(ruleset rr)
(rule ((v a b c) (u d e) (!= d e) (OR (= a d) (= b d) (= c d)))
      ((hit (f a) (f b) (f c)))
      :ruleset rr :unsafe-seminaive)
(run rr 10)

(check (hit 10 20 30))
(check (hit 70 70 90))
(fail (check (hit 40 50 60)))
")
}

/// The same correlated pattern in plain (naive) mode also compiles by splitting
/// and produces the correct fixpoint.
#[test]
fn or_correlated_naive() -> Result<(), String> {
    run("
(relation v (i64 i64 i64))
(relation u (i64 i64))
(relation hit (i64 i64 i64))
(v 1 2 3)
(v 4 5 6)
(u 2 8)
(rule ((v a b c) (u d e) (OR (= a d) (= b d) (= c d)))
      ((hit a b c)))
(run 5)
(check (hit 1 2 3))
(fail (check (hit 4 5 6)))
")
}

/// The rows of a relation after a program has been run.
fn rows_of(program: &str, relation: &str) -> Vec<Vec<Value>> {
    let mut egraph = EGraph::new();
    egraph.run_program(program).unwrap();
    egraph.rows[relation].keys().cloned().collect()
}

const EDGES: &str = "
(relation E (i64 i64))
(relation F (i64 i64))
(relation G (i64))
(relation R (i64 i64))
(E 1 2) (E 2 3) (E 3 1) (E 4 4)
(F 2 1) (F 3 3) (F 4 2)
(G 1) (G 3)
";

/// A rule with disjunctions derives what the rules derive that choose one branch of each.
#[test]
fn or_derives_what_split_rules_derive() {
    let with_or = "
(rule ((E x y)
       (or ((F y x)) ((G x) (F y z)) ((= x y)))
       (or ((G y)) ((E y x))))
      ((R x y)))
(run 5)
";
    let split = "
(rule ((E x y) (F y x) (G y)) ((R x y)))
(rule ((E x y) (F y x) (E y x)) ((R x y)))
(rule ((E x y) (G x) (F y z) (G y)) ((R x y)))
(rule ((E x y) (G x) (F y z) (E y x)) ((R x y)))
(rule ((E x y) (= x y) (G y)) ((R x y)))
(rule ((E x y) (= x y) (E y x)) ((R x y)))
(run 5)
";
    let expected = rows_of(&format!("{EDGES}{split}"), "R");
    assert!(!expected.is_empty());
    assert_eq!(rows_of(&format!("{EDGES}{with_or}"), "R"), expected);
}

/// The same of a nested disjunction that joins on a variable of its enclosing branch.
#[test]
fn nested_or_derives_what_split_rules_derive() {
    let with_or = "
(rule ((or ((E x y) (or ((F y t)) ((G y) (= t x))) (E t x))
           ((F x y) (E y t))))
      ((R x y)))
(run 5)
";
    let split = "
(rule ((E x y) (F y t) (E t x)) ((R x y)))
(rule ((E x y) (G y) (= t x) (E t x)) ((R x y)))
(rule ((F x y) (E y t)) ((R x y)))
(run 5)
";
    let expected = rows_of(&format!("{EDGES}{split}"), "R");
    assert!(!expected.is_empty());
    assert_eq!(rows_of(&format!("{EDGES}{with_or}"), "R"), expected);
}

/// Every branch may be an equation of variables that the surrounding facts bind.
#[test]
fn or_of_equations_is_grounded_by_the_surrounding_facts() {
    let program = "
(rule ((E x y) (F a b) (or ((= x a)) ((= x b) (= y a))) (!= x y)) ((R x y)))
(run 5)
";
    assert_eq!(
        rows_of(&format!("{EDGES}{program}"), "R"),
        vec![
            vec![Value::Int(1), Value::Int(2)],
            vec![Value::Int(2), Value::Int(3)],
            vec![Value::Int(3), Value::Int(1)],
        ]
    );
}

/// Branch-local variables of different sorts may share a name.
#[test]
fn or_locals_of_different_sorts_share_a_name() -> Result<(), String> {
    run("
(datatype Math (Num i64))
(relation A (i64 Math))
(relation B (i64 i64))
(relation C (i64))
(relation R (i64))
(A 1 (Num 7))
(B 2 9)
(C 3)
(rule ((or ((A x y)) ((B x y) (B x y)) ((C x)))) ((R x)))
(run 5)
(check (R 1))
(check (R 2))
(check (R 3))
(fail (check (R 7)))
")
}

/// The relations of a rule that a program is not run for stay empty.
#[test]
fn or_needs_a_run() -> Result<(), String> {
    run("
(relation A (i64))
(relation R (i64))
(A 1)
(rule ((or ((A x)) ((R x)))) ((R x)))
(fail (check (R 1)))
(run 1)
(fail (check (R 1)))
(run 1)
(check (R 1))
")
}

/// Each level of nesting takes one more round.
#[test]
fn nested_or_needs_another_round() -> Result<(), String> {
    run("
(relation A (i64))
(relation B (i64))
(relation R (i64))
(B 1)
(rule ((or ((A x)) ((or ((B x)) ((A x)))))) ((R x)))
(run 1)
(fail (check (R 1)))
(run 1)
(fail (check (R 1)))
(run 1)
(check (R 1))
")
}
