//! The commands that rules are lowered to, and the errors that rules are rejected with.

use disjunction::ast::{
    Action, Actions, Change, Command, Expr, Fact, Literal, Rule, RuleEvalMode, Span,
};
use disjunction::commands::{
    body_has_or, check_or_placement, lower_disjunctions, lower_rule, lower_typed_rule,
};
use disjunction::error::{Error, TypeError};
use disjunction::symbol_gen::SymbolGen;
use disjunction::typing::{ResolvedExpr, ResolvedFact, ResolvedVar, Sort, TypeInfo};

const RULE: Span = Span { start: 1, end: 2 };
const OR: Span = Span { start: 3, end: 4 };
const INNER: Span = Span { start: 5, end: 6 };
const AT: Span = Span { start: 7, end: 8 };

fn var(name: &str) -> Expr {
    Expr::Var(AT, name.to_string())
}

fn call(f: &str, args: &[&str]) -> Expr {
    Expr::Call(AT, f.to_string(), args.iter().map(|a| var(a)).collect())
}

fn fact(f: &str, args: &[&str]) -> Fact {
    Fact::Fact(call(f, args))
}

fn equal(a: &str, b: &str) -> Fact {
    Fact::Eq(AT, var(a), var(b))
}

/// The atom of a generated relation, which has the span of its disjunction.
fn atom(span: Span, relation: &str, key: &[&str]) -> Expr {
    Expr::Call(
        span,
        relation.to_string(),
        key.iter().map(|k| Expr::Var(span, k.to_string())).collect(),
    )
}

fn rule(body: Vec<Fact>, head: Vec<Action>) -> Rule {
    Rule {
        span: RULE,
        head: Actions(head),
        body,
        name: "main".to_string(),
        ruleset: "rr".to_string(),
        eval_mode: RuleEvalMode::UnsafeSeminaive,
        no_decomp: true,
        include_subsumed: true,
    }
}

fn emit(f: &str, args: &[&str]) -> Vec<Action> {
    vec![Action::Expr(AT, call(f, args))]
}

fn relation(span: Span, name: &str, inputs: &[&str]) -> Command {
    Command::Relation {
        span,
        name: name.to_string(),
        inputs: inputs.iter().map(|s| s.to_string()).collect(),
    }
}

fn branch_rule(span: Span, relation: &str, key: &[&str], body: Vec<Fact>, name: &str) -> Command {
    Command::Rule {
        rule: Rule {
            span,
            head: Actions(vec![Action::Expr(span, atom(span, relation, key))]),
            body,
            name: name.to_string(),
            ruleset: "rr".to_string(),
            eval_mode: RuleEvalMode::Seminaive,
            no_decomp: false,
            include_subsumed: false,
        },
    }
}

/// An environment that gives every variable a sort: the last letter of the first function
/// that it is an argument of, or `i64` where it is an argument of none.
struct LastLetter;

fn last_letter(f: &str) -> String {
    f.chars().last().unwrap().to_string()
}

fn find_sort(v: &str, facts: &[Fact]) -> String {
    for f in facts {
        if let Fact::Fact(Expr::Call(_, name, args)) = f {
            for arg in args {
                if matches!(arg, Expr::Var(_, w) if w == v) {
                    return last_letter(name);
                }
            }
        }
    }
    "i64".to_string()
}

fn resolve(e: &Expr, facts: &[Fact]) -> ResolvedExpr {
    match e {
        Expr::Lit(span, l) => ResolvedExpr::Lit(*span, l.clone()),
        Expr::Var(span, v) => ResolvedExpr::Var(
            *span,
            ResolvedVar { name: v.clone(), sort: Sort { name: find_sort(v, facts) } },
        ),
        Expr::Call(span, f, args) => ResolvedExpr::Call(
            *span,
            f.clone(),
            args.iter().map(|a| resolve(a, facts)).collect(),
        ),
    }
}

fn resolve_all(facts: &Vec<Fact>) -> Vec<ResolvedFact> {
    facts
        .iter()
        .map(|f| match f {
            Fact::Eq(span, e1, e2) => {
                ResolvedFact::Eq(*span, resolve(e1, facts), resolve(e2, facts))
            }
            Fact::Fact(e) => ResolvedFact::Fact(resolve(e, facts)),
            Fact::Or(_, _) => panic!("a query holds plain facts only"),
        })
        .collect()
}

impl TypeInfo for LastLetter {
    fn typecheck_facts(
        &self,
        symbol_gen: SymbolGen,
        facts: &Vec<Fact>,
    ) -> (Result<Vec<ResolvedFact>, TypeError>, SymbolGen) {
        (Ok(resolve_all(facts)), symbol_gen)
    }
}

/// An environment that resolves nothing.
struct Silent;

impl TypeInfo for Silent {
    fn typecheck_facts(
        &self,
        symbol_gen: SymbolGen,
        _facts: &Vec<Fact>,
    ) -> (Result<Vec<ResolvedFact>, TypeError>, SymbolGen) {
        (Ok(vec![]), symbol_gen)
    }
}

/// An environment that rejects everything.
struct Strict;

impl TypeInfo for Strict {
    fn typecheck_facts(
        &self,
        symbol_gen: SymbolGen,
        _facts: &Vec<Fact>,
    ) -> (Result<Vec<ResolvedFact>, TypeError>, SymbolGen) {
        (Err(TypeError::Rejected("no such relation".to_string())), symbol_gen)
    }
}

fn lower(body: Vec<Fact>, head: Vec<Action>) -> Result<Vec<Command>, Error> {
    let mut symbol_gen = SymbolGen::new("@".to_string());
    lower_rule(&LastLetter, &mut symbol_gen, rule(body, head))
}

fn main_rule(body: Vec<Fact>, head: Vec<Action>) -> Command {
    Command::Rule { rule: rule(body, head) }
}

#[test]
fn two_branches_become_a_relation_and_two_rules() {
    let body = vec![Fact::Or(OR, vec![vec![fact("A", &["x"])], vec![fact("B", &["x"])]])];
    assert_eq!(
        lower(body, emit("R", &["x"])),
        Ok(vec![
            relation(OR, "@0_or_union", &["A"]),
            branch_rule(OR, "@0_or_union", &["x"], vec![fact("A", &["x"])], "@1_or_branch"),
            branch_rule(OR, "@0_or_union", &["x"], vec![fact("B", &["x"])], "@2_or_branch"),
            main_rule(
                vec![Fact::Fact(atom(OR, "@0_or_union", &["x"]))],
                emit("R", &["x"])
            ),
        ])
    );
}

#[test]
fn surrounding_facts_stay_in_the_rule() {
    let body = vec![
        fact("C", &["x"]),
        Fact::Or(OR, vec![vec![fact("A", &["x"])], vec![fact("B", &["x"])]]),
        fact("D", &["x"]),
    ];
    assert_eq!(
        lower(body, emit("R", &["x"])),
        Ok(vec![
            relation(OR, "@0_or_union", &["C"]),
            branch_rule(OR, "@0_or_union", &["x"], vec![fact("A", &["x"])], "@1_or_branch"),
            branch_rule(OR, "@0_or_union", &["x"], vec![fact("B", &["x"])], "@2_or_branch"),
            main_rule(
                vec![
                    fact("C", &["x"]),
                    Fact::Fact(atom(OR, "@0_or_union", &["x"])),
                    fact("D", &["x"]),
                ],
                emit("R", &["x"])
            ),
        ])
    );
}

/// The key holds each common variable once, in the order of the first branch, and leaves
/// out what only some branches mention.
#[test]
fn key_is_ordered_by_first_mention() {
    let body = vec![Fact::Or(
        OR,
        vec![
            vec![fact("A", &["z", "t", "x", "z"]), fact("A", &["y"])],
            vec![fact("B", &["x", "y", "u", "z"])],
        ],
    )];
    let lowered = lower(body, emit("R", &["x"])).unwrap();
    assert_eq!(lowered[0], relation(OR, "@2_or_union", &["A", "A", "A"]));
    assert_eq!(
        lowered[3],
        main_rule(
            vec![Fact::Fact(atom(OR, "@2_or_union", &["z", "x", "y"]))],
            emit("R", &["x"])
        )
    );
}

/// A disjunction without common variables is a relation without columns.
#[test]
fn key_can_be_empty() {
    let body = vec![
        fact("C", &["x"]),
        Fact::Or(OR, vec![vec![fact("A", &["s"])], vec![fact("B", &["t"])]]),
    ];
    let lowered = lower(body, emit("R", &["x"])).unwrap();
    assert_eq!(lowered[0], relation(OR, "@2_or_union", &[]));
    assert_eq!(
        lowered[3],
        main_rule(
            vec![fact("C", &["x"]), Fact::Fact(atom(OR, "@2_or_union", &[]))],
            emit("R", &["x"])
        )
    );
}

/// A branch that mentions only some of the surrounding variables is evaluated together
/// with the facts that bind the others.
#[test]
fn correlated_branches_carry_the_surrounding_facts() {
    let body = vec![
        fact("V", &["a", "b"]),
        Fact::Or(OR, vec![vec![equal("a", "d")], vec![equal("b", "d")]]),
        fact("U", &["d"]),
    ];
    let context = |branch: Fact| vec![fact("V", &["a", "b"]), fact("U", &["d"]), branch];
    let key = ["a", "d", "b"];
    assert_eq!(
        lower(body, emit("R", &["a", "b"])),
        Ok(vec![
            relation(OR, "@0_or_union", &["V", "U", "V"]),
            branch_rule(OR, "@0_or_union", &key, context(equal("a", "d")), "@1_or_branch"),
            branch_rule(OR, "@0_or_union", &key, context(equal("b", "d")), "@2_or_branch"),
            main_rule(
                vec![
                    fact("V", &["a", "b"]),
                    Fact::Fact(atom(OR, "@0_or_union", &key)),
                    fact("U", &["d"]),
                ],
                emit("R", &["a", "b"])
            ),
        ])
    );
}

/// An equation of two surrounding variables gives neither of them a value.
#[test]
fn equations_carry_the_surrounding_facts() {
    let body = vec![
        fact("V", &["a"]),
        fact("U", &["d"]),
        Fact::Or(
            OR,
            vec![vec![equal("a", "d")], vec![fact("A", &["a"]), equal("a", "d")]],
        ),
    ];
    let lowered = lower(body, emit("R", &["a"])).unwrap();
    let key = ["a", "d"];
    assert_eq!(
        lowered[1],
        branch_rule(
            OR,
            "@0_or_union",
            &key,
            vec![fact("V", &["a"]), fact("U", &["d"]), equal("a", "d")],
            "@1_or_branch"
        )
    );
    assert_eq!(
        lowered[2],
        branch_rule(
            OR,
            "@0_or_union",
            &key,
            vec![fact("A", &["a"]), equal("a", "d")],
            "@2_or_branch"
        )
    );
}

/// The relation of a nested disjunction is declared before the rule that reads it, and
/// the surrounding facts of a nested branch include those of its enclosing branch.
#[test]
fn nested_disjunctions_are_lowered_first() {
    let inner = Fact::Or(INNER, vec![vec![fact("B", &["y"])], vec![fact("C", &["y"])]]);
    let body = vec![Fact::Or(
        OR,
        vec![vec![fact("A", &["x", "y"]), inner], vec![fact("D", &["x"])]],
    )];
    assert_eq!(
        lower(body, emit("R", &["x"])),
        Ok(vec![
            relation(INNER, "@1_or_union", &["A"]),
            branch_rule(INNER, "@1_or_union", &["y"], vec![fact("B", &["y"])], "@2_or_branch"),
            branch_rule(INNER, "@1_or_union", &["y"], vec![fact("C", &["y"])], "@3_or_branch"),
            relation(OR, "@4_or_union", &["A"]),
            branch_rule(
                OR,
                "@4_or_union",
                &["x"],
                vec![fact("A", &["x", "y"]), Fact::Fact(atom(INNER, "@1_or_union", &["y"]))],
                "@5_or_branch"
            ),
            branch_rule(OR, "@4_or_union", &["x"], vec![fact("D", &["x"])], "@6_or_branch"),
            main_rule(
                vec![Fact::Fact(atom(OR, "@4_or_union", &["x"]))],
                emit("R", &["x"])
            ),
        ])
    );
}

/// Variables that are local to different branches have sorts of their own, even where
/// they share a name.
#[test]
fn locals_of_different_branches_keep_their_sorts_apart() {
    let inner = |f: &str, g: &str| {
        Fact::Or(INNER, vec![vec![fact(f, &["y"])], vec![fact(g, &["y"])]])
    };
    let body = vec![Fact::Or(
        OR,
        vec![
            vec![fact("Pm", &["x"]), fact("An", &["y"]), inner("Bn", "Cn")],
            vec![fact("Qm", &["x"]), fact("Dk", &["y"]), inner("Ek", "Fk")],
            vec![fact("Rm", &["x"])],
        ],
    )];
    let lowered = lower(body, emit("R", &["x"])).unwrap();
    assert_eq!(lowered[0], relation(INNER, "@2_or_union", &["n"]));
    assert_eq!(lowered[3], relation(INNER, "@5_or_union", &["k"]));
    assert_eq!(lowered[6], relation(OR, "@8_or_union", &["m"]));
}

/// Lowering adds one relation for each disjunction and one rule for each branch.
#[test]
fn two_disjunctions_do_not_multiply() {
    let or = |span: Span, f: &str, g: &str, h: &str| {
        Fact::Or(
            span,
            vec![vec![fact(f, &["x"])], vec![fact(g, &["x"])], vec![fact(h, &["x"])]],
        )
    };
    let body = vec![or(OR, "A", "B", "C"), or(INNER, "D", "E", "F")];
    let lowered = lower(body, emit("R", &["x"])).unwrap();
    assert_eq!(lowered.len(), 2 + 6 + 1);
    assert_eq!(
        lowered[8],
        main_rule(
            vec![
                Fact::Fact(atom(OR, "@0_or_union", &["x"])),
                Fact::Fact(atom(INNER, "@4_or_union", &["x"])),
            ],
            emit("R", &["x"])
        )
    );
}

/// Globals are no variables: they are never part of a key and never local to a branch.
#[test]
fn globals_are_always_in_scope() {
    let body = vec![Fact::Or(
        OR,
        vec![vec![fact("A", &["x", "$g"])], vec![fact("B", &["x"])]],
    )];
    let lowered = lower(body, emit("R", &["x", "$g"])).unwrap();
    assert_eq!(lowered[0], relation(OR, "@0_or_union", &["A"]));
    assert_eq!(
        lowered[1],
        branch_rule(OR, "@0_or_union", &["x"], vec![fact("A", &["x", "$g"])], "@1_or_branch")
    );
}

/// The sorts come from the resolved query, under the names that the query has.
#[test]
fn resolved_facts_give_the_sorts() {
    let body = vec![Fact::Or(OR, vec![vec![fact("A", &["x"])], vec![fact("B", &["x"])]])];
    let resolved = vec![ResolvedFact::Fact(ResolvedExpr::Call(
        AT,
        "A".to_string(),
        vec![ResolvedExpr::Var(
            AT,
            ResolvedVar { name: "x".to_string(), sort: Sort { name: "Math".to_string() } },
        )],
    ))];
    let queried = SymbolGen::new("@".to_string());
    let mut symbol_gen = queried.clone();
    let lowered =
        lower_typed_rule(&resolved, queried, &mut symbol_gen, rule(body, emit("R", &["x"])))
            .unwrap();
    assert_eq!(lowered[0], relation(OR, "@0_or_union", &["Math"]));
    assert_eq!(lowered.len(), 4);
    assert_eq!(symbol_gen.fresh("next"), "@3_next");
}

#[test]
fn a_local_variable_may_not_be_used_in_an_action() {
    let body = vec![Fact::Or(
        OR,
        vec![vec![fact("P", &["x", "y"])], vec![fact("Q", &["x", "z"])]],
    )];
    let result = lower(body, emit("R", &["z"]));
    assert_eq!(
        result,
        Err(Error::TypeError(TypeError::OrBranchLocalEscapes("z".to_string(), OR)))
    );
    assert_eq!(
        result.unwrap_err().message(),
        "variable z is local to one branch of an `or` but is used outside it"
    );
}

/// Of several variables that escape, the first to be mentioned is reported.
#[test]
fn the_first_escape_is_reported() {
    let body = vec![Fact::Or(
        OR,
        vec![vec![fact("P", &["x", "y"])], vec![fact("Q", &["x", "z"])]],
    )];
    assert_eq!(
        lower(body, emit("R", &["z", "y"])),
        Err(Error::TypeError(TypeError::OrBranchLocalEscapes("y".to_string(), OR)))
    );
}

/// A variable that two disjunctions share, but that is local to a branch of one of them,
/// escapes that one.
#[test]
fn a_local_variable_may_not_be_common_in_another_disjunction() {
    let body = vec![
        Fact::Or(OR, vec![vec![fact("P", &["x", "y"])], vec![fact("Q", &["x"])]]),
        Fact::Or(INNER, vec![vec![fact("A", &["y"])], vec![fact("B", &["y"])]]),
    ];
    assert_eq!(
        lower(body, emit("R", &["x"])),
        Err(Error::TypeError(TypeError::OrBranchLocalEscapes("y".to_string(), OR)))
    );
}

/// Variables that are local to a branch in each of two disjunctions have nothing to do
/// with each other.
#[test]
fn locals_of_two_disjunctions_are_independent() {
    let or = |span: Span, f: &str, g: &str| {
        Fact::Or(span, vec![vec![fact(f, &["x", "y"])], vec![fact(g, &["x"])]])
    };
    let body = vec![or(OR, "P", "Q"), or(INNER, "A", "B")];
    assert_eq!(lower(body, emit("R", &["x"])).unwrap().len(), 7);
}

#[test]
fn a_branch_may_not_be_empty() {
    let body = vec![Fact::Or(OR, vec![vec![fact("A", &["x"])], vec![]])];
    let result = lower(body, emit("R", &["x"]));
    assert_eq!(result, Err(Error::TypeError(TypeError::EmptyOrBranch(OR))));
    assert_eq!(result.unwrap_err().message(), "a branch of an `or` is empty");
}

#[test]
fn a_nested_branch_may_not_be_empty() {
    let inner = Fact::Or(INNER, vec![vec![], vec![fact("B", &["x"])]]);
    let body = vec![Fact::Or(OR, vec![vec![inner], vec![fact("A", &["x"])]])];
    assert_eq!(
        lower(body, emit("R", &["x"])),
        Err(Error::TypeError(TypeError::EmptyOrBranch(INNER)))
    );
}

#[test]
fn a_key_variable_needs_a_sort() {
    let body = vec![Fact::Or(OR, vec![vec![fact("A", &["x"])], vec![fact("B", &["x"])]])];
    let mut symbol_gen = SymbolGen::new("@".to_string());
    let result = lower_rule(&Silent, &mut symbol_gen, rule(body, emit("R", &["x"])));
    assert_eq!(
        result,
        Err(Error::TypeError(TypeError::UntypedVariable("x".to_string(), OR)))
    );
    assert_eq!(result.unwrap_err().message(), "no sort is known for variable x");
}

#[test]
fn an_error_of_the_type_environment_is_passed_on() {
    let body = vec![Fact::Or(OR, vec![vec![fact("A", &["x"])], vec![fact("B", &["x"])]])];
    let mut symbol_gen = SymbolGen::new("@".to_string());
    let result = lower_rule(&Strict, &mut symbol_gen, rule(body, emit("R", &["x"])));
    assert_eq!(
        result,
        Err(Error::TypeError(TypeError::Rejected("no such relation".to_string())))
    );
    assert_eq!(result.unwrap_err().message(), "no such relation");
}

/// Commands without disjunctions come back as they are, and take no names.
#[test]
fn other_commands_are_unchanged() {
    let plain = || vec![fact("A", &["x"]), equal("x", "y")];
    let commands = || {
        vec![
            relation(AT, "A", &["i64"]),
            Command::Ruleset(AT, "rr".to_string()),
            main_rule(plain(), emit("R", &["x"])),
            Command::Action(Action::Expr(AT, call("A", &["x"]))),
            Command::Check(AT, plain()),
            Command::Query(AT, plain()),
            Command::Fail(AT, Box::new(Command::Check(AT, plain()))),
            Command::Fail(AT, Box::new(main_rule(plain(), emit("R", &["x"])))),
        ]
    };
    let mut symbol_gen = SymbolGen::new("@".to_string());
    for (command, expected) in commands().into_iter().zip(commands()) {
        assert_eq!(
            lower_disjunctions(&Strict, &mut symbol_gen, command),
            Ok(vec![expected])
        );
    }
    assert_eq!(symbol_gen.fresh("x"), "@0_x");
}

/// Of the commands that a rule under `fail` becomes, only the last is asserted to fail.
#[test]
fn fail_holds_of_the_last_command_only() {
    let body = || vec![Fact::Or(OR, vec![vec![fact("A", &["x"])], vec![fact("B", &["x"])]])];
    let twice = Command::Fail(
        AT,
        Box::new(Command::Fail(INNER, Box::new(main_rule(body(), emit("R", &["x"]))))),
    );
    let mut symbol_gen = SymbolGen::new("@".to_string());
    let mut expected = lower(body(), emit("R", &["x"])).unwrap();
    let last = expected.pop().unwrap();
    expected.push(Command::Fail(AT, Box::new(Command::Fail(INNER, Box::new(last)))));
    assert_eq!(lower_disjunctions(&LastLetter, &mut symbol_gen, twice), Ok(expected));
}

/// What lowering returns has nothing left to lower.
#[test]
fn lowering_twice_changes_nothing() {
    let inner = Fact::Or(INNER, vec![vec![fact("B", &["y"])], vec![fact("C", &["y"])]]);
    let body = vec![Fact::Or(
        OR,
        vec![vec![fact("A", &["x", "y"]), inner], vec![fact("D", &["x"])]],
    )];
    let mut symbol_gen = SymbolGen::new("@".to_string());
    let once =
        lower_disjunctions(&LastLetter, &mut symbol_gen, main_rule(body, emit("R", &["x"])))
            .unwrap();
    for command in once {
        if let Command::Rule { rule } = &command {
            assert!(!body_has_or(&rule.body));
        }
        let again = lower_disjunctions(&Strict, &mut symbol_gen, command).unwrap();
        assert_eq!(again.len(), 1);
    }
}

/// A variable of a generated rule's head is bound by the rule's body, and a relation is
/// declared before it is called.
#[test]
fn generated_rules_are_in_order() {
    let body = vec![
        fact("V", &["a", "b"]),
        Fact::Or(
            OR,
            vec![
                vec![equal("a", "b")],
                vec![Fact::Or(
                    INNER,
                    vec![vec![fact("A", &["a"])], vec![fact("B", &["b"])]],
                )],
            ],
        ),
    ];
    let lowered = lower(body, emit("R", &["a"])).unwrap();
    assert_eq!(lowered.len(), 7);
    let mut declared: Vec<(String, usize)> = vec![
        ("V".to_string(), 2),
        ("A".to_string(), 1),
        ("B".to_string(), 1),
    ];
    for command in &lowered[..6] {
        match command {
            Command::Relation { name, inputs, .. } => {
                declared.push((name.clone(), inputs.len()));
            }
            Command::Rule { rule } => {
                let mut bound: Vec<String> = Vec::new();
                for f in &rule.body {
                    match f {
                        Fact::Fact(Expr::Call(_, name, args)) => {
                            assert!(declared.contains(&(name.clone(), args.len())));
                            for arg in args {
                                if let Expr::Var(_, v) = arg {
                                    bound.push(v.clone());
                                }
                            }
                        }
                        Fact::Eq(_, _, _) => {}
                        other => panic!("unexpected fact {other:?}"),
                    }
                }
                match &rule.head.0[0] {
                    Action::Expr(_, Expr::Call(_, name, args)) => {
                        assert!(declared.contains(&(name.clone(), args.len())));
                        for arg in args {
                            assert!(matches!(arg, Expr::Var(_, v) if bound.contains(v)));
                        }
                    }
                    other => panic!("unexpected action {other:?}"),
                }
            }
            other => panic!("unexpected command {other:?}"),
        }
    }
}

#[test]
fn or_is_rejected_in_queries() {
    let or = || Fact::Or(OR, vec![vec![fact("A", &["x"])], vec![fact("B", &["x"])]]);
    let rejected = Err(Error::TypeError(TypeError::OrOutsideRule(OR)));
    let facts = || vec![fact("A", &["x"]), or(), Fact::Or(INNER, vec![])];
    assert_eq!(check_or_placement(&Command::Check(AT, facts())), rejected);
    assert_eq!(check_or_placement(&Command::Query(AT, facts())), rejected);
    let failing = Command::Fail(AT, Box::new(Command::Check(AT, facts())));
    assert_eq!(check_or_placement(&failing), rejected);
    assert_eq!(
        rejected.unwrap_err().message(),
        "`or` is only supported inside rule bodies"
    );
}

#[test]
fn or_is_accepted_in_rules() {
    let body = vec![Fact::Or(OR, vec![vec![fact("A", &["x"])], vec![fact("B", &["x"])]])];
    assert_eq!(check_or_placement(&main_rule(body, emit("R", &["x"]))), Ok(()));
    assert_eq!(check_or_placement(&Command::Check(AT, vec![fact("A", &["x"])])), Ok(()));
    let delete = Action::Change(AT, Change::Delete, "A".to_string(), vec![var("x")]);
    assert_eq!(check_or_placement(&Command::Action(delete)), Ok(()));
    let unit = Action::Expr(AT, Expr::Lit(AT, Literal::Unit));
    assert_eq!(check_or_placement(&Command::Action(unit)), Ok(()));
}

/// The order of the facts of a branch plays no part in whether it stands alone.
#[test]
fn equations_may_come_before_the_facts_they_lean_on() {
    let body = vec![
        fact("C", &["y"]),
        Fact::Or(
            OR,
            vec![
                vec![equal("x", "y"), fact("A", &["x"])],
                vec![equal("y", "t"), equal("t", "x"), fact("B", &["x"])],
                vec![equal("x", "y")],
            ],
        ),
    ];
    let lowered = lower(body, emit("R", &["x"])).unwrap();
    let bodies: Vec<&Vec<Fact>> = lowered[1..4]
        .iter()
        .map(|command| match command {
            Command::Rule { rule } => &rule.body,
            other => panic!("unexpected command {other:?}"),
        })
        .collect();
    assert_eq!(bodies[0], &vec![equal("x", "y"), fact("A", &["x"])]);
    assert_eq!(bodies[1], &vec![equal("y", "t"), equal("t", "x"), fact("B", &["x"])]);
    assert_eq!(bodies[2], &vec![fact("C", &["y"]), equal("x", "y")]);
}

#[test]
fn an_or_needs_branches() {
    let body = || vec![fact("A", &["x"]), Fact::Or(OR, vec![])];
    let result = lower(body(), emit("R", &["x"]));
    assert_eq!(result, Err(Error::TypeError(TypeError::OrWithoutBranches(OR))));
    assert_eq!(result.unwrap_err().message(), "an `or` has no branches");
    let mut symbol_gen = SymbolGen::new("@".to_string());
    assert_eq!(
        lower_rule(&Strict, &mut symbol_gen, rule(body(), emit("R", &["x"]))),
        Err(Error::TypeError(TypeError::Rejected("no such relation".to_string())))
    );
    let mut later = vec![Fact::Or(INNER, vec![vec![]])];
    later.extend(body());
    assert_eq!(
        lower(later, emit("R", &["x"])),
        Err(Error::TypeError(TypeError::EmptyOrBranch(INNER)))
    );
}

/// The order of the branches after the first changes only the order of their rules.
#[test]
fn later_branches_can_be_reordered() {
    let a = || vec![fact("A", &["y", "x"])];
    let b = || vec![fact("B", &["x", "y"])];
    let c = || vec![fact("C", &["x"]), fact("D", &["y"])];
    let head = || emit("R", &["x"]);
    let first = lower(vec![Fact::Or(OR, vec![a(), b(), c()])], head()).unwrap();
    let second = lower(vec![Fact::Or(OR, vec![a(), c(), b()])], head()).unwrap();
    let key = ["y", "x"];
    assert_eq!(first[0], second[0]);
    assert_eq!(first[1], second[1]);
    assert_eq!(first[4], second[4]);
    assert_eq!(first[2], branch_rule(OR, "@0_or_union", &key, b(), "@2_or_branch"));
    assert_eq!(second[2], branch_rule(OR, "@0_or_union", &key, c(), "@2_or_branch"));
    assert_eq!(first[3], branch_rule(OR, "@0_or_union", &key, c(), "@3_or_branch"));
    assert_eq!(second[3], branch_rule(OR, "@0_or_union", &key, b(), "@3_or_branch"));
}

/// The generated commands have the names of the supply one after another.
#[test]
fn generated_commands_are_numbered() {
    let or = |span: Span, f: &str, g: &str| {
        Fact::Or(span, vec![vec![fact(f, &["x"])], vec![fact(g, &["x"])]])
    };
    let body = vec![
        Fact::Or(OR, vec![vec![or(INNER, "A", "B")], vec![fact("C", &["x"])]]),
        or(AT, "D", "E"),
    ];
    let lowered = lower(body, emit("R", &["x"])).unwrap();
    let names: Vec<String> = lowered[..9]
        .iter()
        .map(|command| match command {
            Command::Relation { name, .. } => name.clone(),
            Command::Rule { rule } => rule.name.clone(),
            other => panic!("unexpected command {other:?}"),
        })
        .collect();
    assert_eq!(
        names,
        [
            "@0_or_union",
            "@1_or_branch",
            "@2_or_branch",
            "@3_or_union",
            "@4_or_branch",
            "@5_or_branch",
            "@6_or_union",
            "@7_or_branch",
            "@8_or_branch",
        ]
    );
}

/// An environment that takes some names for itself.
struct Greedy;

impl TypeInfo for Greedy {
    fn typecheck_facts(
        &self,
        symbol_gen: SymbolGen,
        facts: &Vec<Fact>,
    ) -> (Result<Vec<ResolvedFact>, TypeError>, SymbolGen) {
        let mut symbol_gen = symbol_gen;
        assert_eq!(symbol_gen.fresh("mine"), "@1_mine");
        assert_eq!(symbol_gen.fresh("mine"), "@2_mine");
        (Ok(resolve_all(facts)), symbol_gen)
    }
}

/// An environment that hands back a supply of its own making.
struct Forgetful(&'static str);

impl TypeInfo for Forgetful {
    fn typecheck_facts(
        &self,
        _symbol_gen: SymbolGen,
        facts: &Vec<Fact>,
    ) -> (Result<Vec<ResolvedFact>, TypeError>, SymbolGen) {
        let mut other = SymbolGen::new(self.0.to_string());
        if self.0 != "@" {
            for _ in 0..20 {
                other.fresh("x");
            }
        }
        (Ok(resolve_all(facts)), other)
    }
}

/// The names that an environment takes come after those of the query and before those of
/// the lowering, and no name is handed out twice whatever supply comes back.
#[test]
fn environments_share_the_supply() {
    let body = || {
        vec![Fact::Or(OR, vec![vec![fact("A", &["x", "t"])], vec![fact("B", &["x"])]])]
    };
    let head = || emit("R", &["x"]);
    let mut symbol_gen = SymbolGen::new("@".to_string());
    let lowered = lower_rule(&Greedy, &mut symbol_gen, rule(body(), head())).unwrap();
    assert_eq!(lowered[0], relation(OR, "@3_or_union", &["A"]));
    assert_eq!(symbol_gen.fresh("n"), "@6_n");
    for prefix in ["@", "#"] {
        let mut symbol_gen = SymbolGen::new("@".to_string());
        let environment = Forgetful(prefix);
        let lowered = lower_rule(&environment, &mut symbol_gen, rule(body(), head())).unwrap();
        assert_eq!(lowered[0], relation(OR, "@1_or_union", &["A"]));
        assert_eq!(symbol_gen.fresh("n"), "@4_n");
    }
}

/// Where the surrounding facts bind columns that the first branch does not mention, the
/// order of the branches changes the order of the columns, and nothing else.
#[test]
fn reordered_branches_can_move_columns() {
    let v = || fact("Vm", &["a", "b", "c"]);
    let a = || vec![fact("A", &["a"])];
    let b = || vec![fact("B", &["b"])];
    let c = || vec![fact("C", &["c"])];
    let head = || emit("R", &["a"]);
    let with = |branch: Vec<Fact>| {
        let mut body = vec![v()];
        body.extend(branch);
        body
    };
    let first = lower(vec![v(), Fact::Or(OR, vec![a(), b(), c()])], head()).unwrap();
    let second = lower(vec![v(), Fact::Or(OR, vec![c(), a(), b()])], head()).unwrap();
    let key = ["a", "b", "c"];
    let moved = ["c", "a", "b"];
    assert_eq!(first[0], relation(OR, "@0_or_union", &["m", "m", "m"]));
    assert_eq!(second[0], first[0]);
    assert_eq!(first[3], branch_rule(OR, "@0_or_union", &key, with(c()), "@3_or_branch"));
    assert_eq!(second[1], branch_rule(OR, "@0_or_union", &moved, with(c()), "@1_or_branch"));
    assert_eq!(
        second[4],
        main_rule(vec![v(), Fact::Fact(atom(OR, "@0_or_union", &moved))], head())
    );
}

/// A variable that another fact or an action uses stays in the fact that replaces a
/// disjunction.
#[test]
fn no_join_is_dropped() {
    let body = vec![
        fact("C", &["x", "y"]),
        Fact::Or(OR, vec![vec![fact("A", &["x", "z", "s"])], vec![fact("B", &["y", "z"])]]),
        Fact::Or(INNER, vec![vec![fact("D", &["z", "s"])], vec![fact("E", &["z", "w"])]]),
    ];
    let lowered = lower(body, emit("R", &["z"])).unwrap();
    match lowered.last().unwrap() {
        Command::Rule { rule } => {
            assert_eq!(rule.body[0], fact("C", &["x", "y"]));
            assert!(matches!(&rule.body[1], Fact::Fact(Expr::Call(_, _, args)) if *args
                == vec![
                    Expr::Var(OR, "x".to_string()),
                    Expr::Var(OR, "z".to_string()),
                    Expr::Var(OR, "y".to_string()),
                ]));
            assert!(matches!(&rule.body[2], Fact::Fact(Expr::Call(_, _, args)) if *args
                == vec![Expr::Var(INNER, "z".to_string())]));
        }
        other => panic!("unexpected command {other:?}"),
    }
}
