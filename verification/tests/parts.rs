//! The parts that a lowering is made of: names, variables, scopes, sorts and queries.

use disjunction::ast::{Action, Actions, Change, Expr, Fact, Literal, Span};
use disjunction::flatten::{branch_locals, flatten_for_typing, Renaming};
use disjunction::scope::{
    bound_vars, visible_branches_vars, visible_fact_vars, visible_list_vars,
};
use disjunction::symbol_gen::SymbolGen;
use disjunction::typing::{
    collect_resolved_var_sorts, resolved_var_sorts, ResolvedExpr, ResolvedFact, ResolvedVar, Sort,
    SortMap,
};
use disjunction::vars::{
    accumulate_fact_vars, accumulate_fact_vars_ordered, action_exprs, actions_vars, expr_vars,
    expr_vars_ordered, fact_list_vars, fact_vars, is_global, is_key_var, ordered_vars, VarSet,
};

const OR: Span = Span { start: 3, end: 4 };
const AT: Span = Span { start: 7, end: 8 };

fn var(name: &str) -> Expr {
    Expr::Var(AT, name.to_string())
}

fn call(f: &str, args: &[&str]) -> Expr {
    Expr::Call(AT, f.to_string(), args.iter().map(|a| var(a)).collect())
}

fn fact(f: &str, args: &[&str]) -> Fact {
    Fact::Fact(call(f, args))
}

fn set(names: &[&str]) -> VarSet {
    let mut out = VarSet::new();
    for name in names {
        out.insert(name.to_string());
    }
    out
}

fn listed(vars: &VarSet) -> Vec<String> {
    (0..vars.len()).map(|i| vars.get(i).clone()).collect()
}

fn sorted(vars: &VarSet) -> Vec<String> {
    let mut out = listed(vars);
    out.sort();
    out
}

#[test]
fn names_count_up() {
    let mut supply = SymbolGen::new("@".to_string());
    assert_eq!(supply.fresh("a"), "@0_a");
    assert_eq!(supply.fresh("a"), "@1_a");
    let mut copy = supply.clone();
    for _ in 0..8 {
        supply.fresh("b");
    }
    assert_eq!(supply.fresh("c"), "@10_c");
    assert_eq!(copy.fresh("d"), "@2_d");
    for _ in 11..99 {
        supply.fresh("b");
    }
    assert_eq!(supply.fresh(""), "@99_");
    assert_eq!(supply.fresh("e_1"), "@100_e_1");
}

/// No two names of a supply are equal, whatever hints they were asked for with.
#[test]
fn names_are_distinct() {
    let hints = ["", "_", "1", "0_", "1_x", "or_union"];
    let mut supply = SymbolGen::new("1".to_string());
    let mut seen: Vec<String> = Vec::new();
    for i in 0..200 {
        let name = supply.fresh(hints[i % hints.len()]);
        assert!(!seen.contains(&name));
        seen.push(name);
    }
}

#[test]
fn globals_start_with_a_dollar() {
    assert!(is_global(&"$x".to_string()));
    assert!(is_global(&"$".to_string()));
    assert!(!is_global(&"x$".to_string()));
    assert!(!is_global(&String::new()));
}

#[test]
fn expressions_list_their_variables_once() {
    let e = Expr::Call(
        AT,
        "f".to_string(),
        vec![
            var("y"),
            Expr::Call(AT, "g".to_string(), vec![var("x"), var("y"), var("$g")]),
            Expr::Lit(AT, Literal::Int(3)),
            var("z"),
        ],
    );
    let mut vars = set(&["x"]);
    expr_vars(&e, &mut vars);
    assert_eq!(listed(&vars), ["x", "y", "z"]);
    let mut ordered = ordered_vars(&vec![]);
    expr_vars_ordered(&e, &mut ordered);
    let ordered: Vec<String> = ordered.into_iter().collect();
    assert_eq!(ordered, ["y", "x", "z"]);
}

#[test]
fn facts_list_the_variables_of_all_branches() {
    let or = Fact::Or(
        OR,
        vec![vec![fact("A", &["b", "a"]), fact("B", &["c"])], vec![fact("C", &["d", "a"])]],
    );
    assert_eq!(listed(&fact_vars(&or)), ["b", "a", "c", "d"]);
    let mut vars = set(&["c"]);
    accumulate_fact_vars(&or, &mut vars);
    assert_eq!(listed(&vars), ["c", "b", "a", "d"]);
    let facts = vec![Fact::Eq(AT, var("z"), call("f", &["b"])), or];
    assert_eq!(listed(&fact_list_vars(&facts)), ["z", "b", "a", "c", "d"]);
    let ordered: Vec<String> = ordered_vars(&facts).into_iter().collect();
    assert_eq!(ordered, ["z", "b", "a", "c", "d"]);
    let mut more = ordered_vars(&vec![fact("A", &["q"])]);
    accumulate_fact_vars_ordered(&facts[1], &mut more);
    let more: Vec<String> = more.into_iter().collect();
    assert_eq!(more, ["q", "b", "a", "c", "d"]);
}

#[test]
fn actions_list_the_variables_of_their_expressions() {
    let actions = vec![
        Action::Let(AT, "t".to_string(), call("f", &["a"])),
        Action::Assign(AT, "g".to_string(), vec![var("b"), var("c")], var("d")),
        Action::Change(AT, Change::Subsume, "h".to_string(), vec![var("e"), var("a")]),
        Action::Union(AT, var("i"), call("f", &["j"])),
        Action::Panic(AT, "k".to_string()),
        Action::Expr(AT, call("R", &["l", "$m"])),
    ];
    let counts: Vec<usize> = actions.iter().map(|a| action_exprs(a).len()).collect();
    assert_eq!(counts, [1, 3, 2, 2, 0, 1]);
    assert_eq!(action_exprs(&actions[1]), [&var("b"), &var("c"), &var("d")]);
    let vars = actions_vars(&Actions(actions));
    assert_eq!(listed(&vars), ["a", "b", "c", "d", "e", "i", "j", "l"]);
}

#[test]
fn key_variables_are_common_or_bound() {
    let branches = vec![set(&["x", "y"]), set(&["x", "z"])];
    let bound = set(&["z"]);
    assert!(is_key_var(&"x".to_string(), &bound, &branches));
    assert!(is_key_var(&"z".to_string(), &bound, &branches));
    assert!(!is_key_var(&"y".to_string(), &bound, &branches));
}

#[test]
fn scopes_nest() {
    let inner = Fact::Or(OR, vec![vec![fact("B", &["y", "u"])], vec![fact("C", &["y", "w"])]]);
    let branches = vec![vec![fact("A", &["x", "v"]), inner], vec![fact("D", &["x", "c"])]];
    let or = Fact::Or(OR, branches);
    let none = VarSet::new();
    let bound = set(&["c"]);
    assert_eq!(listed(&visible_fact_vars(&or, &none)), ["x"]);
    assert_eq!(sorted(&visible_fact_vars(&or, &bound)), ["c", "x"]);
    let branches = match or {
        Fact::Or(_, branches) => branches,
        _ => unreachable!(),
    };
    assert_eq!(sorted(&visible_branches_vars(&branches, &bound)), ["c", "x"]);
    assert_eq!(sorted(&visible_list_vars(&branches[0], &none)), ["v", "x", "y"]);
    assert_eq!(sorted(&bound_vars(&branches[0], &bound)), ["c", "v", "x"]);
    let seen = visible_branches_vars(&branches, &none);
    assert_eq!(listed(&branch_locals(OR, &branches, 0, &none, &seen)), ["v", "y"]);
    assert_eq!(listed(&branch_locals(OR, &branches, 1, &none, &seen)), ["c"]);
}

fn typed(name: &str, sort: &str) -> ResolvedExpr {
    ResolvedExpr::Var(
        AT,
        ResolvedVar { name: name.to_string(), sort: Sort { name: sort.to_string() } },
    )
}

#[test]
fn the_first_sort_of_a_variable_counts() {
    let mut sorts = SortMap::new();
    let e = ResolvedExpr::Call(
        AT,
        "f".to_string(),
        vec![typed("x", "A"), ResolvedExpr::Lit(AT, Literal::Bool(true)), typed("x", "B")],
    );
    collect_resolved_var_sorts(&e, &mut sorts);
    sorts.or_insert("y".to_string(), "C".to_string());
    sorts.or_insert("y".to_string(), "D".to_string());
    assert_eq!(sorts.get(&"x".to_string()), Some(&"A".to_string()));
    assert_eq!(sorts.get(&"y".to_string()), Some(&"C".to_string()));
    assert_eq!(sorts.get(&"z".to_string()), None);
    let facts = vec![
        ResolvedFact::Eq(AT, typed("p", "E"), typed("q", "F")),
        ResolvedFact::Fact(typed("p", "G")),
    ];
    let sorts = resolved_var_sorts(&facts);
    assert_eq!(sorts.get(&"p".to_string()), Some(&"E".to_string()));
    assert_eq!(sorts.get(&"q".to_string()), Some(&"F".to_string()));
}

/// The query of a body without disjunctions is the body.
#[test]
fn plain_bodies_are_their_own_query() {
    let body = vec![fact("A", &["x", "$g"]), Fact::Eq(AT, var("x"), var("y"))];
    let mut supply = SymbolGen::new("@".to_string());
    assert_eq!(flatten_for_typing(&body, &mut supply), body);
    assert_eq!(supply.fresh("n"), "@0_n");
}

/// Common and surrounding variables keep their names in the query, local ones get names
/// of their own in each branch.
#[test]
fn queries_rename_local_variables() {
    let inner = Fact::Or(OR, vec![vec![fact("B", &["y", "u"])], vec![fact("E", &["y"])]]);
    let body = vec![
        fact("C", &["c"]),
        Fact::Or(
            OR,
            vec![
                vec![fact("A", &["x", "y", "c"]), inner],
                vec![fact("D", &["x", "y"]), Fact::Eq(AT, var("x"), var("z"))],
                vec![fact("F", &["x"])],
            ],
        ),
    ];
    let mut supply = SymbolGen::new("@".to_string());
    assert_eq!(
        flatten_for_typing(&body, &mut supply),
        vec![
            fact("C", &["c"]),
            fact("A", &["x", "@0_y", "c"]),
            fact("B", &["@0_y", "@1_u"]),
            fact("E", &["@0_y"]),
            fact("D", &["x", "@2_y"]),
            Fact::Eq(AT, var("x"), var("@3_z")),
            fact("F", &["x"]),
        ]
    );
    assert_eq!(supply.fresh("n"), "@4_n");
}

#[test]
fn later_names_take_precedence() {
    let mut supply = SymbolGen::new("@".to_string());
    let outer = Renaming::new().with_fresh(&set(&["x", "y"]), &mut supply);
    let inner = outer.with_fresh(&set(&["y"]), &mut supply);
    assert_eq!(outer.var(&"y".to_string()), "@1_y");
    assert_eq!(inner.var(&"x".to_string()), "@0_x");
    assert_eq!(inner.var(&"y".to_string()), "@2_y");
    assert_eq!(inner.var(&"z".to_string()), "z");
}

/// The query of a body without branch-local variables is the flat body, with the same
/// variables in the same order.
#[test]
fn queries_without_local_variables_are_flat_bodies() {
    let inner = Fact::Or(OR, vec![vec![fact("B", &["y", "x"])], vec![fact("E", &["x", "y"])]]);
    let body = vec![
        Fact::Or(OR, vec![vec![inner], vec![fact("D", &["x", "y", "c"])]]),
        fact("C", &["c"]),
    ];
    let mut supply = SymbolGen::new("@".to_string());
    let query = flatten_for_typing(&body, &mut supply);
    assert_eq!(
        query,
        vec![
            fact("B", &["y", "x"]),
            fact("E", &["x", "y"]),
            fact("D", &["x", "y", "c"]),
            fact("C", &["c"]),
        ]
    );
    assert_eq!(supply.fresh("n"), "@0_n");
    let of_query: Vec<String> = ordered_vars(&query).into_iter().collect();
    let of_body: Vec<String> = ordered_vars(&body).into_iter().collect();
    assert_eq!(of_query, of_body);
}

#[test]
fn sets_hold_nothing_twice() {
    let mut vars = set(&["a", "b", "a"]);
    vars.extend(&set(&["b", "c", "a"]));
    assert_eq!(listed(&vars), ["a", "b", "c"]);
    assert_eq!(listed(&vars.clone()), ["a", "b", "c"]);
}

#[test]
fn supplies_continue_one_another() {
    let start = SymbolGen::new("@".to_string());
    let mut later = start.clone();
    assert!(later.continues(&start));
    assert!(start.continues(&later));
    for _ in 0..9 {
        later.fresh("x");
    }
    let nine = later.clone();
    later.fresh("x");
    let ten = later.clone();
    for _ in 10..123 {
        later.fresh("x");
    }
    let mut other = ten.clone();
    for _ in 10..132 {
        other.fresh("x");
    }
    assert!(ten.continues(&nine));
    assert!(!nine.continues(&ten));
    assert!(later.continues(&ten));
    assert!(!ten.continues(&later));
    assert!(other.continues(&later));
    assert!(!later.continues(&other));
    assert!(!later.continues(&SymbolGen::new("#".to_string())));
}
