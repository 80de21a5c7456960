//! That what is generated is well typed.
//!
//! A signature says which sorts of arguments functions take. Facts that fit a signature
//! under some sorts of their variables are well typed.

use vstd::prelude::*;

use crate::ast::{
    ActionModel, CommandModel, ExprModel, FactModel, LiteralModel, Name, RuleModel, Span,
};
use crate::commands::{lowered_rule, rule_env, typing_query};
use crate::flatten::{
    flattened, flattened_branches, fresh_names, local_vars, renamed_expr, renamed_exprs,
    renamed_fact, renamed_var,
};
use crate::generated::{context_binds, lemma_context_binds, lemma_plain_facts};
use crate::lowered_vars::{lemma_key_visible, lemma_lowered_branches_vars};
use crate::lowering::{
    branch_env, lowered_branches, lowered_facts, lowered_or, plain_facts, surroundings_of,
};
use crate::materialize::{
    branch_body, branch_rules, first_untyped, key_atom, key_of, lemma_first_such_none,
    relation_decl, relation_hint, Env,
};
use crate::mentions::{
    expr_mentions, fact_mentions, facts_mention, law_facts_vars_are_mentioned, some_mentions,
};
use crate::query::{lemma_locals, lemma_renamed_fresh};
use crate::rounds::{lemma_within_add, within};
use crate::scope::{is_or, lemma_visible_or, visible};
use crate::symbol_gen::nth_name;
use crate::vars::{facts_occurrences, is_global_name};

verus! {

/// What a type environment knows of functions and constants. A function may take arguments
/// of various sorts.
pub struct Signature {
    /// Whether a function can be called on arguments of some sorts, with a value of a sort.
    pub accepts: spec_fn(Name, Seq<Name>, Name) -> bool,
    /// Whether a constant has a sort.
    pub constant: spec_fn(LiteralModel, Name) -> bool,
    /// The sort of what a relation's tuples stand for.
    pub unit: Name,
}

/// A program declares a relation with columns of some sorts.
pub open spec fn declares_columns(program: Seq<CommandModel>, f: Name, columns: Seq<Name>) -> bool {
    exists|i: int|
        0 <= i < program.len() && (#[trigger] program[i] matches CommandModel::Relation {
            name,
            inputs,
            ..
        } && name == f && inputs == columns)
}

/// A call of a function on arguments of some sorts has a value of a sort: the signature
/// accepts it, or the program declares a relation with columns of the arguments' sorts.
pub open spec fn takes(
    sig: Signature,
    program: Seq<CommandModel>,
    f: Name,
    columns: Seq<Name>,
    sort: Name,
) -> bool {
    (sig.accepts)(f, columns, sort) || sort == sig.unit && declares_columns(program, f, columns)
}

/// An expression has a sort, where `sorts` holds the sorts of the variables: every call in it
/// takes arguments of the sorts that it is given.
pub open spec fn has_sort(
    e: ExprModel,
    sig: Signature,
    program: Seq<CommandModel>,
    sorts: Map<Name, Name>,
    sort: Name,
) -> bool
    decreases e,
{
    match e {
        ExprModel::Lit(_, l) => (sig.constant)(l, sort),
        ExprModel::Var(_, v) => sorts.contains_key(v) && sorts[v] == sort,
        ExprModel::Call(_, f, args) => exists|columns: Seq<Name>| #[trigger]
            takes(sig, program, f, columns, sort) && have_sorts(args, sig, program, sorts, columns),
    }
}

/// The expressions of a list have the sorts of another, one for one.
pub open spec fn have_sorts(
    es: Seq<ExprModel>,
    sig: Signature,
    program: Seq<CommandModel>,
    sorts: Map<Name, Name>,
    columns: Seq<Name>,
) -> bool
    decreases es,
{
    es.len() == columns.len() && forall|i: int|
        0 <= i < es.len() ==> has_sort(#[trigger] es[i], sig, program, sorts, columns[i])
}

/// A plain fact is well typed. The two sides of an equation have the same sort.
pub open spec fn fact_fits(
    f: FactModel,
    sig: Signature,
    program: Seq<CommandModel>,
    sorts: Map<Name, Name>,
) -> bool {
    match f {
        FactModel::Eq(_, e1, e2) => exists|sort: Name| #[trigger]
            has_sort(e1, sig, program, sorts, sort) && has_sort(e2, sig, program, sorts, sort),
        FactModel::Fact(e) => exists|sort: Name| #[trigger] has_sort(e, sig, program, sorts, sort),
        FactModel::Or(_, _) => false,
    }
}

/// Every fact of a conjunction is well typed, under the same sorts.
pub open spec fn facts_fit(
    fs: Seq<FactModel>,
    sig: Signature,
    program: Seq<CommandModel>,
    sorts: Map<Name, Name>,
) -> bool {
    forall|i: int| 0 <= i < fs.len() ==> fact_fits(#[trigger] fs[i], sig, program, sorts)
}

/// A rule whose head evaluates expressions is well typed: some sorts of its variables fit all
/// its facts and all these expressions.
pub open spec fn rule_fits(
    rule: RuleModel,
    sig: Signature,
    program: Seq<CommandModel>,
) -> bool {
    exists|sorts: Map<Name, Name>| #[trigger]
        facts_fit(rule.body, sig, program, sorts) && forall|k: int|
            0 <= k < rule.head.len() ==> (#[trigger] rule.head[k] matches ActionModel::Expr(_, e)
                && exists|sort: Name| #[trigger] has_sort(e, sig, program, sorts, sort))
}

/// Every rule among some commands is well typed.
pub open spec fn rules_fit(
    commands: Seq<CommandModel>,
    sig: Signature,
    program: Seq<CommandModel>,
) -> bool {
    forall|i: int|
        0 <= i < commands.len() ==> (#[trigger] commands[i] matches CommandModel::Rule { rule }
            ==> rule_fits(rule, sig, program))
}

/// The sorts that variables have under the names that a renaming gives them.
pub open spec fn sorts_under(
    sorts: Map<Name, Name>,
    renaming: Seq<(Name, Name)>,
) -> Map<Name, Name> {
    Map::new(
        |v: Name| sorts.contains_key(renamed_var(v, renaming)),
        |v: Name| sorts[renamed_var(v, renaming)],
    )
}

/// The sorts of the variables in the place that an environment stands for.
pub open spec fn env_sorts(env: Env) -> Map<Name, Name> {
    sorts_under(env.sorts, env.renaming)
}

proof fn lemma_renamed_sort(
    e: ExprModel,
    renaming: Seq<(Name, Name)>,
    sig: Signature,
    program: Seq<CommandModel>,
    sorts: Map<Name, Name>,
    sort: Name,
)
    requires
        has_sort(renamed_expr(e, renaming), sig, program, sorts, sort),
    ensures
        has_sort(e, sig, program, sorts_under(sorts, renaming), sort),
    decreases e,
{
    match e {
        ExprModel::Call(_, f, args) => {
            let under = sorts_under(sorts, renaming);
            let renamed = renamed_exprs(args, renaming);
            let columns = choose|columns: Seq<Name>| #[trigger]
                takes(sig, program, f, columns, sort) && have_sorts(
                    renamed,
                    sig,
                    program,
                    sorts,
                    columns,
                );
            assert forall|i: int| 0 <= i < args.len() implies has_sort(
                #[trigger] args[i],
                sig,
                program,
                under,
                columns[i],
            ) by {
                assert(renamed[i] == renamed_expr(args[i], renaming));
                lemma_renamed_sort(args[i], renaming, sig, program, sorts, columns[i]);
            }
            assert(have_sorts(args, sig, program, under, columns));
        },
        _ => {},
    }
}

proof fn lemma_renamed_fits(
    f: FactModel,
    renaming: Seq<(Name, Name)>,
    sig: Signature,
    program: Seq<CommandModel>,
    sorts: Map<Name, Name>,
)
    requires
        fact_fits(renamed_fact(f, renaming), sig, program, sorts),
    ensures
        fact_fits(f, sig, program, sorts_under(sorts, renaming)),
{
    match f {
        FactModel::Eq(_, e1, e2) => {
            let sort = choose|sort: Name| #[trigger]
                has_sort(renamed_expr(e1, renaming), sig, program, sorts, sort) && has_sort(
                    renamed_expr(e2, renaming),
                    sig,
                    program,
                    sorts,
                    sort,
                );
            lemma_renamed_sort(e1, renaming, sig, program, sorts, sort);
            lemma_renamed_sort(e2, renaming, sig, program, sorts, sort);
        },
        FactModel::Fact(e) => {
            let sort = choose|sort: Name| #[trigger]
                has_sort(renamed_expr(e, renaming), sig, program, sorts, sort);
            lemma_renamed_sort(e, renaming, sig, program, sorts, sort);
        },
        FactModel::Or(_, _) => {},
    }
}

/// The sort of an expression depends only on the sorts of what it mentions, and it has the
/// sort in a larger program too.
proof fn lemma_sort_moves(
    e: ExprModel,
    sig: Signature,
    a: Seq<CommandModel>,
    s: Map<Name, Name>,
    b: Seq<CommandModel>,
    t: Map<Name, Name>,
    sort: Name,
)
    requires
        has_sort(e, sig, a, s, sort),
        within(a, b),
        forall|v: Name| #[trigger]
            expr_mentions(e, v) && s.contains_key(v) ==> t.contains_key(v) && t[v] == s[v],
    ensures
        has_sort(e, sig, b, t, sort),
    decreases e,
{
    match e {
        ExprModel::Lit(_, _) => {},
        ExprModel::Var(_, v) => {
            assert(expr_mentions(e, v));
        },
        ExprModel::Call(_, f, args) => {
            let columns = choose|columns: Seq<Name>| #[trigger]
                takes(sig, a, f, columns, sort) && have_sorts(args, sig, a, s, columns);
            assert forall|i: int| 0 <= i < args.len() implies has_sort(
                #[trigger] args[i],
                sig,
                b,
                t,
                columns[i],
            ) by {
                assert forall|v: Name| #[trigger]
                    expr_mentions(args[i], v) && s.contains_key(v) implies t.contains_key(v) && t[v]
                    == s[v] by {
                    assert(some_mentions(args, v));
                    assert(expr_mentions(e, v));
                }
                lemma_sort_moves(args[i], sig, a, s, b, t, columns[i]);
            }
            assert(have_sorts(args, sig, b, t, columns));
            if declares_columns(a, f, columns) {
                let i = choose|i: int|
                    0 <= i < a.len() && (#[trigger] a[i] matches CommandModel::Relation {
                        name,
                        inputs,
                        ..
                    } && name == f && inputs == columns);
                assert(b.contains(a[i]));
                let j = choose|j: int| 0 <= j < b.len() && b[j] == a[i];
                assert(declares_columns(b, f, columns));
            }
            assert(takes(sig, b, f, columns, sort));
        },
    }
}

proof fn lemma_fits_moves(
    f: FactModel,
    sig: Signature,
    a: Seq<CommandModel>,
    s: Map<Name, Name>,
    b: Seq<CommandModel>,
    t: Map<Name, Name>,
)
    requires
        fact_fits(f, sig, a, s),
        within(a, b),
        forall|v: Name| #[trigger]
            fact_mentions(f, v) && s.contains_key(v) ==> t.contains_key(v) && t[v] == s[v],
    ensures
        fact_fits(f, sig, b, t),
{
    match f {
        FactModel::Eq(_, e1, e2) => {
            let sort = choose|sort: Name| #[trigger]
                has_sort(e1, sig, a, s, sort) && has_sort(e2, sig, a, s, sort);
            assert forall|v: Name| expr_mentions(e1, v) || expr_mentions(e2, v) implies fact_mentions(
                f,
                v,
            ) by {}
            lemma_sort_moves(e1, sig, a, s, b, t, sort);
            lemma_sort_moves(e2, sig, a, s, b, t, sort);
        },
        FactModel::Fact(e) => {
            let sort = choose|sort: Name| #[trigger] has_sort(e, sig, a, s, sort);
            assert forall|v: Name| expr_mentions(e, v) implies fact_mentions(f, v) by {}
            lemma_sort_moves(e, sig, a, s, b, t, sort);
        },
        FactModel::Or(_, _) => {},
    }
}

proof fn lemma_facts_fit_move(
    fs: Seq<FactModel>,
    sig: Signature,
    a: Seq<CommandModel>,
    s: Map<Name, Name>,
    b: Seq<CommandModel>,
    t: Map<Name, Name>,
)
    requires
        facts_fit(fs, sig, a, s),
        within(a, b),
        forall|v: Name| #[trigger]
            facts_mention(fs, v) && s.contains_key(v) ==> t.contains_key(v) && t[v] == s[v],
    ensures
        facts_fit(fs, sig, b, t),
{
    assert forall|i: int| 0 <= i < fs.len() implies fact_fits(#[trigger] fs[i], sig, b, t) by {
        assert forall|v: Name| #[trigger]
            fact_mentions(fs[i], v) && s.contains_key(v) implies t.contains_key(v) && t[v]
            == s[v] by {
            assert(facts_mention(fs, v));
        }
        lemma_fits_moves(fs[i], sig, a, s, b, t);
    }
}

proof fn lemma_facts_fit_add(
    a: Seq<FactModel>,
    b: Seq<FactModel>,
    sig: Signature,
    program: Seq<CommandModel>,
    sorts: Map<Name, Name>,
)
    ensures
        facts_fit(a + b, sig, program, sorts) <==> facts_fit(a, sig, program, sorts) && facts_fit(
            b,
            sig,
            program,
            sorts,
        ),
{
    let all = a + b;
    if facts_fit(all, sig, program, sorts) {
        assert forall|i: int| 0 <= i < a.len() implies fact_fits(
            #[trigger] a[i],
            sig,
            program,
            sorts,
        ) by {
            assert(all[i] == a[i]);
        }
        assert forall|i: int| 0 <= i < b.len() implies fact_fits(
            #[trigger] b[i],
            sig,
            program,
            sorts,
        ) by {
            assert(all[a.len() + i] == b[i]);
        }
    }
    if facts_fit(a, sig, program, sorts) && facts_fit(b, sig, program, sorts) {
        assert forall|i: int| 0 <= i < all.len() implies fact_fits(
            #[trigger] all[i],
            sig,
            program,
            sorts,
        ) by {
            if i < a.len() {
                assert(all[i] == a[i]);
            } else {
                assert(all[i] == b[i - a.len()]);
            }
        }
    }
}

proof fn lemma_rules_fit_add(
    a: Seq<CommandModel>,
    b: Seq<CommandModel>,
    sig: Signature,
    program: Seq<CommandModel>,
)
    requires
        rules_fit(a, sig, program),
        rules_fit(b, sig, program),
    ensures
        rules_fit(a + b, sig, program),
{
    let all = a + b;
    assert forall|i: int| 0 <= i < all.len() implies (#[trigger] all[i] matches CommandModel::Rule {
        rule,
    } ==> rule_fits(rule, sig, program)) by {
        if i < a.len() {
            assert(all[i] == a[i]);
        } else {
            assert(all[i] == b[i - a.len()]);
        }
    }
}

/// The plain facts of a conjunction stand in the query, under the renaming of the place.
proof fn lemma_query_has_plain(fs: Seq<FactModel>, k: nat, env: Env, m: int)
    requires
        0 <= m < k <= fs.len(),
        !is_or(fs[m]),
    ensures
        flattened(fs, k, env.bound, env.renaming, env.reserved, env.queried).0.contains(
            renamed_fact(fs[m], env.renaming),
        ),
    decreases k,
{
    let before = flattened(
        fs,
        (k - 1) as nat,
        env.bound,
        env.renaming,
        env.reserved,
        env.queried,
    );
    let all = flattened(fs, k, env.bound, env.renaming, env.reserved, env.queried);
    let f = renamed_fact(fs[m], env.renaming);
    if m < k - 1 {
        lemma_query_has_plain(fs, (k - 1) as nat, env, m);
        let i = choose|i: int| 0 <= i < before.0.len() && before.0[i] == f;
        assert(all.0[i] == f);
    } else {
        assert(all.0[before.0.len() as int] == f);
    }
}

/// Where the query of a conjunction fits, so do its plain facts.
proof fn lemma_plain_facts_fit(
    fs: Seq<FactModel>,
    env: Env,
    sig: Signature,
    program: Seq<CommandModel>,
)
    requires
        facts_fit(
            flattened(fs, fs.len(), env.bound, env.renaming, env.reserved, env.queried).0,
            sig,
            program,
            env.sorts,
        ),
    ensures
        facts_fit(plain_facts(fs), sig, program, env_sorts(env)),
{
    let plain = plain_facts(fs);
    let query = flattened(fs, fs.len(), env.bound, env.renaming, env.reserved, env.queried).0;
    lemma_plain_facts(fs);
    assert forall|i: int| 0 <= i < plain.len() implies fact_fits(
        #[trigger] plain[i],
        sig,
        program,
        env_sorts(env),
    ) by {
        assert(plain.contains(plain[i]));
        let m = choose|m: int| 0 <= m < fs.len() && fs[m] == plain[i];
        lemma_query_has_plain(fs, fs.len(), env, m);
        let f = renamed_fact(fs[m], env.renaming);
        let j = choose|j: int| 0 <= j < query.len() && query[j] == f;
        assert(fact_fits(query[j], sig, program, env.sorts));
        lemma_renamed_fits(fs[m], env.renaming, sig, program, env.sorts);
    }
}

proof fn lemma_facts_types(
    fs: Seq<FactModel>,
    k: nat,
    env: Env,
    n: nat,
    sig: Signature,
    program: Seq<CommandModel>,
)
    requires
        k <= fs.len(),
        lowered_facts(fs, k, env, n).result is Ok,
        within(lowered_facts(fs, k, env, n).aux, program),
        context_binds(env),
        facts_fit(env.context, sig, program, env_sorts(env)),
        facts_fit(plain_facts(fs), sig, program, env_sorts(env)),
        facts_fit(
            flattened(fs, k, env.bound, env.renaming, env.reserved, env.queried).0,
            sig,
            program,
            env.sorts,
        ),
    ensures
        facts_fit(lowered_facts(fs, k, env, n).result->Ok_0, sig, program, env_sorts(env)),
        rules_fit(lowered_facts(fs, k, env, n).aux, sig, program),
    decreases fs, k,
{
    if k > 0 {
        let before = lowered_facts(fs, (k - 1) as nat, env, n);
        let done = before.result->Ok_0;
        let flat = flattened(
            fs,
            (k - 1) as nat,
            env.bound,
            env.renaming,
            env.reserved,
            env.queried,
        );
        match fs[k - 1] {
            FactModel::Or(span, branches) => {
                let inner = surroundings_of(fs, k - 1, env);
                let or = lowered_or(span, branches, inner, before.next);
                let more = flattened_branches(
                    span,
                    branches,
                    branches.len(),
                    inner.bound,
                    env.renaming,
                    env.reserved,
                    flat.1,
                ).0;
                lemma_within_add(before.aux, or.aux, program);
                lemma_facts_fit_add(flat.0, more, sig, program, env.sorts);
                lemma_facts_types(fs, (k - 1) as nat, env, n, sig, program);
                lemma_context_binds(fs, k - 1, env);
                lemma_facts_fit_add(env.context, plain_facts(fs), sig, program, env_sorts(env));
                lemma_or_types(span, branches, inner, before.next, sig, program);
                lemma_rules_fit_add(before.aux, or.aux, sig, program);
                let one = seq![or.result->Ok_0];
                assert(one[0] == or.result->Ok_0);
                assert(done.push(or.result->Ok_0) =~= done + one);
                lemma_facts_fit_add(done, one, sig, program, env_sorts(env));
            },
            f => {
                let one = seq![f];
                let renamed = seq![renamed_fact(f, env.renaming)];
                assert(flat.0.push(renamed[0]) =~= flat.0 + renamed);
                lemma_facts_fit_add(flat.0, renamed, sig, program, env.sorts);
                lemma_facts_types(fs, (k - 1) as nat, env, n, sig, program);
                assert(fact_fits(renamed[0], sig, program, env.sorts));
                lemma_renamed_fits(f, env.renaming, sig, program, env.sorts);
                assert(one[0] == f);
                assert(done.push(f) =~= done + one);
                lemma_facts_fit_add(done, one, sig, program, env_sorts(env));
            },
        }
    }
}

/// A branch sees the surrounding variables with the sorts that they have outside.
proof fn lemma_branch_sorts(span: Span, bs: Seq<Seq<FactModel>>, i: int, env: Env, v: Name)
    requires
        0 <= i < bs.len(),
        env.bound.contains(v) || is_global_name(v) || visible(
            FactModel::Or(span, bs),
            env.bound,
            v,
        ),
    ensures
        env_sorts(env).contains_key(v) <==> env_sorts(branch_env(span, bs, i, env)).contains_key(v),
        env_sorts(env).contains_key(v) ==> env_sorts(env)[v] == env_sorts(
            branch_env(span, bs, i, env),
        )[v],
        renamed_var(v, branch_env(span, bs, i, env).renaming) == renamed_var(v, env.renaming),
{
    let or = FactModel::Or(span, bs);
    let locals = local_vars(or, i, env.bound);
    let queried = flattened_branches(
        span,
        bs,
        i as nat,
        env.bound,
        env.renaming,
        env.reserved,
        env.queried,
    ).1;
    lemma_locals(or, i, env.bound, v);
    lemma_visible_or(span, bs, env.bound, v);
    assert(!locals.contains(v));
    lemma_renamed_fresh(v, env.renaming, locals, env.reserved, queried);
    assert(branch_env(span, bs, i, env).renaming == env.renaming + fresh_names(
        locals,
        env.reserved,
        queried,
    ));
}

/// The surrounding facts fit in a branch as they do outside.
proof fn lemma_context_fits(
    span: Span,
    bs: Seq<Seq<FactModel>>,
    i: int,
    env: Env,
    sig: Signature,
    program: Seq<CommandModel>,
)
    requires
        0 <= i < bs.len(),
        context_binds(env),
        facts_fit(env.context, sig, program, env_sorts(env)),
    ensures
        facts_fit(env.context, sig, program, env_sorts(branch_env(span, bs, i, env))),
{
    let inner = branch_env(span, bs, i, env);
    assert forall|v: Name| #[trigger]
        facts_mention(env.context, v) && env_sorts(env).contains_key(v) implies env_sorts(
        inner,
    ).contains_key(v) && env_sorts(inner)[v] == env_sorts(env)[v] by {
        law_facts_vars_are_mentioned(env.context, v);
        assert(is_global_name(v) || env.bound.contains(v));
        lemma_branch_sorts(span, bs, i, env, v);
    }
    assert(within(program, program)) by {
        assert forall|j: int| 0 <= j < program.len() implies program.contains(
            #[trigger] program[j],
        ) by {}
    }
    lemma_facts_fit_move(
        env.context,
        sig,
        program,
        env_sorts(env),
        program,
        env_sorts(inner),
    );
}

proof fn lemma_branches_types(
    span: Span,
    bs: Seq<Seq<FactModel>>,
    k: nat,
    env: Env,
    n: nat,
    sig: Signature,
    program: Seq<CommandModel>,
)
    requires
        k <= bs.len(),
        lowered_branches(span, bs, k, env, n).result is Ok,
        within(lowered_branches(span, bs, k, env, n).aux, program),
        context_binds(env),
        facts_fit(env.context, sig, program, env_sorts(env)),
        facts_fit(
            flattened_branches(
                span,
                bs,
                k,
                env.bound,
                env.renaming,
                env.reserved,
                env.queried,
            ).0,
            sig,
            program,
            env.sorts,
        ),
    ensures
        lowered_branches(span, bs, k, env, n).result->Ok_0.len() == k,
        forall|i: int|
            #![trigger lowered_branches(span, bs, k, env, n).result->Ok_0[i]]
            0 <= i < k ==> facts_fit(
                lowered_branches(span, bs, k, env, n).result->Ok_0[i],
                sig,
                program,
                env_sorts(branch_env(span, bs, i, env)),
            ),
        rules_fit(lowered_branches(span, bs, k, env, n).aux, sig, program),
    decreases bs, k,
{
    if k > 0 {
        let before = lowered_branches(span, bs, (k - 1) as nat, env, n);
        let done = before.result->Ok_0;
        let flat = flattened_branches(
            span,
            bs,
            (k - 1) as nat,
            env.bound,
            env.renaming,
            env.reserved,
            env.queried,
        );
        let fs = bs[k - 1];
        let inner = branch_env(span, bs, k - 1, env);
        let branch = lowered_facts(fs, fs.len(), inner, before.next);
        let more = flattened(
            fs,
            fs.len(),
            inner.bound,
            inner.renaming,
            inner.reserved,
            inner.queried,
        ).0;
        lemma_within_add(before.aux, branch.aux, program);
        lemma_facts_fit_add(flat.0, more, sig, program, env.sorts);
        lemma_branches_types(span, bs, (k - 1) as nat, env, n, sig, program);
        lemma_context_fits(span, bs, k - 1, env, sig, program);
        lemma_plain_facts_fit(fs, inner, sig, program);
        assert(context_binds(inner));
        lemma_facts_types(fs, fs.len(), inner, before.next, sig, program);
        lemma_rules_fit_add(before.aux, branch.aux, sig, program);
        let all = lowered_branches(span, bs, k, env, n).result->Ok_0;
        assert forall|i: int| #![trigger all[i]] 0 <= i < k implies facts_fit(
            all[i],
            sig,
            program,
            env_sorts(branch_env(span, bs, i, env)),
        ) by {
            if i < k - 1 {
                assert(all[i] == done[i]);
            }
        }
    }
}

/// A relation applied to its key fits where the key variables have the sorts of its columns.
proof fn lemma_key_atom_fits(
    span: Span,
    relation: Name,
    key: Seq<Name>,
    columns: Seq<Name>,
    sig: Signature,
    program: Seq<CommandModel>,
    sorts: Map<Name, Name>,
)
    requires
        declares_columns(program, relation, columns),
        columns.len() == key.len(),
        forall|i: int|
            0 <= i < key.len() ==> sorts.contains_key(#[trigger] key[i]) && sorts[key[i]]
                == columns[i],
    ensures
        has_sort(key_atom(span, relation, key), sig, program, sorts, sig.unit),
{
    match key_atom(span, relation, key) {
        ExprModel::Call(_, f, args) => {
            assert forall|i: int| 0 <= i < args.len() implies has_sort(
                #[trigger] args[i],
                sig,
                program,
                sorts,
                columns[i],
            ) by {
                assert(args[i] == ExprModel::Var(span, key[i]));
                assert(sorts.contains_key(key[i]));
            }
            assert(have_sorts(args, sig, program, sorts, columns));
            assert(takes(sig, program, f, columns, sig.unit));
        },
        _ => {},
    }
}

proof fn lemma_or_types(
    span: Span,
    bs: Seq<Seq<FactModel>>,
    env: Env,
    n: nat,
    sig: Signature,
    program: Seq<CommandModel>,
)
    requires
        lowered_or(span, bs, env, n).result is Ok,
        within(lowered_or(span, bs, env, n).aux, program),
        context_binds(env),
        facts_fit(env.context, sig, program, env_sorts(env)),
        facts_fit(
            flattened_branches(
                span,
                bs,
                bs.len(),
                env.bound,
                env.renaming,
                env.reserved,
                env.queried,
            ).0,
            sig,
            program,
            env.sorts,
        ),
    ensures
        fact_fits(lowered_or(span, bs, env, n).result->Ok_0, sig, program, env_sorts(env)),
        rules_fit(lowered_or(span, bs, env, n).aux, sig, program),
    decreases bs, bs.len() + 1,
{
    let inner = lowered_branches(span, bs, bs.len(), env, n);
    let done = inner.result->Ok_0;
    let key = key_of(done, env.bound);
    let relation = nth_name(env.reserved, inner.next, relation_hint());
    let decl = relation_decl(span, key, relation, env.sorts, env.renaming);
    let columns = decl->inputs;
    let rules = branch_rules(span, done, key, relation, env, inner.next + 1);
    let own = seq![decl] + rules;
    lemma_within_add(inner.aux, own, program);
    lemma_branches_types(span, bs, bs.len(), env, n, sig, program);
    lemma_lowered_branches_vars(span, bs, bs.len(), env, n);
    assert(own[0] == decl);
    assert(program.contains(decl));
    let at = choose|at: int| 0 <= at < program.len() && program[at] == decl;
    assert(program[at] == decl);
    assert(declares_columns(program, relation, columns));
    let untyped = |v: Name| !env.sorts.contains_key(renamed_var(v, env.renaming));
    assert(first_untyped(key, env.sorts, env.renaming) is None);
    lemma_first_such_none(key, untyped);
    assert forall|i: int| 0 <= i < key.len() implies env_sorts(env).contains_key(
        #[trigger] key[i],
    ) && env_sorts(env)[key[i]] == columns[i] by {
        assert(key.contains(key[i]));
        assert(!untyped(key[i]));
    }
    lemma_key_atom_fits(span, relation, key, columns, sig, program, env_sorts(env));
    assert(has_sort(key_atom(span, relation, key), sig, program, env_sorts(env), sig.unit));
    assert forall|j: int| 0 <= j < own.len() implies (#[trigger] own[j] matches CommandModel::Rule {
        rule,
    } ==> rule_fits(rule, sig, program)) by {
        if j > 0 {
            let i = j - 1;
            assert(own[j] == rules[i]);
            let sorts = env_sorts(branch_env(span, bs, i, env));
            let rule = own[j]->rule;
            lemma_context_fits(span, bs, i, env, sig, program);
            assert(facts_fit(done[i], sig, program, sorts));
            lemma_facts_fit_add(env.context, done[i], sig, program, sorts);
            assert(rule.body == branch_body(done[i], key, env.bound, env.context));
            assert forall|m: int| 0 <= m < key.len() implies sorts.contains_key(#[trigger] key[m])
                && sorts[key[m]] == columns[m] by {
                assert(key.contains(key[m]));
                lemma_key_visible(span, bs, done, env.bound, key[m]);
                lemma_branch_sorts(span, bs, i, env, key[m]);
                assert(env_sorts(env).contains_key(key[m]));
            }
            lemma_key_atom_fits(span, relation, key, columns, sig, program, sorts);
            assert(has_sort(key_atom(span, relation, key), sig, program, sorts, sig.unit));
            assert forall|k: int| 0 <= k < rule.head.len() implies (
            #[trigger] rule.head[k] matches ActionModel::Expr(_, e) && exists|sort: Name|
                #[trigger] has_sort(e, sig, program, sorts, sort)) by {
                assert(rule.head[k] == ActionModel::Expr(span, key_atom(span, relation, key)));
            }
            assert(facts_fit(rule.body, sig, program, sorts));
        }
    }
    lemma_rules_fit_add(inner.aux, own, sig, program);
}

/// Lowering preserves types. Where the typing query fits a signature under the sorts that
/// were found, every generated rule fits the signature together with the generated
/// relations, under some sorts of its variables, and the lowered body does under the very
/// sorts that were found. So every column has the sort of the variable that is put into it
/// and read from it.
pub proof fn law_lowering_preserves_types(
    rule: RuleModel,
    sorts: Map<Name, Name>,
    reserved: Name,
    queried: nat,
    n: nat,
    sig: Signature,
)
    requires
        lowered_rule(rule, sorts, reserved, queried, n).0 is Ok,
        facts_fit(typing_query(rule.body, reserved, queried).0, sig, seq![], sorts),
    ensures
        rules_fit(
            lowered_rule(rule, sorts, reserved, queried, n).0->Ok_0.drop_last(),
            sig,
            lowered_rule(rule, sorts, reserved, queried, n).0->Ok_0.drop_last(),
        ),
        lowered_rule(rule, sorts, reserved, queried, n).0->Ok_0.last() matches CommandModel::Rule {
            rule: lowered,
        } && facts_fit(
            lowered.body,
            sig,
            lowered_rule(rule, sorts, reserved, queried, n).0->Ok_0.drop_last(),
            sorts,
        ),
{
    let env = rule_env(rule, sorts, reserved, queried);
    let outcome = lowered_facts(rule.body, rule.body.len(), env, n);
    let program = outcome.aux;
    let query = typing_query(rule.body, reserved, queried).0;
    assert(lowered_rule(rule, sorts, reserved, queried, n).0->Ok_0.drop_last() =~= program);
    assert(within(program, program)) by {
        assert forall|j: int| 0 <= j < program.len() implies program.contains(
            #[trigger] program[j],
        ) by {}
    }
    assert(env_sorts(env) =~= sorts);
    assert(facts_occurrences(env.context) =~= Seq::<Name>::empty());
    lemma_facts_fit_move(query, sig, seq![], sorts, program, sorts);
    lemma_plain_facts_fit(rule.body, env, sig, program);
    lemma_facts_types(rule.body, rule.body.len(), env, n, sig, program);
}

} // verus!
