//! The sorts of a rule's variables, as a type environment finds them.

use vstd::prelude::*;

use crate::ast::{Fact, Literal, Name, Span};
use crate::error::TypeError;
use crate::sorts::{
    answer_has_sorted, has_sorted, law_every_variable_of_an_answer_has_a_sort, lemma_first_sorts,
    lemma_resolved_occurrences,
};
use crate::symbol_gen::SymbolGen;

verus! {

/// A sort, known by its name.
#[derive(Debug, PartialEq, Eq)]
pub struct Sort {
    pub name: String,
}

/// A variable with the sort that the type environment gave it.
#[derive(Debug, PartialEq, Eq)]
pub struct ResolvedVar {
    pub name: String,
    pub sort: Sort,
}

/// An expression whose variables have sorts.
#[derive(Debug, PartialEq, Eq)]
pub enum ResolvedExpr {
    Lit(Span, Literal),
    Var(Span, ResolvedVar),
    Call(Span, String, Vec<ResolvedExpr>),
}

/// A fact whose variables have sorts.
#[derive(Debug, PartialEq, Eq)]
pub enum ResolvedFact {
    Eq(Span, ResolvedExpr, ResolvedExpr),
    Fact(ResolvedExpr),
}

/// A type environment. It knows the functions and relations that facts speak of.
///
/// Nothing is promised of what an environment answers: the lowering is right whatever
/// sorts come back.
pub trait TypeInfo {
    /// Resolves the variables of a conjunction of plain facts to sorts. An environment
    /// that needs names of its own takes them from the supply, which it gives back.
    fn typecheck_facts(&self, symbol_gen: SymbolGen, facts: &Vec<Fact>) -> (
        Result<Vec<ResolvedFact>, TypeError>,
        SymbolGen,
    );
}

/// The variables of a resolved expression with the names of their sorts, in the order
/// of their occurrences.
pub open spec fn resolved_occurrences(e: ResolvedExpr) -> Seq<(Name, Name)>
    decreases e,
{
    match e {
        ResolvedExpr::Lit(_, _) => seq![],
        ResolvedExpr::Var(_, v) => seq![(v.name@, v.sort.name@)],
        ResolvedExpr::Call(_, _, args) => resolved_list_occurrences(args@),
    }
}

/// The variables of a list of resolved expressions, likewise.
pub open spec fn resolved_list_occurrences(es: Seq<ResolvedExpr>) -> Seq<(Name, Name)>
    decreases es,
{
    if es.len() == 0 {
        seq![]
    } else {
        resolved_list_occurrences(es.drop_last()) + resolved_occurrences(es.last())
    }
}

/// The variables of a list of resolved facts, likewise.
pub open spec fn resolved_facts_occurrences(fs: Seq<ResolvedFact>) -> Seq<(Name, Name)>
    decreases fs.len(),
{
    if fs.len() == 0 {
        seq![]
    } else {
        resolved_facts_occurrences(fs.drop_last()) + match fs.last() {
            ResolvedFact::Eq(_, e1, e2) => resolved_occurrences(e1) + resolved_occurrences(e2),
            ResolvedFact::Fact(e) => resolved_occurrences(e),
        }
    }
}

/// The sort that each variable is first seen with, after what a map holds already.
pub open spec fn first_sorts(sorts: Map<Name, Name>, seen: Seq<(Name, Name)>) -> Map<Name, Name>
    decreases seen.len(),
{
    if seen.len() == 0 {
        sorts
    } else {
        let before = first_sorts(sorts, seen.drop_last());
        if before.contains_key(seen.last().0) {
            before
        } else {
            before.insert(seen.last().0, seen.last().1)
        }
    }
}

pub proof fn lemma_first_sorts_add(
    sorts: Map<Name, Name>,
    a: Seq<(Name, Name)>,
    b: Seq<(Name, Name)>,
)
    ensures
        first_sorts(sorts, a + b) == first_sorts(first_sorts(sorts, a), b),
    decreases b.len(),
{
    if b.len() == 0 {
        assert(a + b =~= a);
    } else {
        assert((a + b).drop_last() =~= a + b.drop_last());
        lemma_first_sorts_add(sorts, a, b.drop_last());
    }
}

/// The sort of each variable of a rule.
#[derive(Debug)]
pub struct SortMap {
    entries: Vec<(String, String)>,
}

impl View for SortMap {
    type V = Map<Name, Name>;

    closed spec fn view(&self) -> Map<Name, Name> {
        first_sorts(Map::empty(), self.pairs())
    }
}

impl SortMap {
    spec fn pairs(&self) -> Seq<(Name, Name)> {
        Seq::new(self.entries@.len(), |i: int| (self.entries@[i].0@, self.entries@[i].1@))
    }

    /// The map that gives no variable a sort.
    pub fn new() -> (map: SortMap)
        ensures
            map@ == Map::<Name, Name>::empty(),
    {
        let map = SortMap { entries: Vec::new() };
        assert(map.pairs() =~= Seq::<(Name, Name)>::empty());
        map
    }

    /// The name of a variable's sort, if the variable has one.
    pub fn get(&self, v: &String) -> (sort: Option<&String>)
        ensures
            sort is Some <==> self@.contains_key(v@),
            sort matches Some(s) ==> s@ == self@[v@],
    {
        let mut i: usize = 0;
        assert(self.pairs().take(0) =~= Seq::<(Name, Name)>::empty());
        while i < self.entries.len()
            invariant
                i <= self.entries.len(),
                !first_sorts(Map::empty(), self.pairs().take(i as int)).contains_key(v@),
            decreases self.entries.len() - i,
        {
            proof {
                assert(self.pairs().take(i + 1).drop_last() =~= self.pairs().take(i as int));
            }
            if self.entries[i].0 == *v {
                proof {
                    lemma_first_sorts_keep(self.pairs(), i + 1, v@);
                }
                return Some(&self.entries[i].1);
            }
            i = i + 1;
        }
        assert(self.pairs().take(i as int) =~= self.pairs());
        None
    }

    /// Gives a variable a sort, unless it has one already.
    pub fn or_insert(&mut self, v: String, sort: String)
        ensures
            final(self)@ == first_sorts(old(self)@, seq![(v@, sort@)]),
            final(self)@ == if old(self)@.contains_key(v@) {
                old(self)@
            } else {
                old(self)@.insert(v@, sort@)
            },
    {
        proof {
            let one = seq![(v@, sort@)];
            assert(one.drop_last() =~= Seq::<(Name, Name)>::empty());
            assert(first_sorts(self@, one.drop_last()) == self@);
        }
        let known = match self.get(&v) {
            Some(_) => true,
            None => false,
        };
        if !known {
            self.entries.push((v, sort));
            proof {
                assert(self.pairs().drop_last() =~= old(self).pairs());
            }
        }
    }
}

proof fn lemma_first_sorts_keep(seen: Seq<(Name, Name)>, i: int, v: Name)
    requires
        0 <= i <= seen.len(),
        first_sorts(Map::empty(), seen.take(i)).contains_key(v),
    ensures
        first_sorts(Map::empty(), seen).contains_key(v),
        first_sorts(Map::empty(), seen)[v] == first_sorts(Map::empty(), seen.take(i))[v],
    decreases seen.len(),
{
    if i == seen.len() {
        assert(seen.take(i) =~= seen);
    } else {
        assert(seen.drop_last().take(i) =~= seen.take(i));
        lemma_first_sorts_keep(seen.drop_last(), i, v);
    }
}

/// Records the sort of every variable of a resolved expression that has none yet.
pub fn collect_resolved_var_sorts(expr: &ResolvedExpr, out: &mut SortMap)
    ensures
        final(out)@ == first_sorts(old(out)@, resolved_occurrences(*expr)),
        forall|v: Name| #[trigger]
            old(out)@.contains_key(v) ==> final(out)@.contains_key(v) && final(out)@[v] == old(
                out,
            )@[v],
        forall|v: Name, sort: Name| #[trigger]
            has_sorted(*expr, v, sort) ==> final(out)@.contains_key(v),
        forall|v: Name| #[trigger]
            final(out)@.contains_key(v) && !old(out)@.contains_key(v) ==> has_sorted(
                *expr,
                v,
                final(out)@[v],
            ),
    decreases expr,
{
    match expr {
        ResolvedExpr::Var(_, v) => {
            out.or_insert(v.name.clone(), v.sort.name.clone());
        },
        ResolvedExpr::Call(_, _, args) => {
            let mut i: usize = 0;
            while i < args.len()
                invariant
                    i <= args.len(),
                    decreases_to!(expr => args),
                    out@ == first_sorts(
                        old(out)@,
                        resolved_list_occurrences(args@.take(i as int)),
                    ),
                decreases args.len() - i,
            {
                collect_resolved_var_sorts(&args[i], out);
                proof {
                    assert(args@.take(i + 1).drop_last() =~= args@.take(i as int));
                    lemma_first_sorts_add(
                        old(out)@,
                        resolved_list_occurrences(args@.take(i as int)),
                        resolved_occurrences(args[i as int]),
                    );
                }
                i = i + 1;
            }
            assert(args@.take(i as int) =~= args@);
        },
        ResolvedExpr::Lit(_, _) => {},
    }
    proof {
        let seen = resolved_occurrences(*expr);
        assert forall|v: Name, sort: Name| #[trigger]
            has_sorted(*expr, v, sort) implies out@.contains_key(v) by {
            lemma_resolved_occurrences(*expr, v, sort);
            lemma_first_sorts(old(out)@, seen, v);
            assert(seen.contains((v, sort)));
        }
        assert forall|v: Name| #[trigger] old(out)@.contains_key(v) implies out@.contains_key(v)
            && out@[v] == old(out)@[v] by {
            lemma_first_sorts(old(out)@, seen, v);
        }
        assert forall|v: Name| #[trigger]
            out@.contains_key(v) && !old(out)@.contains_key(v) implies has_sorted(
            *expr,
            v,
            out@[v],
        ) by {
            lemma_first_sorts(old(out)@, seen, v);
            lemma_resolved_occurrences(*expr, v, out@[v]);
        }
    }
}

/// The sort of every variable of a list of resolved facts.
pub fn resolved_var_sorts(facts: &Vec<ResolvedFact>) -> (sorts: SortMap)
    ensures
        sorts@ == first_sorts(Map::empty(), resolved_facts_occurrences(facts@)),
        forall|v: Name, sort: Name| #[trigger]
            answer_has_sorted(facts@, v, sort) ==> sorts@.contains_key(v),
        forall|v: Name| #[trigger]
            sorts@.contains_key(v) ==> answer_has_sorted(facts@, v, sorts@[v]),
{
    let mut out = SortMap::new();
    let mut i: usize = 0;
    while i < facts.len()
        invariant
            i <= facts.len(),
            out@ == first_sorts(Map::empty(), resolved_facts_occurrences(facts@.take(i as int))),
        decreases facts.len() - i,
    {
        proof {
            assert(facts@.take(i + 1).drop_last() =~= facts@.take(i as int));
        }
        let ghost before = resolved_facts_occurrences(facts@.take(i as int));
        match &facts[i] {
            ResolvedFact::Eq(_, e1, e2) => {
                collect_resolved_var_sorts(e1, &mut out);
                collect_resolved_var_sorts(e2, &mut out);
                proof {
                    let a = resolved_occurrences(*e1);
                    let b = resolved_occurrences(*e2);
                    lemma_first_sorts_add(Map::empty(), before, a);
                    lemma_first_sorts_add(Map::empty(), before + a, b);
                    assert(before + a + b =~= before + (a + b));
                }
            },
            ResolvedFact::Fact(e) => {
                collect_resolved_var_sorts(e, &mut out);
                proof {
                    lemma_first_sorts_add(Map::empty(), before, resolved_occurrences(*e));
                }
            },
        }
        i = i + 1;
    }
    assert(facts@.take(i as int) =~= facts@);
    proof {
        assert forall|v: Name, sort: Name| #[trigger]
            answer_has_sorted(facts@, v, sort) implies out@.contains_key(v) by {
            law_every_variable_of_an_answer_has_a_sort(facts@, v);
        }
        assert forall|v: Name| #[trigger] out@.contains_key(v) implies answer_has_sorted(
            facts@,
            v,
            out@[v],
        ) by {
            law_every_variable_of_an_answer_has_a_sort(facts@, v);
        }
    }
    out
}

} // verus!
