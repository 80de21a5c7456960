//! Disjunction (`or`) in the bodies of rules over relations and functions.
//!
//! A rule body may hold a disjunction of conjunctions. This library lowers such a rule to
//! plain rules: each disjunction becomes an internal relation, with one rule for each of
//! its branches that fills it. See [`lowering`] for how that is done and
//! [`commands::lower_disjunctions`] for where it starts.
//!
//! [`semantics`] says what facts and rules mean, and [`laws`] that the lowered rules mean
//! what the rule did. What else holds of every lowering is proved in [`shape`], [`calls`],
//! [`joins`], [`numbering`], [`order`], [`filling`], [`rounds`], [`query`] and [`success`]:
//!
//! - [`types`] and [`columns`] say that what is generated is well typed;
//! - [`places`] and [`attributes`] say what takes the place of the facts of a rule, and what
//!   the generated rules inherit;
//! - [`mentions`], [`visibility`] and [`limits`] say, from the syntax, which variables are used,
//!   seen and limited where;
//! - [`sorts`] and [`independence`] say what the typing query and its answer come to;
//! - [`asking`] says what a type environment is asked and what follows from its reply;
//! - [`placement`] and [`faults`] say what is rejected, and for what;
//! - [`models`] says that nothing is lost in the models that contracts speak of.

pub mod asking;
pub mod ast;
pub mod attributes;
pub mod calls;
pub mod columns;
pub mod commands;
pub mod error;
pub mod faults;
pub mod filling;
pub mod flatten;
pub mod generated;
pub mod independence;
pub mod index_set;
pub mod joins;
pub mod laws;
pub mod limits;
pub mod lowered_vars;
pub mod lowering;
pub mod materialize;
pub mod mentions;
pub mod models;
pub mod numbering;
pub mod order;
pub mod placement;
pub mod places;
pub mod query;
pub mod rounds;
pub mod scope;
pub mod semantics;
pub mod shape;
pub mod sorts;
pub mod success;
pub mod symbol_gen;
pub mod types;
pub mod typing;
pub mod vars;
pub mod visibility;
