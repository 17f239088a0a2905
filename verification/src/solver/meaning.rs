//! What the terms mean: the value of a term under an assignment of values
//! to the variables.

use super::term::{Sort, TermView};
use crate::package::constraint::clause::variable_term;
use crate::package::constraint::tree::Constraint;
use crate::package::order::text_order;
use crate::package::planner::{pin_assertion, with_constraint, Planned};
use crate::package::registry::EntryView;
use crate::package::version::PartView;
use crate::spec::spec_option::ValueView;
use vstd::prelude::*;

verus! {

/// A value that a term can have.
pub enum Meaning {
    Bool(bool),
    Int(int),
    Float(u64),
    Str(Seq<char>),
}

/// An assignment of values to the variables, each known by name and sort.
pub type Assignment = Map<(Seq<char>, Sort), Meaning>;

/// The truth value that `v` is; false where it is none.
pub open spec fn truth(v: Meaning) -> bool {
    v == Meaning::Bool(true)
}

/// The integer that `v` is; zero where it is none.
pub open spec fn number(v: Meaning) -> int {
    match v {
        Meaning::Int(i) => i,
        _ => 0,
    }
}

/// Whether `a` is below `b`: numbers by size, texts in the order of the
/// dictionary.
pub open spec fn below(a: Meaning, b: Meaning) -> bool {
    match (a, b) {
        (Meaning::Int(x), Meaning::Int(y)) => x < y,
        (Meaning::Str(x), Meaning::Str(y)) => text_order(x, y) < 0,
        _ => false,
    }
}

/// The value of `t` under `m`.
pub open spec fn value_of(t: TermView, m: Assignment) -> Meaning
    decreases t,
{
    match t {
        TermView::Var(name, sort) => m[(name, sort)],
        TermView::Bool(b) => Meaning::Bool(b),
        TermView::Int(i) => Meaning::Int(i),
        TermView::Float(bits) => Meaning::Float(bits),
        TermView::Str(s) => Meaning::Str(s),
        TermView::Not(a) => Meaning::Bool(!truth(value_of(*a, m))),
        TermView::Implies(a, b) => Meaning::Bool(
            !truth(value_of(*a, m)) || truth(value_of(*b, m)),
        ),
        TermView::And(a, b) => Meaning::Bool(truth(value_of(*a, m)) && truth(value_of(*b, m))),
        TermView::Or(a, b) => Meaning::Bool(truth(value_of(*a, m)) || truth(value_of(*b, m))),
        TermView::Eq(a, b) => Meaning::Bool(value_of(*a, m) == value_of(*b, m)),
        TermView::Ne(a, b) => Meaning::Bool(value_of(*a, m) != value_of(*b, m)),
        TermView::Lt(a, b) => Meaning::Bool(below(value_of(*a, m), value_of(*b, m))),
        TermView::Le(a, b) => Meaning::Bool(
            below(value_of(*a, m), value_of(*b, m)) || value_of(*a, m) == value_of(*b, m),
        ),
        TermView::Gt(a, b) => Meaning::Bool(below(value_of(*b, m), value_of(*a, m))),
        TermView::Ge(a, b) => Meaning::Bool(
            below(value_of(*b, m), value_of(*a, m)) || value_of(*a, m) == value_of(*b, m),
        ),
        TermView::Ite(c, a, b) => if truth(value_of(*c, m)) {
            value_of(*a, m)
        } else {
            value_of(*b, m)
        },
        TermView::Add(a, b) => Meaning::Int(number(value_of(*a, m)) + number(value_of(*b, m))),
    }
}

/// Whether `t` holds under `m`.
pub open spec fn holds(t: TermView, m: Assignment) -> bool {
    truth(value_of(t, m))
}

/// Whether the switch of `package` is off under `m`.
pub open spec fn switched_off(table: Seq<EntryView>, package: Seq<char>, m: Assignment) -> bool {
    variable_term(table, package, None) matches Ok(toggle) && !holds(toggle, m)
}

/// A package that is switched off imposes nothing by its constraints:
/// what a constraint of the package adds to the assertions holds under
/// every assignment under which the switch of the package is off,
/// whatever the options are.
pub proof fn lemma_switched_off_constraint_holds(
    done: Planned,
    table: Seq<EntryView>,
    versions: Seq<Seq<PartView>>,
    package: Seq<char>,
    c: Constraint,
    m: Assignment,
)
    requires
        switched_off(table, package, m),
        with_constraint(done, table, versions, package, c) is Ok,
    ensures
        ({
            let after = with_constraint(done, table, versions, package, c)->Ok_0;
            after.assertions == done.assertions || (after.assertions.len() == done.assertions.len()
                + 1 && after.assertions.drop_last() == done.assertions && holds(
                after.assertions.last().term,
                m,
            ))
        }),
{
    let after = with_constraint(done, table, versions, package, c)->Ok_0;
    if after.assertions != done.assertions {
        assert(after.assertions.drop_last() =~= done.assertions);
    }
}

/// A package that is switched off imposes nothing by its fixed options:
/// the assertion for a fixed option holds under every assignment under
/// which the switch of the package is off.
pub proof fn lemma_switched_off_pin_holds(
    table: Seq<EntryView>,
    versions: Seq<Seq<PartView>>,
    package: Seq<char>,
    option: Seq<char>,
    value: ValueView,
    m: Assignment,
)
    requires
        switched_off(table, package, m),
        pin_assertion(table, versions, package, option, value) is Ok,
    ensures
        holds(pin_assertion(table, versions, package, option, value)->Ok_0.term, m),
{
}

} // verus!
