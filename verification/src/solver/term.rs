//! The terms of which the problem for the solver is made.

use crate::spec::spec_option::SpecOptionType;
use vstd::prelude::*;

verus! {

/// The sort of a term.
#[derive(Debug, Clone, Copy, PartialEq, Eq, Structural)]
pub enum Sort {
    Bool,
    Int,
    Float,
    Str,
}

/// A term of the solver's language.
///
/// `Index` is an integer that is no less than zero; `Float` holds the bits
/// of a double.
#[derive(Debug)]
pub enum Term {
    Var(String, Sort),
    Bool(bool),
    Int(i64),
    Index(u64),
    Float(u64),
    Str(String),
    Not(Box<Term>),
    Implies(Box<Term>, Box<Term>),
    And(Box<Term>, Box<Term>),
    Or(Box<Term>, Box<Term>),
    Eq(Box<Term>, Box<Term>),
    Ne(Box<Term>, Box<Term>),
    Lt(Box<Term>, Box<Term>),
    Le(Box<Term>, Box<Term>),
    Gt(Box<Term>, Box<Term>),
    Ge(Box<Term>, Box<Term>),
    Ite(Box<Term>, Box<Term>, Box<Term>),
    Add(Box<Term>, Box<Term>),
}

/// What a term is, as a value of mathematics.
pub enum TermView {
    Var(Seq<char>, Sort),
    Bool(bool),
    Int(int),
    Float(u64),
    Str(Seq<char>),
    Not(Box<TermView>),
    Implies(Box<TermView>, Box<TermView>),
    And(Box<TermView>, Box<TermView>),
    Or(Box<TermView>, Box<TermView>),
    Eq(Box<TermView>, Box<TermView>),
    Ne(Box<TermView>, Box<TermView>),
    Lt(Box<TermView>, Box<TermView>),
    Le(Box<TermView>, Box<TermView>),
    Gt(Box<TermView>, Box<TermView>),
    Ge(Box<TermView>, Box<TermView>),
    Ite(Box<TermView>, Box<TermView>, Box<TermView>),
    Add(Box<TermView>, Box<TermView>),
}

/// What a term is, as a value of mathematics.
pub open spec fn term_view(t: Term) -> TermView
    decreases t,
{
    match t {
        Term::Var(name, sort) => TermView::Var(name@, sort),
        Term::Bool(b) => TermView::Bool(b),
        Term::Int(i) => TermView::Int(i as int),
        Term::Index(i) => TermView::Int(i as int),
        Term::Float(bits) => TermView::Float(bits),
        Term::Str(s) => TermView::Str(s@),
        Term::Not(a) => TermView::Not(Box::new(term_view(*a))),
        Term::Implies(a, b) => TermView::Implies(Box::new(term_view(*a)), Box::new(term_view(*b))),
        Term::And(a, b) => TermView::And(Box::new(term_view(*a)), Box::new(term_view(*b))),
        Term::Or(a, b) => TermView::Or(Box::new(term_view(*a)), Box::new(term_view(*b))),
        Term::Eq(a, b) => TermView::Eq(Box::new(term_view(*a)), Box::new(term_view(*b))),
        Term::Ne(a, b) => TermView::Ne(Box::new(term_view(*a)), Box::new(term_view(*b))),
        Term::Lt(a, b) => TermView::Lt(Box::new(term_view(*a)), Box::new(term_view(*b))),
        Term::Le(a, b) => TermView::Le(Box::new(term_view(*a)), Box::new(term_view(*b))),
        Term::Gt(a, b) => TermView::Gt(Box::new(term_view(*a)), Box::new(term_view(*b))),
        Term::Ge(a, b) => TermView::Ge(Box::new(term_view(*a)), Box::new(term_view(*b))),
        Term::Ite(c, a, b) => TermView::Ite(
            Box::new(term_view(*c)),
            Box::new(term_view(*a)),
            Box::new(term_view(*b)),
        ),
        Term::Add(a, b) => TermView::Add(Box::new(term_view(*a)), Box::new(term_view(*b))),
    }
}

impl View for Term {
    type V = TermView;

    open spec fn view(&self) -> TermView {
        term_view(*self)
    }
}

/// The sort in which the solver holds values of the type `t`: versions are
/// held by their numbers.
pub open spec fn sort_for(t: SpecOptionType) -> Sort {
    match t {
        SpecOptionType::Bool => Sort::Bool,
        SpecOptionType::Int => Sort::Int,
        SpecOptionType::Float => Sort::Float,
        SpecOptionType::Str => Sort::Str,
        SpecOptionType::Version => Sort::Int,
    }
}

/// The sort of two terms that have one sort.
pub open spec fn common_sort(a: Option<Sort>, b: Option<Sort>) -> Option<Sort> {
    if a is Some && a == b {
        a
    } else {
        None
    }
}

/// The sort of a term, where the term is well sorted: truth values under
/// the connectives, one sort on both sides of a comparison, an order only
/// between numbers or texts, integers in a sum.
pub open spec fn sort_of(t: TermView) -> Option<Sort>
    decreases t,
{
    match t {
        TermView::Var(_, sort) => Some(sort),
        TermView::Bool(_) => Some(Sort::Bool),
        TermView::Int(_) => Some(Sort::Int),
        TermView::Float(_) => Some(Sort::Float),
        TermView::Str(_) => Some(Sort::Str),
        TermView::Not(a) => if sort_of(*a) == Some(Sort::Bool) {
            Some(Sort::Bool)
        } else {
            None
        },
        TermView::Implies(a, b) | TermView::And(a, b) | TermView::Or(a, b) => if sort_of(*a)
            == Some(Sort::Bool) && sort_of(*b) == Some(Sort::Bool) {
            Some(Sort::Bool)
        } else {
            None
        },
        TermView::Eq(a, b) | TermView::Ne(a, b) => if common_sort(sort_of(*a), sort_of(*b))
            is Some {
            Some(Sort::Bool)
        } else {
            None
        },
        TermView::Lt(a, b) | TermView::Le(a, b) | TermView::Gt(a, b) | TermView::Ge(a, b) => {
            match common_sort(sort_of(*a), sort_of(*b)) {
                Some(Sort::Bool) => None,
                Some(_) => Some(Sort::Bool),
                None => None,
            }
        },
        TermView::Ite(c, a, b) => if sort_of(*c) == Some(Sort::Bool) {
            common_sort(sort_of(*a), sort_of(*b))
        } else {
            None
        },
        TermView::Add(a, b) => if sort_of(*a) == Some(Sort::Int) && sort_of(*b) == Some(
            Sort::Int,
        ) {
            Some(Sort::Int)
        } else {
            None
        },
    }
}

/// The sort in which the solver holds values of the type `t`.
pub fn sort_of_type(t: SpecOptionType) -> (s: Sort)
    ensures
        s == sort_for(t),
{
    match t {
        SpecOptionType::Bool => Sort::Bool,
        SpecOptionType::Int => Sort::Int,
        SpecOptionType::Float => Sort::Float,
        SpecOptionType::Str => Sort::Str,
        SpecOptionType::Version => Sort::Int,
    }
}

impl Term {
    /// The sort of the term, where it is well sorted.
    pub fn sort(&self) -> (s: Option<Sort>)
        ensures
            s == sort_of(self@),
        decreases self,
    {
        match self {
            Term::Var(_, sort) => Some(*sort),
            Term::Bool(_) => Some(Sort::Bool),
            Term::Int(_) => Some(Sort::Int),
            Term::Index(_) => Some(Sort::Int),
            Term::Float(_) => Some(Sort::Float),
            Term::Str(_) => Some(Sort::Str),
            Term::Not(a) => match a.sort() {
                Some(Sort::Bool) => Some(Sort::Bool),
                _ => None,
            },
            Term::Implies(a, b) | Term::And(a, b) | Term::Or(a, b) => match (a.sort(), b.sort()) {
                (Some(Sort::Bool), Some(Sort::Bool)) => Some(Sort::Bool),
                _ => None,
            },
            Term::Eq(a, b) | Term::Ne(a, b) => match (a.sort(), b.sort()) {
                (Some(x), Some(y)) => if x == y {
                    Some(Sort::Bool)
                } else {
                    None
                },
                _ => None,
            },
            Term::Lt(a, b) | Term::Le(a, b) | Term::Gt(a, b) | Term::Ge(a, b) => match (
                a.sort(),
                b.sort(),
            ) {
                (Some(x), Some(y)) => if x == y && x != Sort::Bool {
                    Some(Sort::Bool)
                } else {
                    None
                },
                _ => None,
            },
            Term::Ite(c, a, b) => match (c.sort(), a.sort(), b.sort()) {
                (Some(Sort::Bool), Some(x), Some(y)) => if x == y {
                    Some(x)
                } else {
                    None
                },
                _ => None,
            },
            Term::Add(a, b) => match (a.sort(), b.sort()) {
                (Some(Sort::Int), Some(Sort::Int)) => Some(Sort::Int),
                _ => None,
            },
        }
    }

    /// A copy of the term.
    pub fn duplicate(&self) -> (t: Term)
        ensures
            t@ == self@,
        decreases self,
    {
        match self {
            Term::Var(name, sort) => Term::Var(name.clone(), *sort),
            Term::Bool(b) => Term::Bool(*b),
            Term::Int(i) => Term::Int(*i),
            Term::Index(i) => Term::Index(*i),
            Term::Float(bits) => Term::Float(*bits),
            Term::Str(s) => Term::Str(s.clone()),
            Term::Not(a) => Term::Not(Box::new(a.duplicate())),
            Term::Implies(a, b) => Term::Implies(Box::new(a.duplicate()), Box::new(b.duplicate())),
            Term::And(a, b) => Term::And(Box::new(a.duplicate()), Box::new(b.duplicate())),
            Term::Or(a, b) => Term::Or(Box::new(a.duplicate()), Box::new(b.duplicate())),
            Term::Eq(a, b) => Term::Eq(Box::new(a.duplicate()), Box::new(b.duplicate())),
            Term::Ne(a, b) => Term::Ne(Box::new(a.duplicate()), Box::new(b.duplicate())),
            Term::Lt(a, b) => Term::Lt(Box::new(a.duplicate()), Box::new(b.duplicate())),
            Term::Le(a, b) => Term::Le(Box::new(a.duplicate()), Box::new(b.duplicate())),
            Term::Gt(a, b) => Term::Gt(Box::new(a.duplicate()), Box::new(b.duplicate())),
            Term::Ge(a, b) => Term::Ge(Box::new(a.duplicate()), Box::new(b.duplicate())),
            Term::Ite(c, a, b) => Term::Ite(
                Box::new(c.duplicate()),
                Box::new(a.duplicate()),
                Box::new(b.duplicate()),
            ),
            Term::Add(a, b) => Term::Add(Box::new(a.duplicate()), Box::new(b.duplicate())),
        }
    }
}

} // verus!
