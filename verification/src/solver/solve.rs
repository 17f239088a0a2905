//! Putting a problem to the solver and reading its answer.

use super::engine::{
    aims_of, denotes, hard_of, is_one_of, labels_of, model_bool, model_int, model_text, no_nul,
    optimize_check, optimize_core, optimize_maximize, optimize_minimize, optimize_model,
    optimize_new, optimize_soft, optimize_track, plain_text, soft_of, z3_add, z3_and, z3_bool,
    z3_bool_const, z3_eq, z3_implies, z3_index, z3_int, z3_int_const, z3_int_le, z3_int_lt,
    z3_ite, z3_not, z3_or, z3_str, z3_str_const, z3_str_le, z3_str_lt, Verdict,
};
use super::problem::{Objective, ObjectiveView, Problem};
use super::term::{sort_for, sort_of, sort_of_type, Sort, Term, TermView};
use crate::package::error::SolverError;
use crate::package::registry::{bare_label, BuiltRegistry, EntryView};
use crate::package::version::all_digits;
use crate::util::parse::chars::{char_is_digit, is_digit};
use vstd::prelude::*;

verus! {

/// The term as the solver builds it: `!=` is the negation of `=`, and
/// "greater" is "less" with the sides exchanged.
pub open spec fn lowered(t: TermView) -> TermView
    decreases t,
{
    match t {
        TermView::Var(_, _) | TermView::Bool(_) | TermView::Int(_) | TermView::Float(_)
        | TermView::Str(_) => t,
        TermView::Not(a) => TermView::Not(Box::new(lowered(*a))),
        TermView::Implies(a, b) => TermView::Implies(
            Box::new(lowered(*a)),
            Box::new(lowered(*b)),
        ),
        TermView::And(a, b) => TermView::And(Box::new(lowered(*a)), Box::new(lowered(*b))),
        TermView::Or(a, b) => TermView::Or(Box::new(lowered(*a)), Box::new(lowered(*b))),
        TermView::Eq(a, b) => TermView::Eq(Box::new(lowered(*a)), Box::new(lowered(*b))),
        TermView::Ne(a, b) => TermView::Not(
            Box::new(TermView::Eq(Box::new(lowered(*a)), Box::new(lowered(*b)))),
        ),
        TermView::Lt(a, b) => TermView::Lt(Box::new(lowered(*a)), Box::new(lowered(*b))),
        TermView::Le(a, b) => TermView::Le(Box::new(lowered(*a)), Box::new(lowered(*b))),
        TermView::Gt(a, b) => TermView::Lt(Box::new(lowered(*b)), Box::new(lowered(*a))),
        TermView::Ge(a, b) => TermView::Le(Box::new(lowered(*b)), Box::new(lowered(*a))),
        TermView::Ite(c, a, b) => TermView::Ite(
            Box::new(lowered(*c)),
            Box::new(lowered(*a)),
            Box::new(lowered(*b)),
        ),
        TermView::Add(a, b) => TermView::Add(Box::new(lowered(*a)), Box::new(lowered(*b))),
    }
}

/// Whether the solver can take the term: it holds no floating-point
/// number, no name with the zero character, and no text but plain ones.
pub open spec fn supported(t: TermView) -> bool
    decreases t,
{
    match t {
        TermView::Var(name, sort) => no_nul(name) && sort != Sort::Float,
        TermView::Bool(_) => true,
        TermView::Int(_) => true,
        TermView::Float(_) => false,
        TermView::Str(s) => plain_text(s),
        TermView::Not(a) => supported(*a),
        TermView::Implies(a, b) | TermView::And(a, b) | TermView::Or(a, b) | TermView::Eq(a, b)
        | TermView::Ne(a, b) | TermView::Lt(a, b) | TermView::Le(a, b) | TermView::Gt(a, b)
        | TermView::Ge(a, b) | TermView::Add(a, b) => supported(*a) && supported(*b),
        TermView::Ite(c, a, b) => supported(*c) && supported(*a) && supported(*b),
    }
}

/// Whether `s` is a plain text.
pub fn is_plain_text(s: &str) -> (b: bool)
    ensures
        b == plain_text(s@),
{
    let n = s.unicode_len();
    let mut i: usize = 0;
    while i < n
        invariant
            n == s@.len(),
            i <= n,
            forall|j: int| 0 <= j < i ==> ' ' <= #[trigger] s@[j] <= '~' && s@[j] != '\\',
        decreases n - i,
    {
        let c = s.get_char(i);
        if c < ' ' || c > '~' || c == '\\' {
            return false;
        }
        i = i + 1;
    }
    true
}

/// Whether `s` is free of the zero character.
pub fn has_no_nul(s: &str) -> (b: bool)
    ensures
        b == no_nul(s@),
{
    let n = s.unicode_len();
    let mut i: usize = 0;
    while i < n
        invariant
            n == s@.len(),
            i <= n,
            forall|j: int| 0 <= j < i ==> #[trigger] s@[j] != '\0',
        decreases n - i,
    {
        if s.get_char(i) == '\0' {
            return false;
        }
        i = i + 1;
    }
    true
}

/// What [`lower`] gives for a term: the tree that stands for the term as
/// the solver builds it, of the sort of the term, where the solver can
/// take the term.
pub open spec fn lowers(t: TermView, r: Result<z3::ast::Dynamic, SolverError>) -> bool {
    match r {
        Ok(d) => supported(t) && denotes(d) == lowered(t) && sort_of(denotes(d)) == sort_of(t)
            && sort_of(t) != Some(Sort::Float),
        Err(e) => !supported(t) && e is Unsupported,
    }
}

fn lower_leaf(t: &Term) -> (r: Result<z3::ast::Dynamic, SolverError>)
    requires
        t is Var || t is Bool || t is Int || t is Index || t is Float || t is Str,
    ensures
        lowers(t@, r),
{
    match t {
        Term::Var(name, sort) => {
            if !has_no_nul(name.as_str()) {
                return Err(SolverError::Unsupported);
            }
            match sort {
                Sort::Bool => Ok(z3_bool_const(name.as_str())),
                Sort::Int => Ok(z3_int_const(name.as_str())),
                Sort::Str => Ok(z3_str_const(name.as_str())),
                Sort::Float => Err(SolverError::Unsupported),
            }
        },
        Term::Bool(b) => Ok(z3_bool(*b)),
        Term::Int(i) => Ok(z3_int(*i)),
        Term::Index(i) => Ok(z3_index(*i)),
        Term::Str(s) => {
            if !is_plain_text(s.as_str()) {
                return Err(SolverError::Unsupported);
            }
            match z3_str(s.as_str()) {
                Some(d) => Ok(d),
                None => Err(SolverError::Unsupported),
            }
        },
        _ => Err(SolverError::Unsupported),
    }
}

/// Whether `t` is `a` and `b` joined by a connective, an equation or a
/// sum.
pub open spec fn joins(t: TermView, a: TermView, b: TermView) -> bool {
    ||| t == TermView::Implies(Box::new(a), Box::new(b))
    ||| t == TermView::And(Box::new(a), Box::new(b))
    ||| t == TermView::Or(Box::new(a), Box::new(b))
    ||| t == TermView::Eq(Box::new(a), Box::new(b))
    ||| t == TermView::Ne(Box::new(a), Box::new(b))
    ||| t == TermView::Add(Box::new(a), Box::new(b))
}

/// Whether `t` is `a` and `b` held against each other in an order.
pub open spec fn orders(t: TermView, a: TermView, b: TermView) -> bool {
    ||| t == TermView::Lt(Box::new(a), Box::new(b))
    ||| t == TermView::Le(Box::new(a), Box::new(b))
    ||| t == TermView::Gt(Box::new(a), Box::new(b))
    ||| t == TermView::Ge(Box::new(a), Box::new(b))
}

fn lower_joined(t: &Term, x: z3::ast::Dynamic, y: z3::ast::Dynamic, Ghost(a): Ghost<TermView>, Ghost(b): Ghost<TermView>) -> (r:
    Result<z3::ast::Dynamic, SolverError>)
    requires
        joins(t@, a, b),
        sort_of(t@) is Some,
        lowers(a, Ok(x)),
        lowers(b, Ok(y)),
    ensures
        lowers(t@, r),
{
    proof {
        reveal_with_fuel(lowered, 2);
        reveal_with_fuel(supported, 2);
        reveal_with_fuel(sort_of, 2);
    }
    match t {
        Term::Implies(_, _) => Ok(z3_implies(&x, &y)),
        Term::And(_, _) => Ok(z3_and(&x, &y)),
        Term::Or(_, _) => Ok(z3_or(&x, &y)),
        Term::Eq(_, _) => Ok(z3_eq(&x, &y)),
        Term::Ne(_, _) => {
            let eq = z3_eq(&x, &y);
            Ok(z3_not(&eq))
        },
        Term::Add(_, _) => Ok(z3_add(&x, &y)),
        _ => Err(SolverError::Unsupported),
    }
}

fn lower_ordered(t: &Term, x: z3::ast::Dynamic, y: z3::ast::Dynamic, sort: Option<Sort>, Ghost(a): Ghost<TermView>, Ghost(b): Ghost<TermView>) -> (r:
    Result<z3::ast::Dynamic, SolverError>)
    requires
        orders(t@, a, b),
        sort_of(t@) is Some,
        sort == sort_of(a),
        lowers(a, Ok(x)),
        lowers(b, Ok(y)),
    ensures
        lowers(t@, r),
{
    proof {
        reveal_with_fuel(lowered, 2);
        reveal_with_fuel(supported, 2);
        reveal_with_fuel(sort_of, 2);
    }
    match (t, sort) {
        (Term::Lt(_, _), Some(Sort::Int)) => Ok(z3_int_lt(&x, &y)),
        (Term::Lt(_, _), Some(Sort::Str)) => Ok(z3_str_lt(&x, &y)),
        (Term::Le(_, _), Some(Sort::Int)) => Ok(z3_int_le(&x, &y)),
        (Term::Le(_, _), Some(Sort::Str)) => Ok(z3_str_le(&x, &y)),
        (Term::Gt(_, _), Some(Sort::Int)) => Ok(z3_int_lt(&y, &x)),
        (Term::Gt(_, _), Some(Sort::Str)) => Ok(z3_str_lt(&y, &x)),
        (Term::Ge(_, _), Some(Sort::Int)) => Ok(z3_int_le(&y, &x)),
        (Term::Ge(_, _), Some(Sort::Str)) => Ok(z3_str_le(&y, &x)),
        _ => Err(SolverError::Unsupported),
    }
}

/// Builds the tree of the solver for a term.
pub(crate) fn lower(t: &Term) -> (r: Result<z3::ast::Dynamic, SolverError>)
    requires
        sort_of(t@) is Some,
    ensures
        lowers(t@, r),
    decreases t,
{
    match t {
        Term::Not(a) => match lower(a) {
            Ok(x) => Ok(z3_not(&x)),
            Err(e) => Err(e),
        },
        Term::Implies(a, b) | Term::And(a, b) | Term::Or(a, b) | Term::Eq(a, b) | Term::Ne(a, b)
        | Term::Add(a, b) => match (lower(a), lower(b)) {
            (Ok(x), Ok(y)) => lower_joined(t, x, y, Ghost(a@), Ghost(b@)),
            (Err(e), _) => Err(e),
            (_, Err(e)) => Err(e),
        },
        Term::Lt(a, b) | Term::Le(a, b) | Term::Gt(a, b) | Term::Ge(a, b) => match (
            lower(a),
            lower(b),
        ) {
            (Ok(x), Ok(y)) => lower_ordered(t, x, y, a.sort(), Ghost(a@), Ghost(b@)),
            (Err(e), _) => Err(e),
            (_, Err(e)) => Err(e),
        },
        Term::Ite(c, a, b) => match (lower(c), lower(a), lower(b)) {
            (Ok(z), Ok(x), Ok(y)) => Ok(z3_ite(&z, &x, &y)),
            (Err(e), _, _) => Err(e),
            (_, Err(e), _) => Err(e),
            (_, _, Err(e)) => Err(e),
        },
        _ => lower_leaf(t),
    }
}

/// A value as the solver gives it.
#[derive(Debug)]
pub enum Scalar {
    Bool(bool),
    Int(i64),
    Str(String),
}

/// What a [`Scalar`] is, as a value of mathematics.
pub enum ScalarView {
    Bool(bool),
    Int(i64),
    Str(Seq<char>),
}

impl View for Scalar {
    type V = ScalarView;

    open spec fn view(&self) -> ScalarView {
        match self {
            Scalar::Bool(b) => ScalarView::Bool(*b),
            Scalar::Int(i) => ScalarView::Int(*i),
            Scalar::Str(s) => ScalarView::Str(s@),
        }
    }
}

/// What came of a problem.
#[derive(Debug)]
pub enum Outcome {
    /// There is an answer: for each line of the table of options the value
    /// of its variable, where it has one that could be read.
    Sat(Vec<Option<Scalar>>),
    /// There is no answer: the labels of assertions that cannot hold
    /// together, as the solver wrote them.
    Unsat(Vec<String>),
    /// The solver cannot tell.
    Unknown,
}

/// Whether `label` is a number written out.
pub open spec fn is_number(label: Seq<char>) -> bool {
    label.len() > 0 && all_digits(label)
}

/// Whether the solver can take the problem: each assertion is a truth
/// value and goes by a number, each objective is an integer, and no term
/// holds what the solver cannot take.
pub open spec fn well_posed(problem: Problem) -> bool {
    &&& forall|i: int|
        0 <= i < problem.soft@.len() ==> sort_of((#[trigger] problem.soft@[i]).0@) == Some(
            Sort::Bool,
        ) && supported(problem.soft@[i].0@)
    &&& forall|i: int|
        0 <= i < problem.asserted@.len() ==> sort_of((#[trigger] problem.asserted@[i]).0@)
            == Some(Sort::Bool) && supported(problem.asserted@[i].0@) && is_number(
            problem.asserted@[i].1@,
        )
    &&& forall|i: int|
        0 <= i < problem.objectives@.len() ==> sort_of(
            objective_term(#[trigger] problem.objectives@[i]),
        ) == Some(Sort::Int) && supported(objective_term(problem.objectives@[i]))
}

/// The term of an objective.
pub open spec fn objective_term(o: Objective) -> TermView {
    match o {
        Objective::Maximize(t) => t@,
        Objective::Minimize(t) => t@,
    }
}

/// Whether the value `value` fits the line `line` of the table of
/// options: there is none unless the line has a variable, and it is of
/// the sort of the variable.
pub open spec fn fits(value: Option<Scalar>, line: EntryView) -> bool {
    match value {
        None => true,
        Some(Scalar::Bool(_)) => line.variable is Some && sort_for(line.dtype) == Sort::Bool,
        Some(Scalar::Int(_)) => line.variable is Some && sort_for(line.dtype) == Sort::Int,
        Some(Scalar::Str(_)) => line.variable is Some && sort_for(line.dtype) == Sort::Str,
    }
}

/// Whether each of `core` is, with or without bars, the label of one of
/// `asserted`.
pub open spec fn core_is_asserted(core: Seq<String>, asserted: Seq<(Term, String)>) -> bool {
    forall|i: int|
        0 <= i < core.len() ==> is_one_of(labels_view(asserted), bare_label((#[trigger] core[i])@))
}

/// The labels of the assertions `asserted`.
pub open spec fn labels_view(asserted: Seq<(Term, String)>) -> Seq<Seq<char>> {
    asserted.map_values(|e: (Term, String)| e.1@)
}

impl Term {
    /// Whether the solver can take the term.
    pub fn is_supported(&self) -> (b: bool)
        ensures
            b == supported(self@),
        decreases self,
    {
        match self {
            Term::Var(name, sort) => has_no_nul(name.as_str()) && match sort {
                Sort::Float => false,
                _ => true,
            },
            Term::Bool(_) => true,
            Term::Int(_) => true,
            Term::Index(_) => true,
            Term::Float(_) => false,
            Term::Str(s) => is_plain_text(s.as_str()),
            Term::Not(a) => a.is_supported(),
            Term::Implies(a, b) | Term::And(a, b) | Term::Or(a, b) | Term::Eq(a, b) | Term::Ne(
                a,
                b,
            ) | Term::Lt(a, b) | Term::Le(a, b) | Term::Gt(a, b) | Term::Ge(a, b) | Term::Add(
                a,
                b,
            ) => a.is_supported() && b.is_supported(),
            Term::Ite(c, a, b) => c.is_supported() && a.is_supported() && b.is_supported(),
        }
    }

    fn is_sound(&self, sort: Sort) -> (b: bool)
        ensures
            b == (sort_of(self@) == Some(sort) && supported(self@)),
    {
        match self.sort() {
            Some(s) => s == sort && self.is_supported(),
            None => false,
        }
    }
}

fn label_is_number(label: &str) -> (b: bool)
    ensures
        b == is_number(label@),
{
    let n = label.unicode_len();
    if n == 0 {
        return false;
    }
    let mut i: usize = 0;
    while i < n
        invariant
            n == label@.len(),
            i <= n,
            forall|j: int| 0 <= j < i ==> is_digit(#[trigger] label@[j]),
        decreases n - i,
    {
        if !char_is_digit(label.get_char(i)) {
            return false;
        }
        i = i + 1;
    }
    true
}

impl Problem {
    /// Whether the solver can take the problem.
    pub fn is_well_posed(&self) -> (b: bool)
        ensures
            b == well_posed(*self),
    {
        let mut i: usize = 0;
        while i < self.soft.len()
            invariant
                i <= self.soft.len(),
                forall|j: int|
                    0 <= j < i ==> sort_of((#[trigger] self.soft@[j]).0@) == Some(Sort::Bool)
                        && supported(self.soft@[j].0@),
            decreases self.soft.len() - i,
        {
            if !self.soft[i].0.is_sound(Sort::Bool) {
                return false;
            }
            i = i + 1;
        }
        let mut i: usize = 0;
        while i < self.asserted.len()
            invariant
                i <= self.asserted.len(),
                forall|j: int|
                    0 <= j < self.soft@.len() ==> sort_of((#[trigger] self.soft@[j]).0@) == Some(
                        Sort::Bool,
                    ) && supported(self.soft@[j].0@),
                forall|j: int|
                    0 <= j < i ==> sort_of((#[trigger] self.asserted@[j]).0@) == Some(Sort::Bool)
                        && supported(self.asserted@[j].0@) && is_number(self.asserted@[j].1@),
            decreases self.asserted.len() - i,
        {
            if !self.asserted[i].0.is_sound(Sort::Bool) || !label_is_number(
                self.asserted[i].1.as_str(),
            ) {
                return false;
            }
            i = i + 1;
        }
        let mut i: usize = 0;
        while i < self.objectives.len()
            invariant
                i <= self.objectives.len(),
                forall|j: int|
                    0 <= j < self.soft@.len() ==> sort_of((#[trigger] self.soft@[j]).0@) == Some(
                        Sort::Bool,
                    ) && supported(self.soft@[j].0@),
                forall|j: int|
                    0 <= j < self.asserted@.len() ==> sort_of((#[trigger] self.asserted@[j]).0@)
                        == Some(Sort::Bool) && supported(self.asserted@[j].0@) && is_number(
                        self.asserted@[j].1@,
                    ),
                forall|j: int|
                    0 <= j < i ==> sort_of(objective_term(#[trigger] self.objectives@[j])) == Some(
                        Sort::Int,
                    ) && supported(objective_term(self.objectives@[j])),
            decreases self.objectives.len() - i,
        {
            let sound = match &self.objectives[i] {
                Objective::Maximize(t) => t.is_sound(Sort::Int),
                Objective::Minimize(t) => t.is_sound(Sort::Int),
            };
            if !sound {
                return false;
            }
            i = i + 1;
        }
        true
    }
}

/// Reads from an answer of the solver what the variable `name` of sort
/// `sort` is there. A name that holds the zero character cannot be put to
/// the solver, and the solver has no numbers with a fraction: for those
/// nothing is read. What is read otherwise is of the sort asked for;
/// whether anything is read is the solver's to say.
fn read_value(model: &z3::Model, name: &str, sort: Sort) -> (v: Option<Scalar>)
    ensures
        (!no_nul(name@) || sort == Sort::Float) ==> v is None,
        match v {
            None => true,
            Some(Scalar::Bool(_)) => sort == Sort::Bool,
            Some(Scalar::Int(_)) => sort == Sort::Int,
            Some(Scalar::Str(_)) => sort == Sort::Str,
        },
{
    if !has_no_nul(name) {
        return None;
    }
    match sort {
        Sort::Bool => {
            let ast = z3_bool_const(name);
            match model_bool(model, &ast) {
                Some(b) => Some(Scalar::Bool(b)),
                None => None,
            }
        },
        Sort::Int => {
            let ast = z3_int_const(name);
            match model_int(model, &ast) {
                Some(i) => Some(Scalar::Int(i)),
                None => None,
            }
        },
        Sort::Str => {
            let ast = z3_str_const(name);
            match model_text(model, &ast) {
                Some(s) => Some(Scalar::Str(s)),
                None => None,
            }
        },
        Sort::Float => None,
    }
}

/// The soft assertions of a problem as the solver holds them.
pub open spec fn posed_soft(soft: Seq<(Term, usize)>) -> Seq<(TermView, nat)> {
    Seq::new(soft.len(), |i: int| (lowered(soft[i].0@), soft[i].1 as nat))
}

/// The terms of the labelled assertions of a problem as the solver holds
/// them.
pub open spec fn posed_hard(asserted: Seq<(Term, String)>) -> Seq<TermView> {
    Seq::new(asserted.len(), |i: int| lowered(asserted[i].0@))
}

/// An objective of a problem as the solver holds it.
pub open spec fn posed_aim(o: Objective) -> ObjectiveView {
    match o {
        Objective::Maximize(t) => ObjectiveView::Maximize(lowered(t@)),
        Objective::Minimize(t) => ObjectiveView::Minimize(lowered(t@)),
    }
}

/// The objectives of a problem as the solver holds them.
pub open spec fn posed_aims(objectives: Seq<Objective>) -> Seq<ObjectiveView> {
    Seq::new(objectives.len(), |i: int| posed_aim(objectives[i]))
}

/// Hands the problem to an optimizer of the solver: the optimizer then
/// holds each soft assertion with its weight, each labelled assertion
/// under its label, and each objective with its sense, in the order of
/// the problem, and nothing else.
fn pose(problem: &Problem) -> (opt: z3::Optimize)
    requires
        well_posed(*problem),
    ensures
        soft_of(opt) == posed_soft(problem.soft@),
        hard_of(opt) == posed_hard(problem.asserted@),
        labels_of(opt) == labels_view(problem.asserted@),
        aims_of(opt) == posed_aims(problem.objectives@),
{
    let mut opt = optimize_new();
    let mut i: usize = 0;
    assert(soft_of(opt) =~= posed_soft(problem.soft@).take(0));
    while i < problem.soft.len()
        invariant
            i <= problem.soft.len(),
            well_posed(*problem),
            labels_of(opt) == Seq::<Seq<char>>::empty(),
            hard_of(opt) == Seq::<TermView>::empty(),
            aims_of(opt) == Seq::<ObjectiveView>::empty(),
            soft_of(opt) == posed_soft(problem.soft@).take(i as int),
        decreases problem.soft.len() - i,
    {
        assert(sort_of(problem.soft@[i as int].0@) == Some(Sort::Bool));
        match lower(&problem.soft[i].0) {
            Ok(d) => {
                optimize_soft(&mut opt, &d, problem.soft[i].1);
                assert(soft_of(opt) =~= posed_soft(problem.soft@).take(i + 1));
            },
            Err(_) => {
                assert(false);
            },
        }
        i = i + 1;
    }
    assert(posed_soft(problem.soft@).take(i as int) =~= posed_soft(problem.soft@));
    let mut i: usize = 0;
    assert(labels_of(opt) =~= labels_view(problem.asserted@).take(0));
    assert(hard_of(opt) =~= posed_hard(problem.asserted@).take(0));
    while i < problem.asserted.len()
        invariant
            i <= problem.asserted.len(),
            well_posed(*problem),
            labels_of(opt) == labels_view(problem.asserted@).take(i as int),
            hard_of(opt) == posed_hard(problem.asserted@).take(i as int),
            soft_of(opt) == posed_soft(problem.soft@),
            aims_of(opt) == Seq::<ObjectiveView>::empty(),
        decreases problem.asserted.len() - i,
    {
        assert(sort_of(problem.asserted@[i as int].0@) == Some(Sort::Bool));
        match lower(&problem.asserted[i].0) {
            Ok(d) => {
                optimize_track(&mut opt, &d, problem.asserted[i].1.as_str());
                assert(labels_of(opt) =~= labels_view(problem.asserted@).take(i + 1));
                assert(hard_of(opt) =~= posed_hard(problem.asserted@).take(i + 1));
            },
            Err(_) => {
                assert(false);
            },
        }
        i = i + 1;
    }
    assert(labels_view(problem.asserted@).take(i as int) =~= labels_view(problem.asserted@));
    assert(posed_hard(problem.asserted@).take(i as int) =~= posed_hard(problem.asserted@));
    let mut i: usize = 0;
    assert(aims_of(opt) =~= posed_aims(problem.objectives@).take(0));
    while i < problem.objectives.len()
        invariant
            i <= problem.objectives.len(),
            well_posed(*problem),
            labels_of(opt) == labels_view(problem.asserted@),
            hard_of(opt) == posed_hard(problem.asserted@),
            soft_of(opt) == posed_soft(problem.soft@),
            aims_of(opt) == posed_aims(problem.objectives@).take(i as int),
        decreases problem.objectives.len() - i,
    {
        assert(sort_of(objective_term(problem.objectives@[i as int])) == Some(Sort::Int));
        match &problem.objectives[i] {
            Objective::Maximize(t) => match lower(t) {
                Ok(d) => {
                    optimize_maximize(&mut opt, &d);
                    assert(aims_of(opt) =~= posed_aims(problem.objectives@).take(i + 1));
                },
                Err(_) => {
                    assert(false);
                },
            },
            Objective::Minimize(t) => match lower(t) {
                Ok(d) => {
                    optimize_minimize(&mut opt, &d);
                    assert(aims_of(opt) =~= posed_aims(problem.objectives@).take(i + 1));
                },
                Err(_) => {
                    assert(false);
                },
            },
        }
        i = i + 1;
    }
    assert(posed_aims(problem.objectives@).take(i as int) =~= posed_aims(problem.objectives@));
    opt
}

/// Puts the problem to the solver and reads what comes of it.
///
/// A problem that the solver cannot take is turned down. Of an answer,
/// the value of each variable of the registry is read. Where there is no
/// answer, the labels of assertions that exclude each other are handed
/// out.
pub fn run(problem: &Problem, registry: &BuiltRegistry) -> (r: Result<Outcome, SolverError>)
    ensures
        r is Ok <==> well_posed(*problem),
        match r {
            Ok(Outcome::Sat(values)) => values@.len() == registry.table().len() && forall|
                i: int,
            |
                0 <= i < values@.len() ==> fits(#[trigger] values@[i], registry.table()[i]),
            Ok(Outcome::Unsat(core)) => core_is_asserted(core@, problem.asserted@),
            Ok(Outcome::Unknown) => true,
            Err(e) => e is Unsupported,
        },
{
    if !problem.is_well_posed() {
        return Err(SolverError::Unsupported);
    }
    let opt = pose(problem);
    match optimize_check(&opt) {
        Verdict::Unknown => Ok(Outcome::Unknown),
        Verdict::Unsat => {
            let core = optimize_core(&opt);
            Ok(Outcome::Unsat(core))
        },
        Verdict::Sat => {
            let model = match optimize_model(&opt) {
                Some(model) => model,
                None => {
                    return Ok(Outcome::Unknown);
                },
            };
            let mut values: Vec<Option<Scalar>> = Vec::new();
            let n = registry.num_options();
            let mut i: usize = 0;
            while i < n
                invariant
                    i <= n,
                    n == registry.table().len(),
                    values@.len() == i,
                    forall|k: int| 0 <= k < i ==> fits(#[trigger] values@[k], registry.table()[k]),
                decreases n - i,
            {
                let value = match registry.option_variable(i) {
                    Some(name) => read_value(
                        &model,
                        name.as_str(),
                        sort_of_type(registry.option_type(i)),
                    ),
                    None => None,
                };
                values.push(value);
                i = i + 1;
            }
            Ok(Outcome::Sat(values))
        },
    }
}

} // verus!
