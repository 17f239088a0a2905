//! The solver itself: Z3, reached through the `z3` crate. What this
//! library relies on of it is stated here and nowhere proved.

use super::problem::ObjectiveView;
use super::term::{sort_of, Sort, TermView};
use crate::package::registry::bare_label;
use crate::package::version::all_digits;
use vstd::prelude::*;

verus! {

#[verifier::external_type_specification]
#[verifier::external_body]
pub struct ExDynamic(z3::ast::Dynamic);

#[verifier::external_type_specification]
#[verifier::external_body]
pub struct ExOptimize(z3::Optimize);

#[verifier::external_type_specification]
#[verifier::external_body]
pub struct ExModel(z3::Model);

/// The term that a tree of the solver stands for.
pub uninterp spec fn denotes(ast: z3::ast::Dynamic) -> TermView;

/// The labels of the assertions that were put to an optimizer with a
/// label, in the order in which they were put.
pub uninterp spec fn labels_of(opt: z3::Optimize) -> Seq<Seq<char>>;

/// The terms of the assertions that were put to an optimizer with a
/// label, in the order in which they were put: each goes with the label
/// at its place in [`labels_of`].
pub uninterp spec fn hard_of(opt: z3::Optimize) -> Seq<TermView>;

/// The assertions that were put to an optimizer as ones that should
/// hold, each with its weight, in the order in which they were put.
pub uninterp spec fn soft_of(opt: z3::Optimize) -> Seq<(TermView, nat)>;

/// The objectives that were put to an optimizer, in the order in which
/// they were put.
pub uninterp spec fn aims_of(opt: z3::Optimize) -> Seq<ObjectiveView>;

/// Whether `label` is one of `labels`.
pub open spec fn is_one_of(labels: Seq<Seq<char>>, label: Seq<char>) -> bool {
    exists|k: int| 0 <= k < labels.len() && #[trigger] labels[k] == label
}

/// Whether `s` is free of the character with number zero, which no name
/// and no text of the solver can hold.
pub open spec fn no_nul(s: Seq<char>) -> bool {
    forall|i: int| 0 <= i < s.len() ==> #[trigger] s[i] != '\0'
}

/// `Bool::new_const` of z3: the constant of sort `Bool` with the given
/// name. The call panics on a name that holds the zero character, which
/// the contract leaves out.
#[verifier::external_body]
pub(crate) fn z3_bool_const(name: &str) -> (d: z3::ast::Dynamic)
    requires
        no_nul(name@),
    ensures
        denotes(d) == TermView::Var(name@, Sort::Bool),
{
    z3::ast::Dynamic::from(z3::ast::Bool::new_const(name))
}

/// `Int::new_const` of z3: the constant of sort `Int` with the given
/// name. The call panics on a name that holds the zero character, which
/// the contract leaves out.
#[verifier::external_body]
pub(crate) fn z3_int_const(name: &str) -> (d: z3::ast::Dynamic)
    requires
        no_nul(name@),
    ensures
        denotes(d) == TermView::Var(name@, Sort::Int),
{
    z3::ast::Dynamic::from(z3::ast::Int::new_const(name))
}

/// `String::new_const` of z3: the constant of the sort of texts with the
/// given name. The call panics on a name that holds the zero character,
/// which the contract leaves out.
#[verifier::external_body]
pub(crate) fn z3_str_const(name: &str) -> (d: z3::ast::Dynamic)
    requires
        no_nul(name@),
    ensures
        denotes(d) == TermView::Var(name@, Sort::Str),
{
    z3::ast::Dynamic::from(z3::ast::String::new_const(name))
}

/// `Bool::from_bool` of z3: the truth value.
#[verifier::external_body]
pub(crate) fn z3_bool(b: bool) -> (d: z3::ast::Dynamic)
    ensures
        denotes(d) == TermView::Bool(b),
{
    z3::ast::Dynamic::from(z3::ast::Bool::from_bool(b))
}

/// `Int::from_i64` of z3: the integer.
#[verifier::external_body]
pub(crate) fn z3_int(i: i64) -> (d: z3::ast::Dynamic)
    ensures
        denotes(d) == TermView::Int(i as int),
{
    z3::ast::Dynamic::from(z3::ast::Int::from_i64(i))
}

/// `Int::from_u64` of z3: the integer.
#[verifier::external_body]
pub(crate) fn z3_index(i: u64) -> (d: z3::ast::Dynamic)
    ensures
        denotes(d) == TermView::Int(i as int),
{
    z3::ast::Dynamic::from(z3::ast::Int::from_u64(i))
}

/// Whether `s` is written in the printable characters of ASCII alone,
/// the backslash left out: a text that the solver takes letter for
/// letter. In any other text the solver may read an escape, which stands
/// for another character.
pub open spec fn plain_text(s: Seq<char>) -> bool {
    forall|i: int| 0 <= i < s.len() ==> ' ' <= #[trigger] s[i] <= '~' && s[i] != '\\'
}

/// `String::from_str` of z3: a tree, unless the text holds the zero
/// character. The tree stands for the text itself where the text is
/// plain; of what it stands for otherwise nothing is claimed.
#[verifier::external_body]
pub(crate) fn z3_str(s: &str) -> (d: Option<z3::ast::Dynamic>)
    ensures
        d is Some <==> no_nul(s@),
        plain_text(s@) ==> (d matches Some(ast) ==> denotes(ast) == TermView::Str(s@)),
{
    match <z3::ast::String as std::str::FromStr>::from_str(s) {
        Ok(text) => Some(z3::ast::Dynamic::from(text)),
        Err(_) => None,
    }
}

/// `Bool::not` of z3: the negation.
#[verifier::external_body]
pub(crate) fn z3_not(a: &z3::ast::Dynamic) -> (d: z3::ast::Dynamic)
    requires
        sort_of(denotes(*a)) == Some(Sort::Bool),
    ensures
        denotes(d) == TermView::Not(Box::new(denotes(*a))),
{
    z3::ast::Dynamic::from(a.as_bool().unwrap().not())
}

/// `Bool::implies` of z3: the implication.
#[verifier::external_body]
pub(crate) fn z3_implies(a: &z3::ast::Dynamic, b: &z3::ast::Dynamic) -> (d: z3::ast::Dynamic)
    requires
        sort_of(denotes(*a)) == Some(Sort::Bool),
        sort_of(denotes(*b)) == Some(Sort::Bool),
    ensures
        denotes(d) == TermView::Implies(Box::new(denotes(*a)), Box::new(denotes(*b))),
{
    z3::ast::Dynamic::from(a.as_bool().unwrap().implies(b.as_bool().unwrap()))
}

/// `Bool::and` of z3, of two: the conjunction.
#[verifier::external_body]
pub(crate) fn z3_and(a: &z3::ast::Dynamic, b: &z3::ast::Dynamic) -> (d: z3::ast::Dynamic)
    requires
        sort_of(denotes(*a)) == Some(Sort::Bool),
        sort_of(denotes(*b)) == Some(Sort::Bool),
    ensures
        denotes(d) == TermView::And(Box::new(denotes(*a)), Box::new(denotes(*b))),
{
    z3::ast::Dynamic::from(z3::ast::Bool::and(&[a.as_bool().unwrap(), b.as_bool().unwrap()]))
}

/// `Bool::or` of z3, of two: the disjunction.
#[verifier::external_body]
pub(crate) fn z3_or(a: &z3::ast::Dynamic, b: &z3::ast::Dynamic) -> (d: z3::ast::Dynamic)
    requires
        sort_of(denotes(*a)) == Some(Sort::Bool),
        sort_of(denotes(*b)) == Some(Sort::Bool),
    ensures
        denotes(d) == TermView::Or(Box::new(denotes(*a)), Box::new(denotes(*b))),
{
    z3::ast::Dynamic::from(z3::ast::Bool::or(&[a.as_bool().unwrap(), b.as_bool().unwrap()]))
}

/// `Dynamic::eq` of z3: the equation. The call panics where the sorts
/// differ, which the contract leaves out.
#[verifier::external_body]
pub(crate) fn z3_eq(a: &z3::ast::Dynamic, b: &z3::ast::Dynamic) -> (d: z3::ast::Dynamic)
    requires
        sort_of(denotes(*a)) is Some,
        sort_of(denotes(*a)) == sort_of(denotes(*b)),
    ensures
        denotes(d) == TermView::Eq(Box::new(denotes(*a)), Box::new(denotes(*b))),
{
    z3::ast::Dynamic::from(a.eq(b))
}

/// `Int::lt` of z3: less than, between integers.
#[verifier::external_body]
pub(crate) fn z3_int_lt(a: &z3::ast::Dynamic, b: &z3::ast::Dynamic) -> (d: z3::ast::Dynamic)
    requires
        sort_of(denotes(*a)) == Some(Sort::Int),
        sort_of(denotes(*b)) == Some(Sort::Int),
    ensures
        denotes(d) == TermView::Lt(Box::new(denotes(*a)), Box::new(denotes(*b))),
{
    z3::ast::Dynamic::from(a.as_int().unwrap().lt(b.as_int().unwrap()))
}

/// `Int::le` of z3: less than or equal, between integers.
#[verifier::external_body]
pub(crate) fn z3_int_le(a: &z3::ast::Dynamic, b: &z3::ast::Dynamic) -> (d: z3::ast::Dynamic)
    requires
        sort_of(denotes(*a)) == Some(Sort::Int),
        sort_of(denotes(*b)) == Some(Sort::Int),
    ensures
        denotes(d) == TermView::Le(Box::new(denotes(*a)), Box::new(denotes(*b))),
{
    z3::ast::Dynamic::from(a.as_int().unwrap().le(b.as_int().unwrap()))
}

/// `String::str_lt` of z3: before, in the order of the dictionary.
#[verifier::external_body]
pub(crate) fn z3_str_lt(a: &z3::ast::Dynamic, b: &z3::ast::Dynamic) -> (d: z3::ast::Dynamic)
    requires
        sort_of(denotes(*a)) == Some(Sort::Str),
        sort_of(denotes(*b)) == Some(Sort::Str),
    ensures
        denotes(d) == TermView::Lt(Box::new(denotes(*a)), Box::new(denotes(*b))),
{
    z3::ast::Dynamic::from(a.as_string().unwrap().str_lt(b.as_string().unwrap()))
}

/// `String::str_le` of z3: before or equal, in the order of the
/// dictionary.
#[verifier::external_body]
pub(crate) fn z3_str_le(a: &z3::ast::Dynamic, b: &z3::ast::Dynamic) -> (d: z3::ast::Dynamic)
    requires
        sort_of(denotes(*a)) == Some(Sort::Str),
        sort_of(denotes(*b)) == Some(Sort::Str),
    ensures
        denotes(d) == TermView::Le(Box::new(denotes(*a)), Box::new(denotes(*b))),
{
    z3::ast::Dynamic::from(a.as_string().unwrap().str_le(b.as_string().unwrap()))
}

/// `Bool::ite` of z3: the one or the other, by the condition.
#[verifier::external_body]
pub(crate) fn z3_ite(c: &z3::ast::Dynamic, a: &z3::ast::Dynamic, b: &z3::ast::Dynamic) -> (d:
    z3::ast::Dynamic)
    requires
        sort_of(denotes(*c)) == Some(Sort::Bool),
        sort_of(denotes(*a)) is Some,
        sort_of(denotes(*a)) == sort_of(denotes(*b)),
    ensures
        denotes(d) == TermView::Ite(
            Box::new(denotes(*c)),
            Box::new(denotes(*a)),
            Box::new(denotes(*b)),
        ),
{
    c.as_bool().unwrap().ite(a, b)
}

/// `Int::add` of z3, of two: the sum.
#[verifier::external_body]
pub(crate) fn z3_add(a: &z3::ast::Dynamic, b: &z3::ast::Dynamic) -> (d: z3::ast::Dynamic)
    requires
        sort_of(denotes(*a)) == Some(Sort::Int),
        sort_of(denotes(*b)) == Some(Sort::Int),
    ensures
        denotes(d) == TermView::Add(Box::new(denotes(*a)), Box::new(denotes(*b))),
{
    z3::ast::Dynamic::from(z3::ast::Int::add(&[a.as_int().unwrap(), b.as_int().unwrap()]))
}

/// `Optimize::new` of z3: an optimizer to which nothing was put.
#[verifier::external_body]
pub(crate) fn optimize_new() -> (opt: z3::Optimize)
    ensures
        labels_of(opt) == Seq::<Seq<char>>::empty(),
        hard_of(opt) == Seq::<TermView>::empty(),
        soft_of(opt) == Seq::<(TermView, nat)>::empty(),
        aims_of(opt) == Seq::<ObjectiveView>::empty(),
{
    z3::Optimize::new()
}

/// `Optimize::assert_soft` of z3: the assertion should hold, at the price
/// of the weight where it does not. It is added to the soft assertions;
/// the rest of what the optimizer holds stays.
#[verifier::external_body]
pub(crate) fn optimize_soft(opt: &mut z3::Optimize, ast: &z3::ast::Dynamic, weight: usize)
    requires
        sort_of(denotes(*ast)) == Some(Sort::Bool),
    ensures
        soft_of(*final(opt)) == soft_of(*old(opt)).push((denotes(*ast), weight as nat)),
        labels_of(*final(opt)) == labels_of(*old(opt)),
        hard_of(*final(opt)) == hard_of(*old(opt)),
        aims_of(*final(opt)) == aims_of(*old(opt)),
{
    opt.assert_soft(&ast.as_bool().unwrap(), weight, None);
}

/// `Optimize::assert_and_track` of z3, with `Bool::new_const` for the
/// label: the assertion must hold, and goes by the label where the solver
/// tells what cannot hold together. It is added to the labelled
/// assertions; the rest of what the optimizer holds stays.
#[verifier::external_body]
pub(crate) fn optimize_track(opt: &mut z3::Optimize, ast: &z3::ast::Dynamic, label: &str)
    requires
        sort_of(denotes(*ast)) == Some(Sort::Bool),
        label@.len() > 0,
        all_digits(label@),
    ensures
        labels_of(*final(opt)) == labels_of(*old(opt)).push(label@),
        hard_of(*final(opt)) == hard_of(*old(opt)).push(denotes(*ast)),
        soft_of(*final(opt)) == soft_of(*old(opt)),
        aims_of(*final(opt)) == aims_of(*old(opt)),
{
    opt.assert_and_track(&ast.as_bool().unwrap(), &z3::ast::Bool::new_const(label));
}

/// `Optimize::maximize` of z3: the integer is to be as large as it can
/// be. It is added to the objectives; the rest of what the optimizer holds
/// stays. The call panics on a term of another sort than numbers, which
/// the contract leaves out.
#[verifier::external_body]
pub(crate) fn optimize_maximize(opt: &mut z3::Optimize, ast: &z3::ast::Dynamic)
    requires
        sort_of(denotes(*ast)) == Some(Sort::Int),
    ensures
        aims_of(*final(opt)) == aims_of(*old(opt)).push(ObjectiveView::Maximize(denotes(*ast))),
        labels_of(*final(opt)) == labels_of(*old(opt)),
        hard_of(*final(opt)) == hard_of(*old(opt)),
        soft_of(*final(opt)) == soft_of(*old(opt)),
{
    opt.maximize(ast);
}

/// `Optimize::minimize` of z3: the integer is to be as small as it can
/// be. It is added to the objectives; the rest of what the optimizer holds
/// stays. The call panics on a term of another sort than numbers, which
/// the contract leaves out.
#[verifier::external_body]
pub(crate) fn optimize_minimize(opt: &mut z3::Optimize, ast: &z3::ast::Dynamic)
    requires
        sort_of(denotes(*ast)) == Some(Sort::Int),
    ensures
        aims_of(*final(opt)) == aims_of(*old(opt)).push(ObjectiveView::Minimize(denotes(*ast))),
        labels_of(*final(opt)) == labels_of(*old(opt)),
        hard_of(*final(opt)) == hard_of(*old(opt)),
        soft_of(*final(opt)) == soft_of(*old(opt)),
{
    opt.minimize(ast);
}

/// What the solver found.
#[derive(Debug, Clone, Copy, PartialEq, Eq, Structural)]
pub enum Verdict {
    /// There is an answer.
    Sat,
    /// There is none.
    Unsat,
    /// The solver cannot tell.
    Unknown,
}

/// `Optimize::check` of z3, without assumptions: whether what was put to
/// the optimizer can hold together.
#[verifier::external_body]
pub(crate) fn optimize_check(opt: &z3::Optimize) -> (v: Verdict) {
    match opt.check(&[]) {
        z3::SatResult::Sat => Verdict::Sat,
        z3::SatResult::Unsat => Verdict::Unsat,
        z3::SatResult::Unknown => Verdict::Unknown,
    }
}

/// `Optimize::get_model` of z3: the answer of the last check, if there is
/// one.
#[verifier::external_body]
pub(crate) fn optimize_model(opt: &z3::Optimize) -> (m: Option<z3::Model>) {
    opt.get_model()
}

/// `Optimize::get_unsat_core` of z3, each label written out: labels of
/// assertions that cannot hold together, each one of the labels that were
/// put to the optimizer, with or without bars around it.
#[verifier::external_body]
pub(crate) fn optimize_core(opt: &z3::Optimize) -> (core: Vec<String>)
    ensures
        forall|i: int|
            0 <= i < core@.len() ==> is_one_of(labels_of(*opt), bare_label((#[trigger] core@[i])@)),
{
    opt.get_unsat_core().iter().map(|label| label.to_string()).collect()
}

/// `Model::eval` of z3, read as a truth value: what the constant is in the
/// answer, if it is a truth value there.
#[verifier::external_body]
pub(crate) fn model_bool(model: &z3::Model, ast: &z3::ast::Dynamic) -> (v: Option<bool>) {
    model.eval(ast, true).and_then(|value| value.as_bool()).and_then(|value| value.as_bool())
}

/// `Model::eval` of z3, read as an integer: what the constant is in the
/// answer, if it is an integer of 64 bits there.
#[verifier::external_body]
pub(crate) fn model_int(model: &z3::Model, ast: &z3::ast::Dynamic) -> (v: Option<i64>) {
    model.eval(ast, true).and_then(|value| value.as_int()).and_then(|value| value.as_i64())
}

/// `Model::eval` of z3, read as a text: what the constant is in the
/// answer, if it is a text there.
#[verifier::external_body]
pub(crate) fn model_text(model: &z3::Model, ast: &z3::ast::Dynamic) -> (v: Option<String>) {
    model.eval(ast, true).and_then(|value| value.as_string()).and_then(|value| value.as_string())
}

} // verus!
