//! The problem that is put to the solver: what must hold, what should
//! hold, and what is to be as large or as small as it can be.

use super::term::{sort_of, Sort, Term, TermView};
use crate::package::registry::Registry;
use crate::util::text::decimal_text;
use vstd::prelude::*;

verus! {

/// Something that the solver is to make as large or as small as it can.
#[derive(Debug)]
pub enum Objective {
    Maximize(Term),
    Minimize(Term),
}

/// What an [`Objective`] is, as a value of mathematics.
pub enum ObjectiveView {
    Maximize(TermView),
    Minimize(TermView),
}

impl View for Objective {
    type V = ObjectiveView;

    open spec fn view(&self) -> ObjectiveView {
        match self {
            Objective::Maximize(t) => ObjectiveView::Maximize(t@),
            Objective::Minimize(t) => ObjectiveView::Minimize(t@),
        }
    }
}

/// The problem for the solver.
///
/// A labelled assertion must hold; its label is the name under which the
/// solver reports it where there is no answer. A soft assertion should
/// hold; the sum of the weights of those that do not is kept as small as
/// it can be.
#[derive(Debug)]
pub struct Problem {
    /// The soft assertions, each with its weight.
    pub soft: Vec<(Term, usize)>,
    /// The labelled assertions, each with its label.
    pub asserted: Vec<(Term, String)>,
    /// The objectives, in the order in which they count.
    pub objectives: Vec<Objective>,
}

/// A labelled assertion before it has a label: the term, and the text that
/// describes it.
pub struct Assertion {
    pub term: TermView,
    pub description: Seq<char>,
}

/// The views of the soft assertions.
pub open spec fn soft_view(v: Seq<(Term, usize)>) -> Seq<(TermView, usize)> {
    v.map_values(|e: (Term, usize)| (e.0@, e.1))
}

/// The views of the labelled assertions.
pub open spec fn labelled_view(v: Seq<(Term, String)>) -> Seq<(TermView, Seq<char>)> {
    v.map_values(|e: (Term, String)| (e.0@, e.1@))
}

/// The views of the objectives.
pub open spec fn objectives_view(v: Seq<Objective>) -> Seq<ObjectiveView> {
    v.map_values(|o: Objective| o@)
}

/// The assertions `list` with their labels, where `start` descriptions
/// were filed before them: the label of each is the number of its
/// description.
pub open spec fn labelled(list: Seq<Assertion>, start: nat) -> Seq<(TermView, Seq<char>)> {
    Seq::new(list.len(), |j: int| (list[j].term, decimal_text((start + j) as nat)))
}

/// The descriptions of the assertions `list`.
pub open spec fn descriptions_of(list: Seq<Assertion>) -> Seq<Seq<char>> {
    Seq::new(list.len(), |j: int| list[j].description)
}

/// Whether each labelled assertion of `asserted` is a truth value.
pub open spec fn all_truths(asserted: Seq<(TermView, Seq<char>)>) -> bool {
    forall|i: int| 0 <= i < asserted.len() ==> sort_of((#[trigger] asserted[i]).0) == Some(Sort::Bool)
}

impl Problem {
    /// A problem that asks for nothing.
    pub fn new() -> (p: Self)
        ensures
            p.soft@.len() == 0,
            p.asserted@.len() == 0,
            p.objectives@.len() == 0,
    {
        Problem {
            soft: Vec::new(),
            asserted: Vec::new(),
            objectives: Vec::new(),
        }
    }

    /// Adds a labelled assertion: the description is filed in the registry,
    /// and the label under which it was filed goes with the term.
    pub fn track<V>(&mut self, registry: &mut Registry<V>, term: Term, description: String)
        ensures
            labelled_view(final(self).asserted@) == labelled_view(old(self).asserted@).push(
                (term@, decimal_text(old(registry).descriptions().len())),
            ),
            final(self).soft == old(self).soft,
            final(self).objectives == old(self).objectives,
            final(registry).descriptions() == old(registry).descriptions().push(description@),
            final(registry).table() == old(registry).table(),
            final(registry).versions() == old(registry).versions(),
    {
        let label = registry.new_constraint_id(description);
        let ghost before = labelled_view(self.asserted@);
        self.asserted.push((term, label));
        assert(labelled_view(self.asserted@) =~= before.push((term@, label@)));
    }
}

} // verus!
