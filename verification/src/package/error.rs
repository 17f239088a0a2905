//! What can go wrong between outlines and plan.

use super::constraint::kinds::ConstraintType;
use crate::solver::term::Sort;
use crate::spec::spec_option::SpecOptionValue;
use vstd::prelude::*;
use vstd::string::StringExecFns;

verus! {

/// Why a constraint is not well formed.
#[derive(Debug, Copy, Clone, PartialEq, Eq, Structural)]
pub enum InvalidReason {
    /// The condition of an `IfThen` is no truth value.
    Condition,
    /// `<`, `<=`, `>=` or `>` between things that have no order.
    Unordered,
    /// `<`, `<=`, `>=` or `>` against a version with placeholders.
    OrderedPattern,
    /// `==` or `!=` on an objective.
    Incomparable,
    /// `Maximize` or `Minimize` where a clause is wanted.
    ObjectiveAsClause,
    /// What `Maximize` or `Minimize` holds has no order.
    Objective,
    /// A number where a truth value is wanted.
    NotBoolean,
    /// A version with placeholders that is held against something that is
    /// no option.
    Pattern,
    /// Versions that cannot be ordered against each other.
    VersionOrder,
}

/// The words for an [`InvalidReason`].
pub open spec fn reason_text(r: InvalidReason) -> Seq<char> {
    match r {
        InvalidReason::Condition => "non-Boolean condition in IfThen"@,
        InvalidReason::Unordered => "ordering comparison on a type without order"@,
        InvalidReason::OrderedPattern => "ordering comparison against a version with wildcards"@,
        InvalidReason::Incomparable => "comparison of an objective"@,
        InvalidReason::ObjectiveAsClause => "cannot convert an objective into a clause"@,
        InvalidReason::Objective => "objective over a type without order"@,
        InvalidReason::NotBoolean => "clause must be Bool"@,
        InvalidReason::Pattern => "version with wildcards compared with no option"@,
        InvalidReason::VersionOrder => "versions cannot be ordered"@,
    }
}

impl InvalidReason {
    /// The words for the reason.
    pub fn to_text(&self) -> (s: String)
        ensures
            s@ == reason_text(*self),
    {
        match self {
            InvalidReason::Condition => String::from_str("non-Boolean condition in IfThen"),
            InvalidReason::Unordered => String::from_str(
                "ordering comparison on a type without order",
            ),
            InvalidReason::OrderedPattern => String::from_str(
                "ordering comparison against a version with wildcards",
            ),
            InvalidReason::Incomparable => String::from_str("comparison of an objective"),
            InvalidReason::ObjectiveAsClause => String::from_str(
                "cannot convert an objective into a clause",
            ),
            InvalidReason::Objective => String::from_str("objective over a type without order"),
            InvalidReason::NotBoolean => String::from_str("clause must be Bool"),
            InvalidReason::Pattern => String::from_str(
                "version with wildcards compared with no option",
            ),
            InvalidReason::VersionOrder => String::from_str("versions cannot be ordered"),
        }
    }
}

/// Why no plan came of a set of outlines.
#[derive(Debug)]
pub enum SolverError {
    /// An option was declared again with another type.
    DuplicateOption(String),
    /// A package is named that has no outline.
    MissingPackage { dep: String },
    /// An option is named that its package does not have.
    MissingVariable { package: String, name: String },
    /// An option or a package has no variable in the solver.
    NoSolverVariable { package: String, option: Option<String> },
    /// An option was given a variable twice.
    VariableAlreadySet { package: String, option: Option<String> },
    /// Two sides of a relation have different types.
    IncorrectConstraintType { expected: ConstraintType, received: ConstraintType },
    /// A term has another sort than its place asks for.
    IncorrectSolverType { expected: Sort, received: Sort },
    /// The packages depend on each other in a circle.
    Cycle,
    /// An option is used of which no type can be told.
    UnknownType { package: String, option: String },
    /// A constraint is not well formed.
    InvalidConstraint(InvalidReason),
    /// The solver gave a value that does not fit the option.
    InvalidModel { package: String, option: Option<String> },
    /// There are more packages, or more dependencies between them, than the
    /// graph can hold.
    GraphFull,
    /// The problem holds what the solver cannot take: a floating-point
    /// number, a name or a text with the zero character, a term that is
    /// not well sorted, or a label that is no number.
    Unsupported,
    /// The solver could not tell whether there is a plan.
    Inconclusive,
    /// There is no plan; the descriptions are of constraints that exclude
    /// each other.
    Unsat(Vec<String>),
}

/// Why defaults could not be handed down.
#[derive(Debug)]
pub enum PropagateDefaultError {
    /// The packages depend on each other in a circle; the number is the
    /// place of one of them.
    Cycle(usize),
    /// Two defaults for one option reach one package.
    Conflict {
        package_name: String,
        default_name: String,
        first_setter: String,
        first_value: SpecOptionValue,
        conflict_setter: String,
        conflict_value: SpecOptionValue,
    },
}

} // verus!
