use crate::spec::spec_option::SpecOptionType;
use vstd::prelude::*;
use vstd::string::StringExecFns;

verus! {

/// The weight of the soft assertion that keeps a package switched off.
pub const SOFT_PACKAGE_WEIGHT: usize = 1;

/// The operator of a comparison.
#[derive(Debug, Copy, Clone, PartialEq, Eq, Structural)]
pub enum CmpType {
    Less,
    LessOrEqual,
    NotEqual,
    Equal,
    GreaterOrEqual,
    Greater,
}

/// The sign that writes an operator.
pub open spec fn operator_text(op: CmpType) -> Seq<char> {
    match op {
        CmpType::Less => "<"@,
        CmpType::LessOrEqual => "<="@,
        CmpType::NotEqual => "!="@,
        CmpType::Equal => "=="@,
        CmpType::GreaterOrEqual => ">="@,
        CmpType::Greater => ">"@,
    }
}

/// Whether an operator asks for an order, as all do but `==` and `!=`.
pub open spec fn is_ordering(op: CmpType) -> bool {
    op != CmpType::Equal && op != CmpType::NotEqual
}

impl CmpType {
    /// The sign that writes the operator.
    pub fn to_text(&self) -> (s: String)
        ensures
            s@ == operator_text(*self),
    {
        match self {
            CmpType::Less => String::from_str("<"),
            CmpType::LessOrEqual => String::from_str("<="),
            CmpType::NotEqual => String::from_str("!="),
            CmpType::Equal => String::from_str("=="),
            CmpType::GreaterOrEqual => String::from_str(">="),
            CmpType::Greater => String::from_str(">"),
        }
    }

    /// Whether the operator asks for an order.
    pub fn asks_order(&self) -> (b: bool)
        ensures
            b == is_ordering(*self),
    {
        match self {
            CmpType::Equal | CmpType::NotEqual => false,
            _ => true,
        }
    }
}

/// What kind of thing a constraint is, as far as types go.
#[derive(Debug, Copy, Clone, PartialEq, Eq, Structural)]
pub enum ConstraintType {
    Depends,
    SpecOption,
    Value(SpecOptionType),
    Cmp,
    IfThen,
    Maximize,
    Minimize,
}

} // verus!
