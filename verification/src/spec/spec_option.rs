use crate::package::version::{version_text, PartView, Version};
use crate::util::text::{decimal_text, signed_text, write_decimal, write_signed};
use vstd::prelude::*;
use vstd::string::StringExecFns;

verus! {

/// The type of an option.
#[derive(Copy, Clone, Debug, PartialEq, Eq, Hash, Structural)]
pub enum SpecOptionType {
    Bool,
    Int,
    Float,
    Str,
    Version,
}

/// A value of an option.
///
/// A floating-point number is held by the 64 bits of its IEEE 754 double;
/// two of them are equal where their bits are.
#[derive(Debug)]
pub enum SpecOptionValue {
    Bool(bool),
    Int(i64),
    Float(u64),
    Str(String),
    Version(Version),
}

/// What a [`SpecOptionValue`] is, as a value of mathematics.
pub enum ValueView {
    Bool(bool),
    Int(i64),
    Float(u64),
    Str(Seq<char>),
    Version(Seq<PartView>),
}

impl View for SpecOptionValue {
    type V = ValueView;

    open spec fn view(&self) -> ValueView {
        match self {
            SpecOptionValue::Bool(b) => ValueView::Bool(*b),
            SpecOptionValue::Int(i) => ValueView::Int(*i),
            SpecOptionValue::Float(bits) => ValueView::Float(*bits),
            SpecOptionValue::Str(s) => ValueView::Str(s@),
            SpecOptionValue::Version(v) => ValueView::Version(v@),
        }
    }
}

/// The type that a value has.
pub open spec fn type_of(v: ValueView) -> SpecOptionType {
    match v {
        ValueView::Bool(_) => SpecOptionType::Bool,
        ValueView::Int(_) => SpecOptionType::Int,
        ValueView::Float(_) => SpecOptionType::Float,
        ValueView::Str(_) => SpecOptionType::Str,
        ValueView::Version(_) => SpecOptionType::Version,
    }
}

/// A value as it is written in a description.
pub open spec fn value_text(v: ValueView) -> Seq<char> {
    match v {
        ValueView::Bool(b) => if b {
            "true"@
        } else {
            "false"@
        },
        ValueView::Int(i) => signed_text(i as int),
        ValueView::Float(bits) => "float#"@ + decimal_text(bits as nat),
        ValueView::Str(s) => s,
        ValueView::Version(v) => version_text(v),
    }
}

/// The name of a type.
pub open spec fn type_text(t: SpecOptionType) -> Seq<char> {
    match t {
        SpecOptionType::Bool => "Bool"@,
        SpecOptionType::Int => "Int"@,
        SpecOptionType::Float => "Float"@,
        SpecOptionType::Str => "Str"@,
        SpecOptionType::Version => "Version"@,
    }
}

impl SpecOptionType {
    /// The name of the type.
    pub fn to_text(&self) -> (s: String)
        ensures
            s@ == type_text(*self),
    {
        match self {
            SpecOptionType::Bool => String::from_str("Bool"),
            SpecOptionType::Int => String::from_str("Int"),
            SpecOptionType::Float => String::from_str("Float"),
            SpecOptionType::Str => String::from_str("Str"),
            SpecOptionType::Version => String::from_str("Version"),
        }
    }
}

impl SpecOptionValue {
    /// The type of the value.
    pub fn to_type(&self) -> (t: SpecOptionType)
        ensures
            t == type_of(self@),
    {
        match self {
            Self::Bool(_) => SpecOptionType::Bool,
            Self::Int(_) => SpecOptionType::Int,
            Self::Float(_) => SpecOptionType::Float,
            Self::Str(_) => SpecOptionType::Str,
            Self::Version(_) => SpecOptionType::Version,
        }
    }

    /// Whether the value has the type `t`.
    pub fn is_type(&self, t: SpecOptionType) -> (b: bool)
        ensures
            b == (type_of(self@) == t),
    {
        self.to_type() == t
    }

    /// A copy of the value.
    pub fn duplicate(&self) -> (v: SpecOptionValue)
        ensures
            v@ == self@,
    {
        match self {
            Self::Bool(b) => Self::Bool(*b),
            Self::Int(i) => Self::Int(*i),
            Self::Float(bits) => Self::Float(*bits),
            Self::Str(s) => Self::Str(s.clone()),
            Self::Version(v) => Self::Version(v.duplicate()),
        }
    }

    /// Whether two values are equal: of one type, with equal contents.
    pub fn same(&self, other: &SpecOptionValue) -> (b: bool)
        ensures
            b == (self@ == other@),
    {
        match (self, other) {
            (Self::Bool(x), Self::Bool(y)) => *x == *y,
            (Self::Int(x), Self::Int(y)) => *x == *y,
            (Self::Float(x), Self::Float(y)) => *x == *y,
            (Self::Str(x), Self::Str(y)) => *x == *y,
            (Self::Version(x), Self::Version(y)) => x.same(y),
            _ => false,
        }
    }

    /// The value as it is written in a description.
    pub fn to_text(&self) -> (s: String)
        ensures
            s@ == value_text(self@),
    {
        match self {
            Self::Bool(b) => if *b {
                String::from_str("true")
            } else {
                String::from_str("false")
            },
            Self::Int(i) => write_signed(*i),
            Self::Float(bits) => {
                let mut s = String::from_str("float#");
                let digits = write_decimal(*bits);
                s.append(digits.as_str());
                s
            },
            Self::Str(s) => s.clone(),
            Self::Version(v) => v.to_text(),
        }
    }
}

impl Clone for SpecOptionValue {
    fn clone(&self) -> (v: Self)
        ensures
            v@ == self@,
    {
        self.duplicate()
    }
}

/// What is known of an option before it has a type: a value, a default and
/// the values it may take, each of which may be missing.
#[derive(Debug)]
pub struct SpecOption {
    pub value: Option<SpecOptionValue>,
    pub default: Option<SpecOptionValue>,
    pub valid: Option<Vec<SpecOptionValue>>,
}

/// The name of the solver's variable for the option `name` of `package`.
pub open spec fn variable_name(package: Seq<char>, name: Seq<char>) -> Seq<char> {
    package + seq!['/'] + name
}

impl SpecOption {
    /// An option of which nothing is known yet.
    pub fn new_from_type(t: SpecOptionType) -> (o: Self)
        ensures
            o.value is None,
            o.default is None,
            o.valid is None,
    {
        Self { value: None, default: None, valid: None }
    }

    /// The name of the solver's variable for the option `name` of
    /// `package`.
    pub fn serialize_name(&self, package: &str, name: &str) -> (s: String)
        ensures
            s@ == variable_name(package@, name@),
    {
        write_variable_name(package, name)
    }
}

impl Default for SpecOption {
    fn default() -> (o: Self)
        ensures
            o.value is None,
            o.default is None,
            o.valid is None,
    {
        Self { value: None, default: None, valid: None }
    }
}

/// The name of the solver's variable for the option `name` of `package`.
pub fn write_variable_name(package: &str, name: &str) -> (s: String)
    ensures
        s@ == variable_name(package@, name@),
{
    let mut s = String::from_str(package);
    s.push('/');
    s.append(name);
    assert(s@ =~= variable_name(package@, name@));
    s
}

} // verus!
