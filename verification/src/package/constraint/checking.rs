//! Whether a constraint is well typed, given the types of the options.

use super::kinds::{is_ordering, CmpType, ConstraintType};
use super::tree::{Constraint, IfThen};
use super::typing::{
    conflicting, facts, grounded, holds_all, holds_fact, keeps, leaves_open,
    lemma_table_shows_typable, lemma_types_determined, option_key, satisfies, solve_facts,
    type_in, type_of_key, FactView, Key,
};
use crate::package::error::{InvalidReason, SolverError};
use crate::package::registry::{distinct_keys, EntryView, Registry, WipRegistry};
use crate::package::version::{concrete, PartView};
use crate::spec::spec_option::{type_of, SpecOptionType, SpecOptionValue, ValueView};
use vstd::prelude::*;
use vstd::string::StringExecFns;

verus! {

/// What is wrong with the types of a constraint.
pub enum Fault {
    /// An option of a package is named of which the table has no type.
    Unknown(Seq<char>, Seq<char>),
    /// The two sides of a comparison differ in type.
    Mismatch(ConstraintType, ConstraintType),
    /// The constraint is not well formed.
    Invalid(InvalidReason),
}

/// The fault that an error tells of.
pub open spec fn fault_of(e: SolverError) -> Option<Fault> {
    match e {
        SolverError::UnknownType { package, option } => Some(Fault::Unknown(package@, option@)),
        SolverError::IncorrectConstraintType { expected, received } => Some(
            Fault::Mismatch(expected, received),
        ),
        SolverError::InvalidConstraint(reason) => Some(Fault::Invalid(reason)),
        _ => None,
    }
}

/// The type of `c`, given the types `table` of the options; nothing for an
/// option without type.
pub open spec fn node_type(c: Constraint, table: Seq<EntryView>) -> Option<ConstraintType> {
    match c {
        Constraint::Cmp(_) => Some(ConstraintType::Cmp),
        Constraint::Depends(_) => Some(ConstraintType::Depends),
        Constraint::IfThen(_) => Some(ConstraintType::IfThen),
        Constraint::Maximize(_) => Some(ConstraintType::Maximize),
        Constraint::Minimize(_) => Some(ConstraintType::Minimize),
        Constraint::NumOf(_) => Some(ConstraintType::Value(SpecOptionType::Int)),
        Constraint::SpecOption(o) => match type_in(
            table,
            (o.package_name@, Some(o.option_name@)),
        ) {
            Some(t) => Some(ConstraintType::Value(t)),
            None => None,
        },
        Constraint::Value(v) => Some(ConstraintType::Value(type_of(v.value@))),
    }
}

/// Whether something of type `t` stands for a truth value.
pub open spec fn is_clause_type(t: Option<ConstraintType>) -> bool {
    t == Some(ConstraintType::Depends) || t == Some(ConstraintType::Cmp) || t == Some(
        ConstraintType::IfThen,
    ) || t == Some(ConstraintType::Value(SpecOptionType::Bool))
}

/// Whether something of type `t` can be the condition of an `IfThen`.
pub open spec fn is_condition_type(t: Option<ConstraintType>) -> bool {
    t == Some(ConstraintType::Depends) || t == Some(ConstraintType::Cmp) || t == Some(
        ConstraintType::Value(SpecOptionType::Bool),
    )
}

/// Whether things of type `t` have an order: values that are no truth
/// values.
pub open spec fn is_ordered_type(t: Option<ConstraintType>) -> bool {
    t matches Some(ConstraintType::Value(v)) && v != SpecOptionType::Bool
}

/// Whether `c` is a version with placeholders, written out.
pub open spec fn holds_pattern(c: Constraint) -> bool {
    c matches Constraint::Value(v) && v.value@ matches ValueView::Version(parts) && !concrete(
        parts,
    )
}

/// What is wrong where `l` is held against `r` by `op`, both being well
/// typed themselves.
pub open spec fn compare_verdict(l: Constraint, r: Constraint, op: CmpType, table: Seq<EntryView>) -> Result<
    (),
    Fault,
> {
    let lt = node_type(l, table);
    let rt = node_type(r, table);
    if lt is None || rt is None {
        Err(Fault::Invalid(InvalidReason::Unordered))
    } else if lt != rt {
        Err(Fault::Mismatch(lt->0, rt->0))
    } else if is_ordering(op) {
        if holds_pattern(l) || holds_pattern(r) {
            Err(Fault::Invalid(InvalidReason::OrderedPattern))
        } else if !is_ordered_type(lt) {
            Err(Fault::Invalid(InvalidReason::Unordered))
        } else {
            Ok(())
        }
    } else if lt == Some(ConstraintType::Maximize) || lt == Some(ConstraintType::Minimize) {
        Err(Fault::Invalid(InvalidReason::Incomparable))
    } else if (holds_pattern(l) && option_key(r) is None) || (holds_pattern(r) && option_key(l)
        is None) {
        Err(Fault::Invalid(InvalidReason::Pattern))
    } else {
        Ok(())
    }
}

/// What is wrong with what an objective holds, that being well typed
/// itself.
pub open spec fn objective_verdict(item: Constraint, table: Seq<EntryView>) -> Result<(), Fault> {
    if !is_ordered_type(node_type(item, table)) || holds_pattern(item) {
        Err(Fault::Invalid(InvalidReason::Objective))
    } else {
        Ok(())
    }
}

/// What is wrong with the types of `c`, if anything: the first fault that
/// is met when the tree is read from the left, the parts before the whole.
/// Whether a package that is named is known is not asked here: that is
/// for the graph of the outlines and for the writing of the clauses.
pub open spec fn verdict(c: Constraint, table: Seq<EntryView>) -> Result<(), Fault>
    decreases c, 0nat,
{
    match c {
        Constraint::Depends(_) => Ok(()),
        Constraint::SpecOption(o) => if type_in(table, (o.package_name@, Some(o.option_name@)))
            is Some {
            Ok(())
        } else {
            Err(Fault::Unknown(o.package_name@, o.option_name@))
        },
        Constraint::Value(_) => Ok(()),
        Constraint::Cmp(b) => match verdict(b.lhs, table) {
            Err(f) => Err(f),
            Ok(_) => match verdict(b.rhs, table) {
                Err(f) => Err(f),
                Ok(_) => compare_verdict(b.lhs, b.rhs, b.op, table),
            },
        },
        Constraint::IfThen(b) => match *b {
            IfThen { cond, then } => match verdict(cond, table) {
                Err(f) => Err(f),
                Ok(_) => match verdict(then, table) {
                    Err(f) => Err(f),
                    Ok(_) => if !is_condition_type(node_type(cond, table)) {
                        Err(Fault::Invalid(InvalidReason::Condition))
                    } else if !is_clause_type(node_type(then, table)) {
                        Err(Fault::Invalid(InvalidReason::NotBoolean))
                    } else {
                        Ok(())
                    },
                },
            },
        },
        Constraint::Maximize(b) => match verdict(b.item, table) {
            Err(f) => Err(f),
            Ok(_) => objective_verdict(b.item, table),
        },
        Constraint::Minimize(b) => match verdict(b.item, table) {
            Err(f) => Err(f),
            Ok(_) => objective_verdict(b.item, table),
        },
        Constraint::NumOf(b) => verdict_first(b.of@, b.of@.len(), table),
    }
}

/// What is wrong with the first `n` of the things that are counted, each
/// of which has to stand for a truth value.
pub open spec fn verdict_first(children: Seq<Constraint>, n: nat, table: Seq<EntryView>) -> Result<
    (),
    Fault,
>
    decreases children, n,
{
    if n == 0 || n > children.len() {
        Ok(())
    } else {
        match verdict_first(children, (n - 1) as nat, table) {
            Err(f) => Err(f),
            Ok(_) => match verdict(children[n - 1], table) {
                Err(f) => Err(f),
                Ok(_) => if is_clause_type(node_type(children[n - 1], table)) {
                    Ok(())
                } else {
                    Err(Fault::Invalid(InvalidReason::NotBoolean))
                },
            },
        }
    }
}

/// What is wrong with `c` as a constraint of a package: it has to be well
/// typed, and an objective or something that stands for a truth value.
pub open spec fn top_verdict(c: Constraint, table: Seq<EntryView>) -> Result<(), Fault> {
    match verdict(c, table) {
        Err(f) => Err(f),
        Ok(_) => if c is Maximize || c is Minimize || is_clause_type(node_type(c, table)) {
            Ok(())
        } else {
            Err(Fault::Invalid(InvalidReason::NotBoolean))
        },
    }
}

fn clause_type(t: Option<ConstraintType>) -> (b: bool)
    ensures
        b == is_clause_type(t),
{
    match t {
        Some(ConstraintType::Depends) => true,
        Some(ConstraintType::Cmp) => true,
        Some(ConstraintType::IfThen) => true,
        Some(ConstraintType::Value(SpecOptionType::Bool)) => true,
        _ => false,
    }
}

fn condition_type(t: Option<ConstraintType>) -> (b: bool)
    ensures
        b == is_condition_type(t),
{
    match t {
        Some(ConstraintType::Depends) => true,
        Some(ConstraintType::Cmp) => true,
        Some(ConstraintType::Value(SpecOptionType::Bool)) => true,
        _ => false,
    }
}

fn ordered_type(t: Option<ConstraintType>) -> (b: bool)
    ensures
        b == is_ordered_type(t),
{
    match t {
        Some(ConstraintType::Value(SpecOptionType::Bool)) => false,
        Some(ConstraintType::Value(_)) => true,
        _ => false,
    }
}

/// The way an assertion of a verdict reads for a result of a check.
pub open spec fn reports(r: Result<(), SolverError>, v: Result<(), Fault>) -> bool {
    match r {
        Ok(_) => v is Ok,
        Err(e) => fault_of(e) matches Some(f) && v == Err::<(), Fault>(f),
    }
}

impl Constraint {
    /// The type of the constraint, given the types that the registry has
    /// for the options.
    pub fn get_type<V>(&self, registry: &Registry<V>) -> (t: Option<ConstraintType>)
        requires
            registry.wf(),
        ensures
            t == node_type(*self, registry.table()),
    {
        match self {
            Constraint::Cmp(_) => Some(ConstraintType::Cmp),
            Constraint::Depends(_) => Some(ConstraintType::Depends),
            Constraint::IfThen(_) => Some(ConstraintType::IfThen),
            Constraint::Maximize(_) => Some(ConstraintType::Maximize),
            Constraint::Minimize(_) => Some(ConstraintType::Minimize),
            Constraint::NumOf(_) => Some(ConstraintType::Value(SpecOptionType::Int)),
            Constraint::SpecOption(o) => match type_of_key(
                registry,
                o.package_name.as_str(),
                Some(o.option_name.as_str()),
            ) {
                Some(t) => Some(ConstraintType::Value(t)),
                None => None,
            },
            Constraint::Value(v) => Some(ConstraintType::Value(v.value.to_type())),
        }
    }

    /// Whether the constraint is a version with placeholders, written out.
    pub fn is_pattern(&self) -> (b: bool)
        ensures
            b == holds_pattern(*self),
    {
        match self {
            Constraint::Value(v) => match &v.value {
                SpecOptionValue::Version(ver) => !ver.is_concrete(),
                _ => false,
            },
            _ => false,
        }
    }

    /// Whether the constraint is nothing but an option.
    pub fn is_option(&self) -> (b: bool)
        ensures
            b == option_key(*self) is Some,
    {
        match self {
            Constraint::SpecOption(_) => true,
            _ => false,
        }
    }

    fn check_comparison<V>(l: &Constraint, r: &Constraint, op: CmpType, registry: &Registry<V>) -> (res:
        Result<(), SolverError>)
        requires
            registry.wf(),
        ensures
            reports(res, compare_verdict(*l, *r, op, registry.table())),
    {
        let lt = l.get_type(registry);
        let rt = r.get_type(registry);
        match (lt, rt) {
            (Some(x), Some(y)) => {
                if x != y {
                    Err(SolverError::IncorrectConstraintType { expected: x, received: y })
                } else if op.asks_order() {
                    if l.is_pattern() || r.is_pattern() {
                        Err(SolverError::InvalidConstraint(InvalidReason::OrderedPattern))
                    } else if !ordered_type(lt) {
                        Err(SolverError::InvalidConstraint(InvalidReason::Unordered))
                    } else {
                        Ok(())
                    }
                } else {
                    match x {
                        ConstraintType::Maximize | ConstraintType::Minimize => Err(
                            SolverError::InvalidConstraint(InvalidReason::Incomparable),
                        ),
                        _ => {
                            if (l.is_pattern() && !r.is_option()) || (r.is_pattern()
                                && !l.is_option()) {
                                Err(SolverError::InvalidConstraint(InvalidReason::Pattern))
                            } else {
                                Ok(())
                            }
                        },
                    }
                }
            },
            _ => Err(SolverError::InvalidConstraint(InvalidReason::Unordered)),
        }
    }

    fn check_objective<V>(item: &Constraint, registry: &Registry<V>) -> (res: Result<
        (),
        SolverError,
    >)
        requires
            registry.wf(),
        ensures
            reports(res, objective_verdict(*item, registry.table())),
    {
        if !ordered_type(item.get_type(registry)) || item.is_pattern() {
            Err(SolverError::InvalidConstraint(InvalidReason::Objective))
        } else {
            Ok(())
        }
    }

    /// Checks the types of the constraint against the types that the
    /// registry has for the options.
    #[verifier::loop_isolation(false)]
    pub fn check<V>(&self, registry: &Registry<V>) -> (res: Result<(), SolverError>)
        requires
            registry.wf(),
        ensures
            reports(res, verdict(*self, registry.table())),
        decreases self,
    {
        match self {
            Constraint::Depends(_) => Ok(()),
            Constraint::SpecOption(o) => {
                match type_of_key(
                    registry,
                    o.package_name.as_str(),
                    Some(o.option_name.as_str()),
                ) {
                    Some(_) => Ok(()),
                    None => Err(
                        SolverError::UnknownType {
                            package: o.package_name.clone(),
                            option: o.option_name.clone(),
                        },
                    ),
                }
            },
            Constraint::Value(_) => Ok(()),
            Constraint::Cmp(b) => {
                match b.lhs.check(registry) {
                    Err(e) => Err(e),
                    Ok(_) => match b.rhs.check(registry) {
                        Err(e) => Err(e),
                        Ok(_) => Self::check_comparison(&b.lhs, &b.rhs, b.op, registry),
                    },
                }
            },
            Constraint::IfThen(b) => {
                let IfThen { cond, then } = &**b;
                match cond.check(registry) {
                    Err(e) => Err(e),
                    Ok(_) => match then.check(registry) {
                        Err(e) => Err(e),
                        Ok(_) => {
                            if !condition_type(cond.get_type(registry)) {
                                Err(SolverError::InvalidConstraint(InvalidReason::Condition))
                            } else if !clause_type(then.get_type(registry)) {
                                Err(SolverError::InvalidConstraint(InvalidReason::NotBoolean))
                            } else {
                                Ok(())
                            }
                        },
                    },
                }
            },
            Constraint::Maximize(b) => {
                match b.item.check(registry) {
                    Err(e) => Err(e),
                    Ok(_) => Self::check_objective(&b.item, registry),
                }
            },
            Constraint::Minimize(b) => {
                match b.item.check(registry) {
                    Err(e) => Err(e),
                    Ok(_) => Self::check_objective(&b.item, registry),
                }
            },
            Constraint::NumOf(b) => {
                let mut i: usize = 0;
                while i < b.of.len()
                    invariant
                        i <= b.of.len(),
                        verdict_first(b.of@, i as nat, registry.table()) is Ok,
                    decreases b.of.len() - i,
                {
                    proof {
                        assert(decreases_to!(b.of => b.of@));
                        assert(decreases_to!(b.of@ => b.of@[i as int]));
                    }
                    match b.of[i].check(registry) {
                        Err(e) => {
                            proof {
                                lemma_verdict_first_fails(
                                    b.of@,
                                    (i + 1) as nat,
                                    b.of@.len(),
                                    registry.table(),
                                );
                            }
                            return Err(e);
                        },
                        Ok(_) => {},
                    }
                    if !clause_type(b.of[i].get_type(registry)) {
                        proof {
                            lemma_verdict_first_fails(
                                b.of@,
                                (i + 1) as nat,
                                b.of@.len(),
                                registry.table(),
                            );
                        }
                        return Err(SolverError::InvalidConstraint(InvalidReason::NotBoolean));
                    }
                    i = i + 1;
                }
                Ok(())
            },
        }
    }

    /// Checks the types of the constraint as a constraint of a package.
    pub fn check_top<V>(&self, registry: &Registry<V>) -> (res: Result<(), SolverError>)
        requires
            registry.wf(),
        ensures
            reports(res, top_verdict(*self, registry.table())),
    {
        match self.check(registry) {
            Err(e) => Err(e),
            Ok(_) => {
                let objective = match self {
                    Constraint::Maximize(_) => true,
                    Constraint::Minimize(_) => true,
                    _ => false,
                };
                if objective || clause_type(self.get_type(registry)) {
                    Ok(())
                } else {
                    Err(SolverError::InvalidConstraint(InvalidReason::NotBoolean))
                }
            },
        }
    }
}

/// The versions that are written out in `c`, in the order of the tree.
pub open spec fn version_literals(c: Constraint) -> Seq<Seq<PartView>>
    decreases c, 0nat,
{
    match c {
        Constraint::Depends(_) => Seq::empty(),
        Constraint::SpecOption(_) => Seq::empty(),
        Constraint::Value(v) => match v.value@ {
            ValueView::Version(parts) => seq![parts],
            _ => Seq::empty(),
        },
        Constraint::Cmp(b) => version_literals(b.lhs) + version_literals(b.rhs),
        Constraint::IfThen(b) => match *b {
            IfThen { cond, then } => version_literals(cond) + version_literals(then),
        },
        Constraint::Maximize(b) => version_literals(b.item),
        Constraint::Minimize(b) => version_literals(b.item),
        Constraint::NumOf(b) => version_literals_first(b.of@, b.of@.len()),
    }
}

/// [`version_literals`] of the first `n` of `children`, one after the
/// other.
pub open spec fn version_literals_first(children: Seq<Constraint>, n: nat) -> Seq<Seq<PartView>>
    decreases children, n,
{
    if n == 0 || n > children.len() {
        Seq::empty()
    } else {
        version_literals_first(children, (n - 1) as nat) + version_literals(children[n - 1])
    }
}

/// Whether `typed` is a table of the types that the facts `stated` give,
/// over the table `base`: it starts with the lines of `base`, has each
/// option once, agrees with the facts, and has no type but what they
/// give.
pub open spec fn table_for(base: Seq<EntryView>, stated: Seq<FactView>, typed: Seq<EntryView>) -> bool {
    &&& distinct_keys(typed)
    &&& keeps(base, typed)
    &&& grounded(base, stated, typed)
    &&& satisfies(typed, stated)
}

/// Whether two tables give each option the same type.
pub open spec fn same_types(one: Seq<EntryView>, other: Seq<EntryView>) -> bool {
    forall|key: Key|
        #![trigger type_in(one, key)]
        #![trigger type_in(other, key)]
        type_in(one, key) == type_in(other, key)
}

/// Two tables of the types that the same facts give agree on the type of
/// each option.
pub proof fn lemma_tables_agree(
    base: Seq<EntryView>,
    stated: Seq<FactView>,
    one: Seq<EntryView>,
    other: Seq<EntryView>,
)
    requires
        table_for(base, stated, one),
        table_for(base, stated, other),
    ensures
        same_types(one, other),
{
    assert(holds_all(stated, stated)) by {
        assert forall|i: int| 0 <= i < stated.len() implies holds_fact(stated, #[trigger] stated[i]) by {}
    }
    assert forall|key: Key|
        #![trigger type_in(one, key)]
        #![trigger type_in(other, key)]
        type_in(one, key) == type_in(other, key) by {
        lemma_types_determined(base, stated, stated, one, other, key);
    }
}

/// What is wrong with a constraint hangs on the types of the options
/// alone: under tables that agree on them the verdict is the same.
pub proof fn lemma_verdict_by_types(c: Constraint, one: Seq<EntryView>, other: Seq<EntryView>)
    requires
        same_types(one, other),
    ensures
        node_type(c, one) == node_type(c, other),
        verdict(c, one) == verdict(c, other),
        top_verdict(c, one) == top_verdict(c, other),
    decreases c, 0nat,
{
    match c {
        Constraint::Depends(_) => {},
        Constraint::SpecOption(o) => {
            assert(type_in(one, (o.package_name@, Some(o.option_name@))) == type_in(
                other,
                (o.package_name@, Some(o.option_name@)),
            ));
        },
        Constraint::Value(_) => {},
        Constraint::Cmp(b) => {
            lemma_verdict_by_types(b.lhs, one, other);
            lemma_verdict_by_types(b.rhs, one, other);
        },
        Constraint::IfThen(b) => {
            match *b {
                IfThen { cond, then } => {
                    lemma_verdict_by_types(cond, one, other);
                    lemma_verdict_by_types(then, one, other);
                },
            }
        },
        Constraint::Maximize(b) => {
            lemma_verdict_by_types(b.item, one, other);
        },
        Constraint::Minimize(b) => {
            lemma_verdict_by_types(b.item, one, other);
        },
        Constraint::NumOf(b) => {
            lemma_verdict_first_by_types(b.of@, b.of@.len(), one, other);
        },
    }
}

proof fn lemma_verdict_first_by_types(
    children: Seq<Constraint>,
    n: nat,
    one: Seq<EntryView>,
    other: Seq<EntryView>,
)
    requires
        same_types(one, other),
    ensures
        verdict_first(children, n, one) == verdict_first(children, n, other),
    decreases children, n,
{
    if n > 0 && n <= children.len() {
        lemma_verdict_first_by_types(children, (n - 1) as nat, one, other);
        lemma_verdict_by_types(children[n - 1], one, other);
    }
}

/// What an error of a type check says, given the facts that were put to
/// the registry and the verdict on the constraint.
pub open spec fn explains(
    e: SolverError,
    base: Seq<EntryView>,
    stated: Seq<super::typing::FactView>,
    table: Seq<EntryView>,
    v: Result<(), Fault>,
) -> bool {
    ||| e is IncorrectConstraintType && conflicting(base, stated)
    ||| e is UnknownType && exists|i: int| leaves_open(table, stated, i)
    ||| fault_of(e) matches Some(f) && v == Err::<(), Fault>(f)
}

impl Constraint {
    /// Takes note in the registry of the versions that are written out in
    /// the constraint.
    #[verifier::loop_isolation(false)]
    pub fn note_versions(&self, registry: &mut WipRegistry)
        ensures
            final(registry).versions().pushed() == old(registry).versions().pushed()
                + version_literals(*self),
            final(registry).table() == old(registry).table(),
            final(registry).descriptions() == old(registry).descriptions(),
        decreases self,
    {
        let ghost start = registry.versions().pushed();
        match self {
            Constraint::Depends(_) => {
                assert(registry.versions().pushed() =~= start + version_literals(*self));
            },
            Constraint::SpecOption(_) => {
                assert(registry.versions().pushed() =~= start + version_literals(*self));
            },
            Constraint::Value(v) => {
                match &v.value {
                    SpecOptionValue::Version(ver) => {
                        registry.push_version(ver.duplicate());
                    },
                    _ => {},
                }
                assert(registry.versions().pushed() =~= start + version_literals(*self));
            },
            Constraint::Cmp(b) => {
                b.lhs.note_versions(registry);
                b.rhs.note_versions(registry);
                assert(registry.versions().pushed() =~= start + version_literals(*self));
            },
            Constraint::IfThen(b) => {
                let IfThen { cond, then } = &**b;
                cond.note_versions(registry);
                then.note_versions(registry);
                assert(registry.versions().pushed() =~= start + version_literals(*self));
            },
            Constraint::Maximize(b) => {
                b.item.note_versions(registry);
            },
            Constraint::Minimize(b) => {
                b.item.note_versions(registry);
            },
            Constraint::NumOf(b) => {
                let mut i: usize = 0;
                assert(registry.versions().pushed() =~= start + version_literals_first(b.of@, 0));
                while i < b.of.len()
                    invariant
                        i <= b.of.len(),
                        registry.table() == old(registry).table(),
                        registry.descriptions() == old(registry).descriptions(),
                        registry.versions().pushed() == start + version_literals_first(
                            b.of@,
                            i as nat,
                        ),
                    decreases b.of.len() - i,
                {
                    proof {
                        assert(decreases_to!(b.of => b.of@));
                        assert(decreases_to!(b.of@ => b.of@[i as int]));
                    }
                    b.of[i].note_versions(registry);
                    assert(registry.versions().pushed() =~= start + version_literals_first(
                        b.of@,
                        (i + 1) as nat,
                    ));
                    i = i + 1;
                }
            },
        }
    }

    /// Tells the types of the options that the constraint names, as far as
    /// the constraint says, enters them in the registry, and checks the
    /// constraint against them. The versions that are written out in the
    /// constraint are noted in the registry.
    ///
    /// The check goes through exactly where there is a table of the types
    /// that the constraint gives under which it is well typed.
    pub fn type_check(&self, registry: &mut WipRegistry) -> (res: Result<(), SolverError>)
        requires
            old(registry).wf(),
        ensures
            res is Ok <==> exists|typed: Seq<EntryView>|
                #[trigger] table_for(old(registry).table(), facts(*self), typed) && verdict(
                    *self,
                    typed,
                ) is Ok,
            final(registry).wf(),
            final(registry).descriptions() == old(registry).descriptions(),
            final(registry).versions().pushed() == old(registry).versions().pushed()
                + version_literals(*self),
            keeps(old(registry).table(), final(registry).table()),
            grounded(old(registry).table(), facts(*self), final(registry).table()),
            match res {
                Ok(_) => satisfies(final(registry).table(), facts(*self)) && verdict(
                    *self,
                    final(registry).table(),
                ) is Ok,
                Err(e) => explains(
                    e,
                    old(registry).table(),
                    facts(*self),
                    final(registry).table(),
                    verdict(*self, final(registry).table()),
                ),
            },
    {
        let ghost base = registry.table();
        self.note_versions(registry);
        let stated = self.extract_facts();
        match solve_facts(&stated, registry) {
            Err(e) => {
                proof {
                    assert forall|typed: Seq<EntryView>|
                        !(#[trigger] table_for(base, facts(*self), typed) && verdict(*self, typed)
                            is Ok) by {
                        if table_for(base, facts(*self), typed) {
                            lemma_table_shows_typable(base, facts(*self), typed);
                        }
                    }
                }
                return Err(e);
            },
            Ok(_) => {},
        }
        let res = self.check(registry);
        proof {
            let found = registry.table();
            assert(table_for(base, facts(*self), found));
            if res is Err {
                assert forall|typed: Seq<EntryView>|
                    !(#[trigger] table_for(base, facts(*self), typed) && verdict(*self, typed)
                        is Ok) by {
                    if table_for(base, facts(*self), typed) {
                        lemma_tables_agree(base, facts(*self), found, typed);
                        lemma_verdict_by_types(*self, found, typed);
                    }
                }
            }
        }
        res
    }
}

/// Once one of the things that are counted is at fault, that is the answer
/// however many more are looked at.
pub proof fn lemma_verdict_first_fails(
    children: Seq<Constraint>,
    n: nat,
    m: nat,
    table: Seq<EntryView>,
)
    requires
        n <= m <= children.len(),
        verdict_first(children, n, table) is Err,
    ensures
        verdict_first(children, m, table) == verdict_first(children, n, table),
    decreases m - n,
{
    if n < m {
        lemma_verdict_first_fails(children, n, (m - 1) as nat, table);
    }
}

} // verus!
