//! How a constraint is written as a term of the solver.

use super::checking::holds_pattern;
use super::kinds::{is_ordering, CmpType};
use super::tree::{Cmp, Constraint, IfThen};
use super::typing::{option_key, Key};
use crate::package::error::{InvalidReason, SolverError};
use crate::package::registry::{
    among, distinct_keys, has_line, is_line_of, lemma_line_unique, str_view, text_view,
    BuiltRegistry, EntryView,
};
use crate::package::version::{concrete, Part, PartView, Version, WildcardType};
use crate::solver::term::{sort_for, sort_of, sort_of_type, term_view, Sort, Term, TermView};
use crate::spec::spec_option::{SpecOptionValue, ValueView};
use vstd::prelude::*;
use vstd::string::StringExecFns;

verus! {

/// Why a constraint cannot be written as a term.
pub enum ClauseFault {
    /// A package is named that the table does not know.
    MissingPackage(Seq<char>),
    /// An option is named that the table does not know.
    MissingVariable(Seq<char>, Seq<char>),
    /// An option or a switch has no variable.
    NoVariable(Seq<char>, Option<Seq<char>>),
    /// A term has another sort than its place asks for.
    Sort(Sort, Sort),
    /// The constraint is not well formed.
    Invalid(InvalidReason),
}

/// The fault that an error tells of.
pub open spec fn clause_fault_of(e: SolverError) -> Option<ClauseFault> {
    match e {
        SolverError::MissingPackage { dep } => Some(ClauseFault::MissingPackage(dep@)),
        SolverError::MissingVariable { package, name } => Some(
            ClauseFault::MissingVariable(package@, name@),
        ),
        SolverError::NoSolverVariable { package, option } => Some(
            ClauseFault::NoVariable(package@, text_view(option)),
        ),
        SolverError::IncorrectSolverType { expected, received } => Some(
            ClauseFault::Sort(expected, received),
        ),
        SolverError::InvalidConstraint(reason) => Some(ClauseFault::Invalid(reason)),
        _ => None,
    }
}

/// Whether the result `res` is what the term or fault `wanted` asks for.
pub open spec fn agrees(res: Result<Term, SolverError>, wanted: Result<TermView, ClauseFault>) -> bool {
    match res {
        Ok(t) => wanted == Ok::<TermView, ClauseFault>(t@) && sort_of(t@) is Some,
        Err(e) => clause_fault_of(e) matches Some(f) && wanted == Err::<TermView, ClauseFault>(f),
    }
}

/// The line that `table` has for `key`: the last one for it.
pub open spec fn entry_in(table: Seq<EntryView>, key: Key) -> Option<EntryView>
    decreases table.len(),
{
    if table.len() == 0 {
        None
    } else if table.last().package == key.0 && table.last().option == key.1 {
        Some(table.last())
    } else {
        entry_in(table.drop_last(), key)
    }
}

/// [`entry_in`] gives the line for the option, if there is one.
pub proof fn lemma_entry_in(table: Seq<EntryView>, key: Key)
    requires
        distinct_keys(table),
    ensures
        forall|i: int| is_line_of(table, i, key.0, key.1) ==> entry_in(table, key) == Some(table[i]),
        !has_line(table, key.0, key.1) ==> entry_in(table, key) is None,
    decreases table.len(),
{
    if table.len() > 0 {
        let init = table.drop_last();
        let last = table.len() - 1;
        assert(distinct_keys(init)) by {
            assert forall|i: int, j: int| 0 <= i < j < init.len() implies !((
            #[trigger] init[i]).package == (#[trigger] init[j]).package && init[i].option
                == init[j].option) by {
                assert(init[i] == table[i] && init[j] == table[j]);
            }
        }
        lemma_entry_in(init, key);
        if table.last().package == key.0 && table.last().option == key.1 {
            assert(is_line_of(table, last, key.0, key.1));
            assert forall|i: int| is_line_of(table, i, key.0, key.1) implies entry_in(table, key)
                == Some(table[i]) by {
                lemma_line_unique(table, i, last, key.0, key.1);
            }
        } else {
            assert forall|i: int| is_line_of(table, i, key.0, key.1) implies entry_in(table, key)
                == Some(table[i]) by {
                assert(is_line_of(init, i, key.0, key.1));
            }
            if has_line(init, key.0, key.1) {
                let i = choose|i: int| is_line_of(init, i, key.0, key.1);
                assert(is_line_of(table, i, key.0, key.1));
            }
        }
    }
}

/// The variable of `option` of `package`, as a term.
pub open spec fn variable_term(table: Seq<EntryView>, package: Seq<char>, option: Option<Seq<char>>) -> Result<
    TermView,
    ClauseFault,
> {
    match entry_in(table, (package, option)) {
        None => match option {
            None => Err(ClauseFault::MissingPackage(package)),
            Some(name) => if entry_in(table, (package, None)) is Some {
                Err(ClauseFault::MissingVariable(package, name))
            } else {
                Err(ClauseFault::MissingPackage(package))
            },
        },
        Some(line) => match line.variable {
            None => Err(ClauseFault::NoVariable(package, option)),
            Some(name) => Ok(TermView::Var(name, sort_for(line.dtype))),
        },
    }
}

/// The first place from `i` on at which `versions` holds `v`.
pub open spec fn number_from(versions: Seq<Seq<PartView>>, v: Seq<PartView>, i: int) -> Option<int>
    decreases versions.len() - i,
{
    if i < 0 || i >= versions.len() {
        None
    } else if versions[i] == v {
        Some(i)
    } else {
        number_from(versions, v, i + 1)
    }
}

/// A value that is written out, as a term. A version is written as its
/// number; one without number is written as the largest number there is.
pub open spec fn literal_term(v: ValueView, versions: Seq<Seq<PartView>>) -> TermView {
    match v {
        ValueView::Bool(b) => TermView::Bool(b),
        ValueView::Int(i) => TermView::Int(i as int),
        ValueView::Float(bits) => TermView::Float(bits),
        ValueView::Str(s) => TermView::Str(s),
        ValueView::Version(parts) => match number_from(versions, parts, 0) {
            Some(i) => TermView::Int(i),
            None => TermView::Int(u64::MAX as int),
        },
    }
}

/// The comparison of `a` with `b` by `op`, as a term.
pub open spec fn compare_term(op: CmpType, a: TermView, b: TermView) -> TermView {
    match op {
        CmpType::Less => TermView::Lt(Box::new(a), Box::new(b)),
        CmpType::LessOrEqual => TermView::Le(Box::new(a), Box::new(b)),
        CmpType::NotEqual => TermView::Ne(Box::new(a), Box::new(b)),
        CmpType::Equal => TermView::Eq(Box::new(a), Box::new(b)),
        CmpType::GreaterOrEqual => TermView::Ge(Box::new(a), Box::new(b)),
        CmpType::Greater => TermView::Gt(Box::new(a), Box::new(b)),
    }
}

/// The comparison of `a` with `b` by `op`, where it is well sorted.
pub open spec fn compared(op: CmpType, a: TermView, b: TermView) -> Result<TermView, ClauseFault> {
    match (sort_of(a), sort_of(b)) {
        (Some(x), Some(y)) => if x != y {
            Err(ClauseFault::Sort(x, y))
        } else if is_ordering(op) && x == Sort::Bool {
            Err(ClauseFault::Invalid(InvalidReason::Unordered))
        } else {
            Ok(compare_term(op, a, b))
        },
        _ => Err(ClauseFault::Invalid(InvalidReason::NotBoolean)),
    }
}

/// That `var` is the number of one of the first `n` of `versions` that
/// have `part` at place `k`.
pub open spec fn choices_first(
    var: TermView,
    k: int,
    part: PartView,
    versions: Seq<Seq<PartView>>,
    n: nat,
) -> TermView
    decreases n,
{
    if n == 0 || n > versions.len() {
        TermView::Bool(false)
    } else {
        let rest = choices_first(var, k, part, versions, (n - 1) as nat);
        if 0 <= k < versions[n - 1].len() && versions[n - 1][k] == part {
            TermView::Or(
                Box::new(rest),
                Box::new(TermView::Eq(Box::new(var), Box::new(TermView::Int(n - 1)))),
            )
        } else {
            rest
        }
    }
}

/// That the version whose number `var` is agrees with `parts` at each of
/// the first `k` places that hold no placeholder.
pub open spec fn pattern_first(
    var: TermView,
    parts: Seq<PartView>,
    versions: Seq<Seq<PartView>>,
    k: nat,
) -> TermView
    decreases k,
{
    if k == 0 || k > parts.len() {
        TermView::Bool(true)
    } else {
        let rest = pattern_first(var, parts, versions, (k - 1) as nat);
        if parts[k - 1] is Wildcard {
            rest
        } else {
            TermView::And(
                Box::new(rest),
                Box::new(choices_first(var, k - 1, parts[k - 1], versions, versions.len())),
            )
        }
    }
}

/// The first place from `i` on at which `parts` holds `>`, or the length
/// of `parts`.
pub open spec fn rest_limit(parts: Seq<PartView>, i: int) -> int
    decreases parts.len() - i,
{
    if i < 0 || i >= parts.len() {
        parts.len() as int
    } else if parts[i] == PartView::Wildcard(WildcardType::Rest) {
        i
    } else {
        rest_limit(parts, i + 1)
    }
}

/// That the version whose number `var` is agrees with the pattern `parts`:
/// part by part, `*` passing over its place and `>` over all that
/// follows.
pub open spec fn matches_pattern(var: TermView, parts: Seq<PartView>, versions: Seq<Seq<PartView>>) -> TermView {
    pattern_first(var, parts, versions, rest_limit(parts, 0) as nat)
}

/// The pattern that `c` writes out.
pub open spec fn pattern_of(c: Constraint) -> Seq<PartView> {
    match c {
        Constraint::Value(v) => match v.value@ {
            ValueView::Version(parts) => parts,
            _ => Seq::empty(),
        },
        _ => Seq::empty(),
    }
}

/// The comparison of the option `key` with the pattern `parts`.
pub open spec fn pattern_clause(
    key: Key,
    parts: Seq<PartView>,
    op: CmpType,
    table: Seq<EntryView>,
    versions: Seq<Seq<PartView>>,
) -> Result<TermView, ClauseFault> {
    match variable_term(table, key.0, key.1) {
        Err(f) => Err(f),
        Ok(var) => if sort_of(var) != Some(Sort::Int) {
            Err(ClauseFault::Sort(Sort::Int, sort_of(var)->0))
        } else {
            match op {
                CmpType::Equal => Ok(matches_pattern(var, parts, versions)),
                CmpType::NotEqual => Ok(
                    TermView::Not(Box::new(matches_pattern(var, parts, versions))),
                ),
                _ => Err(ClauseFault::Invalid(InvalidReason::OrderedPattern)),
            }
        },
    }
}

/// The term with sort `Bool` that `t` is, or the fault that it is none.
pub open spec fn as_truth(t: TermView) -> Result<TermView, ClauseFault> {
    match sort_of(t) {
        Some(Sort::Bool) => Ok(t),
        Some(other) => Err(ClauseFault::Sort(Sort::Bool, other)),
        None => Err(ClauseFault::Invalid(InvalidReason::NotBoolean)),
    }
}

/// The term that `c` is, given the table of options and the numbered
/// versions.
pub open spec fn clause(c: Constraint, table: Seq<EntryView>, versions: Seq<Seq<PartView>>) -> Result<
    TermView,
    ClauseFault,
>
    decreases c, 0nat,
{
    match c {
        Constraint::Depends(d) => variable_term(table, d.name(), None),
        Constraint::SpecOption(o) => variable_term(table, o.package_name@, Some(o.option_name@)),
        Constraint::Value(v) => Ok(literal_term(v.value@, versions)),
        Constraint::Cmp(b) => if holds_pattern(b.rhs) && option_key(b.lhs) is Some {
            pattern_clause(option_key(b.lhs)->0, pattern_of(b.rhs), b.op, table, versions)
        } else if holds_pattern(b.lhs) && option_key(b.rhs) is Some {
            pattern_clause(option_key(b.rhs)->0, pattern_of(b.lhs), b.op, table, versions)
        } else {
            match clause(b.lhs, table, versions) {
                Err(f) => Err(f),
                Ok(l) => match clause(b.rhs, table, versions) {
                    Err(f) => Err(f),
                    Ok(r) => compared(b.op, l, r),
                },
            }
        },
        Constraint::IfThen(b) => match *b {
            IfThen { cond, then } => match clause(cond, table, versions) {
                Err(f) => Err(f),
                Ok(c) => match clause(then, table, versions) {
                    Err(f) => Err(f),
                    Ok(t) => match as_truth(c) {
                        Err(f) => Err(f),
                        Ok(_) => match as_truth(t) {
                            Err(f) => Err(f),
                            Ok(_) => Ok(TermView::Implies(Box::new(c), Box::new(t))),
                        },
                    },
                },
            },
        },
        Constraint::Maximize(_) => Err(ClauseFault::Invalid(InvalidReason::ObjectiveAsClause)),
        Constraint::Minimize(_) => Err(ClauseFault::Invalid(InvalidReason::ObjectiveAsClause)),
        Constraint::NumOf(b) => count_first(b.of@, b.of@.len(), table, versions),
    }
}

/// The number of the first `n` of `children` that hold: a sum with one for
/// each that does and zero for each that does not.
pub open spec fn count_first(
    children: Seq<Constraint>,
    n: nat,
    table: Seq<EntryView>,
    versions: Seq<Seq<PartView>>,
) -> Result<TermView, ClauseFault>
    decreases children, n,
{
    if n == 0 || n > children.len() {
        Ok(TermView::Int(0))
    } else {
        match count_first(children, (n - 1) as nat, table, versions) {
            Err(f) => Err(f),
            Ok(sum) => match clause(children[n - 1], table, versions) {
                Err(f) => Err(f),
                Ok(t) => match as_truth(t) {
                    Err(f) => Err(f),
                    Ok(_) => Ok(
                        TermView::Add(
                            Box::new(sum),
                            Box::new(
                                TermView::Ite(
                                    Box::new(t),
                                    Box::new(TermView::Int(1)),
                                    Box::new(TermView::Int(0)),
                                ),
                            ),
                        ),
                    ),
                },
            },
        }
    }
}

/// The variable of `option` of `package`, as a term.
pub fn variable_of(registry: &BuiltRegistry, package: &str, option: Option<&str>) -> (res: Result<
    Term,
    SolverError,
>)
    requires
        registry.wf(),
    ensures
        agrees(res, variable_term(registry.table(), package@, str_view(option))),
{
    proof {
        lemma_entry_in(registry.table(), (package@, str_view(option)));
        lemma_entry_in(registry.table(), (package@, None));
    }
    match registry.lookup_option(package, option) {
        None => match option {
            None => Err(SolverError::MissingPackage { dep: String::from_str(package) }),
            Some(name) => match registry.lookup_option(package, None) {
                Some(_) => Err(
                    SolverError::MissingVariable {
                        package: String::from_str(package),
                        name: String::from_str(name),
                    },
                ),
                None => Err(SolverError::MissingPackage { dep: String::from_str(package) }),
            },
        },
        Some(idx) => match registry.option_variable(idx) {
            None => Err(
                SolverError::NoSolverVariable {
                    package: String::from_str(package),
                    option: match option {
                        Some(name) => Some(String::from_str(name)),
                        None => None,
                    },
                },
            ),
            Some(name) => Ok(Term::Var(name.clone(), sort_of_type(registry.option_type(idx)))),
        },
    }
}

/// The number of `ver` among the numbered versions.
fn number_of(registry: &BuiltRegistry, ver: &Version) -> (r: Option<usize>)
    ensures
        match r {
            Some(i) => number_from(registry.versions().interned(), ver@, 0) == Some(i as int),
            None => number_from(registry.versions().interned(), ver@, 0) is None,
        },
{
    let r = registry.version_registry().lookup(ver);
    proof {
        let versions = registry.versions().interned();
        match r {
            Some(i) => {
                lemma_number_from_found(versions, ver@, 0, i as int);
            },
            None => {
                lemma_number_from_missing(versions, ver@, 0);
            },
        }
    }
    r
}

proof fn lemma_number_from_found(versions: Seq<Seq<PartView>>, v: Seq<PartView>, from: int, at: int)
    requires
        0 <= from <= at < versions.len(),
        versions[at] == v,
        forall|j: int| from <= j < at ==> versions[j] != v,
    ensures
        number_from(versions, v, from) == Some(at),
    decreases at - from,
{
    if from < at {
        lemma_number_from_found(versions, v, from + 1, at);
    }
}

proof fn lemma_number_from_missing(versions: Seq<Seq<PartView>>, v: Seq<PartView>, from: int)
    requires
        0 <= from,
        !among(versions, v),
    ensures
        number_from(versions, v, from) is None,
    decreases versions.len() - from,
{
    if from < versions.len() {
        assert(versions[from] != v);
        lemma_number_from_missing(versions, v, from + 1);
    }
}

/// A value that is written out, as a term.
pub fn literal_of(value: &SpecOptionValue, registry: &BuiltRegistry) -> (t: Term)
    ensures
        t@ == literal_term(value@, registry.versions().interned()),
        sort_of(t@) is Some,
{
    match value {
        SpecOptionValue::Bool(b) => Term::Bool(*b),
        SpecOptionValue::Int(i) => Term::Int(*i),
        SpecOptionValue::Float(bits) => Term::Float(*bits),
        SpecOptionValue::Str(s) => Term::Str(s.clone()),
        SpecOptionValue::Version(v) => match number_of(registry, v) {
            Some(i) => Term::Index(i as u64),
            None => Term::Index(u64::MAX),
        },
    }
}

fn compare(op: CmpType, a: Term, b: Term) -> (res: Result<Term, SolverError>)
    ensures
        agrees(res, compared(op, a@, b@)),
{
    match (a.sort(), b.sort()) {
        (Some(x), Some(y)) => {
            if x != y {
                Err(SolverError::IncorrectSolverType { expected: x, received: y })
            } else if op.asks_order() && x == Sort::Bool {
                Err(SolverError::InvalidConstraint(InvalidReason::Unordered))
            } else {
                Ok(
                    match op {
                        CmpType::Less => Term::Lt(Box::new(a), Box::new(b)),
                        CmpType::LessOrEqual => Term::Le(Box::new(a), Box::new(b)),
                        CmpType::NotEqual => Term::Ne(Box::new(a), Box::new(b)),
                        CmpType::Equal => Term::Eq(Box::new(a), Box::new(b)),
                        CmpType::GreaterOrEqual => Term::Ge(Box::new(a), Box::new(b)),
                        CmpType::Greater => Term::Gt(Box::new(a), Box::new(b)),
                    },
                )
            }
        },
        _ => Err(SolverError::InvalidConstraint(InvalidReason::NotBoolean)),
    }
}

pub(crate) fn truth_of(t: &Term) -> (res: Result<(), SolverError>)
    ensures
        match res {
            Ok(_) => as_truth(t@) == Ok::<TermView, ClauseFault>(t@),
            Err(e) => clause_fault_of(e) matches Some(f) && as_truth(t@) == Err::<
                TermView,
                ClauseFault,
            >(f),
        },
{
    match t.sort() {
        Some(Sort::Bool) => Ok(()),
        Some(other) => Err(
            SolverError::IncorrectSolverType { expected: Sort::Bool, received: other },
        ),
        None => Err(SolverError::InvalidConstraint(InvalidReason::NotBoolean)),
    }
}

/// That `var` is the number of one of the versions that have `part` at
/// place `k`.
fn choices_term(var: &Term, k: usize, part: &Part, registry: &BuiltRegistry) -> (t: Term)
    requires
        sort_of(var@) == Some(Sort::Int),
    ensures
        t@ == choices_first(
            var@,
            k as int,
            part@,
            registry.versions().interned(),
            registry.versions().interned().len(),
        ),
        sort_of(t@) == Some(Sort::Bool),
{
    let count = registry.version_registry().num_version();
    let ghost versions = registry.versions().interned();
    let mut choices = Term::Bool(false);
    let mut n: usize = 0;
    while n < count
        invariant
            n <= count,
            versions == registry.versions().interned(),
            count == versions.len(),
            sort_of(var@) == Some(Sort::Int),
            choices@ == choices_first(var@, k as int, part@, versions, n as nat),
            sort_of(choices@) == Some(Sort::Bool),
        decreases count - n,
    {
        let has = match registry.version_registry().lookup_id(&n) {
            Some(v) => {
                let vp = v.parts();
                assert(vp@.len() == v@.len());
                if k < vp.len() {
                    assert(vp@[k as int]@ == v@[k as int]);
                    vp[k].same(part)
                } else {
                    false
                }
            },
            None => false,
        };
        assert(has == (0 <= k < versions[n as int].len() && versions[n as int][k as int] == part@));
        if has {
            proof {
                reveal_with_fuel(term_view, 3);
                reveal_with_fuel(sort_of, 3);
            }
            let ghost before = choices@;
            let copy = var.duplicate();
            let number = Term::Index(n as u64);
            assert(number@ == TermView::Int(n as int));
            let eq = Term::Eq(Box::new(copy), Box::new(number));
            assert(eq@ == TermView::Eq(Box::new(var@), Box::new(TermView::Int(n as int))));
            assert(sort_of(eq@) == Some(Sort::Bool));
            choices = Term::Or(Box::new(choices), Box::new(eq));
            assert(choices@ == TermView::Or(Box::new(before), Box::new(eq@)));
        }
        n = n + 1;
    }
    choices
}

impl Version {
    /// That the version whose number `var` is agrees with this pattern,
    /// part by part.
    pub fn match_term(&self, var: &Term, registry: &BuiltRegistry) -> (t: Term)
        requires
            sort_of(var@) == Some(Sort::Int),
        ensures
            t@ == matches_pattern(var@, self@, registry.versions().interned()),
            sort_of(t@) == Some(Sort::Bool),
    {
        let parts = self.parts();
        let ghost versions = registry.versions().interned();
        let ghost pv = self@;
        let mut t = Term::Bool(true);
        let mut k: usize = 0;
        assert(pv.len() == parts@.len());
        assert forall|x: int| 0 <= x < parts@.len() implies (#[trigger] parts@[x])@ == pv[x] by {
            assert(crate::package::version::parts_view(parts@)[x] == parts@[x]@);
        }
        while k < parts.len()
            invariant
                k <= parts.len(),
                pv == self@,
                pv.len() == parts@.len(),
                forall|x: int| 0 <= x < parts@.len() ==> (#[trigger] parts@[x])@ == pv[x],
                versions == registry.versions().interned(),
                sort_of(var@) == Some(Sort::Int),
                rest_limit(pv, 0) == rest_limit(pv, k as int),
                t@ == pattern_first(var@, pv, versions, k as nat),
                sort_of(t@) == Some(Sort::Bool),
            decreases parts.len() - k,
        {
            assert(parts@[k as int]@ == pv[k as int]);
            let ghost before = t@;
            match &parts[k] {
                Part::Wildcard(WildcardType::Rest) => {
                    return t;
                },
                Part::Wildcard(WildcardType::Single) => {},
                part => {
                    let choices = choices_term(var, k, part, registry);
                    let ghost cv = choices@;
                    t = Term::And(Box::new(t), Box::new(choices));
                    assert(t@ == TermView::And(Box::new(before), Box::new(cv)));
                },
            }
            k = k + 1;
        }
        t
    }
}

/// The comparison of the version whose number `var` is with the version
/// `parts`: with a pattern, part by part, and only for equality; with a
/// version without placeholders, by the numbers.
pub open spec fn version_clause(
    var: TermView,
    parts: Seq<PartView>,
    op: CmpType,
    versions: Seq<Seq<PartView>>,
) -> Result<TermView, ClauseFault> {
    if !concrete(parts) {
        match op {
            CmpType::Equal => Ok(matches_pattern(var, parts, versions)),
            CmpType::NotEqual => Ok(TermView::Not(Box::new(matches_pattern(var, parts, versions)))),
            _ => Err(ClauseFault::Invalid(InvalidReason::OrderedPattern)),
        }
    } else {
        compared(op, var, literal_term(ValueView::Version(parts), versions))
    }
}

impl Version {
    /// That the version whose number `var` is equals this one, a pattern
    /// being held against it part by part.
    pub fn cmp_eq_dynamic(&self, var: &Term, registry: &BuiltRegistry) -> (res: Result<
        Term,
        SolverError,
    >)
        requires
            sort_of(var@) == Some(Sort::Int),
        ensures
            agrees(
                res,
                version_clause(var@, self@, CmpType::Equal, registry.versions().interned()),
            ),
    {
        self.cmp_dynamic(CmpType::Equal, var, registry)
    }

    /// The comparison by `op` of the version whose number `var` is with
    /// this one.
    pub fn cmp_dynamic(&self, op: CmpType, var: &Term, registry: &BuiltRegistry) -> (res: Result<
        Term,
        SolverError,
    >)
        requires
            sort_of(var@) == Some(Sort::Int),
        ensures
            agrees(res, version_clause(var@, self@, op, registry.versions().interned())),
    {
        if !self.is_concrete() {
            match op {
                CmpType::Equal => Ok(self.match_term(var, registry)),
                CmpType::NotEqual => {
                    let matched = self.match_term(var, registry);
                    let ghost mv = matched@;
                    let t = Term::Not(Box::new(matched));
                    proof {
                        reveal_with_fuel(term_view, 2);
                        reveal_with_fuel(sort_of, 2);
                    }
                    assert(t@ == TermView::Not(Box::new(mv)));
                    Ok(t)
                },
                _ => Err(SolverError::InvalidConstraint(InvalidReason::OrderedPattern)),
            }
        } else {
            let number = match number_of(registry, self) {
                Some(i) => Term::Index(widen(i)),
                None => Term::Index(u64::MAX),
            };
            compare(op, var.duplicate(), number)
        }
    }
}

fn widen(i: usize) -> (w: u64)
    ensures
        w == i,
{
    i as u64
}

impl Constraint {
    fn pattern_to_clause(
        option: &Constraint,
        pattern: &Constraint,
        op: CmpType,
        registry: &BuiltRegistry,
    ) -> (res: Result<Term, SolverError>)
        requires
            registry.wf(),
            option_key(*option) is Some,
            holds_pattern(*pattern),
        ensures
            agrees(
                res,
                pattern_clause(
                    option_key(*option)->0,
                    pattern_of(*pattern),
                    op,
                    registry.table(),
                    registry.versions().interned(),
                ),
            ),
    {
        let var = match option {
            Constraint::SpecOption(o) => match variable_of(
                registry,
                o.package_name.as_str(),
                Some(o.option_name.as_str()),
            ) {
                Ok(var) => var,
                Err(e) => {
                    return Err(e);
                },
            },
            _ => {
                return Err(SolverError::InvalidConstraint(InvalidReason::Pattern));
            },
        };
        match var.sort() {
            Some(Sort::Int) => {},
            Some(other) => {
                return Err(
                    SolverError::IncorrectSolverType { expected: Sort::Int, received: other },
                );
            },
            None => {
                return Err(SolverError::InvalidConstraint(InvalidReason::Pattern));
            },
        }
        let matched = match pattern {
            Constraint::Value(v) => match &v.value {
                SpecOptionValue::Version(ver) => ver.match_term(&var, registry),
                _ => {
                    return Err(SolverError::InvalidConstraint(InvalidReason::Pattern));
                },
            },
            _ => {
                return Err(SolverError::InvalidConstraint(InvalidReason::Pattern));
            },
        };
        match op {
            CmpType::Equal => Ok(matched),
            CmpType::NotEqual => Ok(Term::Not(Box::new(matched))),
            _ => Err(SolverError::InvalidConstraint(InvalidReason::OrderedPattern)),
        }
    }

    fn counted(of: &Vec<Constraint>, registry: &BuiltRegistry) -> (res: Result<Term, SolverError>)
        requires
            registry.wf(),
        ensures
            agrees(
                res,
                count_first(of@, of@.len(), registry.table(), registry.versions().interned()),
            ),
        decreases of,
    {
        let ghost table = registry.table();
        let ghost versions = registry.versions().interned();
        let mut sum = Term::Int(0);
        let mut i: usize = 0;
        while i < of.len()
            invariant
                i <= of.len(),
                registry.wf(),
                table == registry.table(),
                versions == registry.versions().interned(),
                count_first(of@, i as nat, table, versions) == Ok::<TermView, ClauseFault>(sum@),
                sort_of(sum@) == Some(Sort::Int),
            decreases of.len() - i,
        {
            proof {
                assert(decreases_to!(of => of@));
                assert(decreases_to!(of@ => of@[i as int]));
            }
            let t = match of[i].to_clause(registry) {
                Ok(t) => t,
                Err(e) => {
                    proof {
                        lemma_count_first_fails(of@, (i + 1) as nat, of@.len(), table, versions);
                    }
                    return Err(e);
                },
            };
            match truth_of(&t) {
                Ok(_) => {},
                Err(e) => {
                    proof {
                        lemma_count_first_fails(of@, (i + 1) as nat, of@.len(), table, versions);
                    }
                    return Err(e);
                },
            }
            proof {
                reveal_with_fuel(term_view, 3);
                reveal_with_fuel(sort_of, 3);
            }
            let ghost before = sum@;
            let ghost tv = t@;
            let one = Term::Ite(Box::new(t), Box::new(Term::Int(1)), Box::new(Term::Int(0)));
            assert(one@ == TermView::Ite(
                Box::new(tv),
                Box::new(TermView::Int(1)),
                Box::new(TermView::Int(0)),
            ));
            assert(sort_of(one@) == Some(Sort::Int));
            sum = Term::Add(Box::new(sum), Box::new(one));
            assert(sum@ == TermView::Add(Box::new(before), Box::new(one@)));
            i = i + 1;
        }
        Ok(sum)
    }

    fn compared_clause(b: &Cmp, registry: &BuiltRegistry) -> (res: Result<Term, SolverError>)
        requires
            registry.wf(),
        ensures
            agrees(
                res,
                match clause(b.lhs, registry.table(), registry.versions().interned()) {
                    Err(f) => Err(f),
                    Ok(l) => match clause(b.rhs, registry.table(), registry.versions().interned()) {
                        Err(f) => Err(f),
                        Ok(r) => compared(b.op, l, r),
                    },
                },
            ),
        decreases b,
    {
        match b.lhs.to_clause(registry) {
            Err(e) => Err(e),
            Ok(l) => match b.rhs.to_clause(registry) {
                Err(e) => Err(e),
                Ok(r) => compare(b.op, l, r),
            },
        }
    }

    fn implied_clause(b: &IfThen, registry: &BuiltRegistry) -> (res: Result<Term, SolverError>)
        requires
            registry.wf(),
        ensures
            agrees(res, clause(Constraint::IfThen(Box::new(*b)), registry.table(), registry.versions().interned())),
        decreases b,
    {
        let IfThen { cond, then } = b;
        match cond.to_clause(registry) {
            Err(e) => Err(e),
            Ok(c) => match then.to_clause(registry) {
                Err(e) => Err(e),
                Ok(t) => match truth_of(&c) {
                    Err(e) => Err(e),
                    Ok(_) => match truth_of(&t) {
                        Err(e) => Err(e),
                        Ok(_) => {
                            let ghost cv = c@;
                            let ghost tv = t@;
                            let r = Term::Implies(Box::new(c), Box::new(t));
                            assert(r@ == TermView::Implies(Box::new(cv), Box::new(tv)));
                            Ok(r)
                        },
                    },
                },
            },
        }
    }

    /// Writes the constraint as a term of the solver.
    pub fn to_clause(&self, registry: &BuiltRegistry) -> (res: Result<Term, SolverError>)
        requires
            registry.wf(),
        ensures
            agrees(res, clause(*self, registry.table(), registry.versions().interned())),
        decreases self,
    {
        match self {
            Constraint::Depends(d) => variable_of(registry, d.on().as_str(), None),
            Constraint::SpecOption(o) => variable_of(
                registry,
                o.package_name.as_str(),
                Some(o.option_name.as_str()),
            ),
            Constraint::Value(v) => Ok(literal_of(&v.value, registry)),
            Constraint::Cmp(b) => {
                if b.rhs.is_pattern() && b.lhs.is_option() {
                    Self::pattern_to_clause(&b.lhs, &b.rhs, b.op, registry)
                } else if b.lhs.is_pattern() && b.rhs.is_option() {
                    Self::pattern_to_clause(&b.rhs, &b.lhs, b.op, registry)
                } else {
                    Self::compared_clause(b, registry)
                }
            },
            Constraint::IfThen(b) => Self::implied_clause(b, registry),
            Constraint::Maximize(_) => Err(
                SolverError::InvalidConstraint(InvalidReason::ObjectiveAsClause),
            ),
            Constraint::Minimize(_) => Err(
                SolverError::InvalidConstraint(InvalidReason::ObjectiveAsClause),
            ),
            Constraint::NumOf(b) => Self::counted(&b.of, registry),
        }
    }
}

/// Once one of the things that are counted cannot be written, that is the
/// answer however many more are looked at.
pub proof fn lemma_count_first_fails(
    children: Seq<Constraint>,
    n: nat,
    m: nat,
    table: Seq<EntryView>,
    versions: Seq<Seq<PartView>>,
)
    requires
        n <= m <= children.len(),
        count_first(children, n, table, versions) is Err,
    ensures
        count_first(children, m, table, versions) == count_first(children, n, table, versions),
    decreases m - n,
{
    if n < m {
        lemma_count_first_fails(children, n, (m - 1) as nat, table, versions);
    }
}

} // verus!
