//! Reading the answer of the solver: the plan, or the reasons why there is
//! none.

use super::error::SolverError;
use super::outline::SpecOutline;
use super::registry::{
    bare_label, distinct_keys, has_line, is_label_of, is_line_of, lemma_line_unique,
    names_missing, names_unread, str_view, BuiltRegistry, EntryView, Registry,
};
use super::version::PartView;
use crate::solver::engine::is_one_of;
use crate::solver::solve::{core_is_asserted, labels_view, Scalar, ScalarView};
use crate::solver::term::Term;
use crate::spec::spec_option::{SpecOptionType, SpecOptionValue, ValueView};
use crate::util::parse::consumer::same_text;
use crate::util::text::{decimal_text, lemma_decimal_text_injective};
use vstd::prelude::*;
use vstd::string::StringExecFns;

verus! {

/// What is planned for one package.
#[derive(Debug)]
pub struct PackagePlan {
    /// The name of the package.
    pub package: String,
    /// Whether the package is switched on.
    pub activated: bool,
    /// The options of the package with their values; none where the
    /// package is switched off.
    pub options: Vec<(String, SpecOptionValue)>,
}

/// The value of type `dtype` that the solver's value `s` stands for: a
/// version is found by its number.
pub open spec fn decoded(dtype: SpecOptionType, s: ScalarView, versions: Seq<Seq<PartView>>) -> Option<
    ValueView,
> {
    match (dtype, s) {
        (SpecOptionType::Bool, ScalarView::Bool(b)) => Some(ValueView::Bool(b)),
        (SpecOptionType::Int, ScalarView::Int(i)) => Some(ValueView::Int(i)),
        (SpecOptionType::Str, ScalarView::Str(t)) => Some(ValueView::Str(t)),
        (SpecOptionType::Version, ScalarView::Int(i)) => if 0 <= i < versions.len() {
            Some(ValueView::Version(versions[i as int]))
        } else {
            None
        },
        _ => None,
    }
}

/// The value that the answer has for line `i` of the table.
pub open spec fn line_value(
    table: Seq<EntryView>,
    versions: Seq<Seq<PartView>>,
    values: Seq<Option<Scalar>>,
    i: int,
) -> Option<ValueView> {
    if 0 <= i < table.len() && i < values.len() {
        match values[i] {
            Some(s) => decoded(table[i].dtype, s@, versions),
            None => None,
        }
    } else {
        None
    }
}

/// The options of the package `name` among the first `n` lines of the
/// table, each with its value; nothing where one has no value.
pub open spec fn options_first(
    table: Seq<EntryView>,
    versions: Seq<Seq<PartView>>,
    values: Seq<Option<Scalar>>,
    name: Seq<char>,
    n: nat,
) -> Option<Seq<(Seq<char>, ValueView)>>
    decreases n,
{
    if n == 0 || n > table.len() {
        Some(Seq::empty())
    } else {
        match options_first(table, versions, values, name, (n - 1) as nat) {
            None => None,
            Some(found) => if table[n - 1].package == name && table[n - 1].option is Some {
                match line_value(table, versions, values, n - 1) {
                    Some(v) => Some(found.push((table[n - 1].option->0, v))),
                    None => None,
                }
            } else {
                Some(found)
            },
        }
    }
}

/// Once an option has no value, there are no options to tell of, however
/// many more lines are read.
pub proof fn lemma_options_first_fails(
    table: Seq<EntryView>,
    versions: Seq<Seq<PartView>>,
    values: Seq<Option<Scalar>>,
    name: Seq<char>,
    n: nat,
    m: nat,
)
    requires
        n <= m <= table.len(),
        options_first(table, versions, values, name, n) is None,
    ensures
        options_first(table, versions, values, name, m) is None,
    decreases m - n,
{
    if n < m {
        lemma_options_first_fails(table, versions, values, name, n, (m - 1) as nat);
    }
}

/// Whether `e` says why no plan can be read for the package `name`: the
/// table has no switch for it; or the answer has no value for the switch,
/// or one that is no truth value; or the package is switched on and the
/// answer has no value for one of its options, which the error names.
pub open spec fn tells_unread(
    e: SolverError,
    name: Seq<char>,
    table: Seq<EntryView>,
    versions: Seq<Seq<PartView>>,
    values: Seq<Option<Scalar>>,
) -> bool {
    if !has_line(table, name, None) {
        names_missing(e, (name, None))
    } else {
        exists|i: int| #[trigger]
            is_line_of(table, i, name, None) && match line_value(table, versions, values, i) {
                None => names_unread(e, (name, None)),
                Some(ValueView::Bool(on)) => on && options_first(
                    table,
                    versions,
                    values,
                    name,
                    table.len(),
                ) is None && exists|k: int| #[trigger]
                    is_line_of(table, k, name, table[k].option) && table[k].option is Some
                        && line_value(table, versions, values, k) is None && names_unread(
                        e,
                        (name, table[k].option),
                    ),
                Some(_) => e matches SolverError::InvalidModel { package, option } && package@
                    == name && option is None,
            }
    }
}

/// Whether a plan can be read for the package `name` off the answer: the
/// table has a switch for it, the answer has a truth value for the
/// switch, and where that is "on", a value for each option of the
/// package.
pub open spec fn can_be_read(
    name: Seq<char>,
    table: Seq<EntryView>,
    versions: Seq<Seq<PartView>>,
    values: Seq<Option<Scalar>>,
) -> bool {
    exists|i: int| #[trigger]
        is_line_of(table, i, name, None) && match line_value(table, versions, values, i) {
            Some(ValueView::Bool(on)) => !on || options_first(
                table,
                versions,
                values,
                name,
                table.len(),
            ) is Some,
            _ => false,
        }
}

/// Where an error tells why no plan can be read for a package, none can
/// be read for it.
pub proof fn lemma_unread_cannot_be_read(
    e: SolverError,
    name: Seq<char>,
    table: Seq<EntryView>,
    versions: Seq<Seq<PartView>>,
    values: Seq<Option<Scalar>>,
)
    requires
        distinct_keys(table),
        tells_unread(e, name, table, versions, values),
    ensures
        !can_be_read(name, table, versions, values),
{
    if can_be_read(name, table, versions, values) {
        let i = choose|i: int| #[trigger]
            is_line_of(table, i, name, None) && match line_value(table, versions, values, i) {
                Some(ValueView::Bool(on)) => !on || options_first(
                    table,
                    versions,
                    values,
                    name,
                    table.len(),
                ) is Some,
                _ => false,
            };
        assert(has_line(table, name, None));
        let j = choose|j: int| #[trigger]
            is_line_of(table, j, name, None) && match line_value(table, versions, values, j) {
                None => names_unread(e, (name, None)),
                Some(ValueView::Bool(on)) => on && options_first(
                    table,
                    versions,
                    values,
                    name,
                    table.len(),
                ) is None && exists|k: int| #[trigger]
                    is_line_of(table, k, name, table[k].option) && table[k].option is Some
                        && line_value(table, versions, values, k) is None && names_unread(
                        e,
                        (name, table[k].option),
                    ),
                Some(_) => e matches SolverError::InvalidModel { package, option } && package@
                    == name && option is None,
            };
        lemma_line_unique(table, i, j, name, None);
    }
}

/// The views of the options of a plan.
pub open spec fn options_view(options: Seq<(String, SpecOptionValue)>) -> Seq<(Seq<char>, ValueView)> {
    options.map_values(|o: (String, SpecOptionValue)| (o.0@, o.1@))
}

/// Whether `plan` is what the answer says of the package `name`: whether
/// its switch is on, and if so the values of its options, in the order of
/// the table.
pub open spec fn plan_reads(
    plan: PackagePlan,
    name: Seq<char>,
    table: Seq<EntryView>,
    versions: Seq<Seq<PartView>>,
    values: Seq<Option<Scalar>>,
) -> bool {
    &&& plan.package@ == name
    &&& exists|i: int|
        #[trigger] is_line_of(table, i, name, None) && line_value(table, versions, values, i)
            == Some(ValueView::Bool(plan.activated))
    &&& if plan.activated {
        options_first(table, versions, values, name, table.len()) == Some(
            options_view(plan.options@),
        )
    } else {
        plan.options@.len() == 0
    }
}

impl SpecOptionValue {
    /// The value of type `dtype` that the solver's value stands for.
    pub fn from_scalar(dtype: SpecOptionType, scalar: &Scalar, registry: &BuiltRegistry) -> (v:
        Option<SpecOptionValue>)
        ensures
            match v {
                Some(value) => decoded(dtype, scalar@, registry.versions().interned()) == Some(
                    value@,
                ),
                None => decoded(dtype, scalar@, registry.versions().interned()) is None,
            },
    {
        match (dtype, scalar) {
            (SpecOptionType::Bool, Scalar::Bool(b)) => Some(SpecOptionValue::Bool(*b)),
            (SpecOptionType::Int, Scalar::Int(i)) => Some(SpecOptionValue::Int(*i)),
            (SpecOptionType::Str, Scalar::Str(s)) => Some(SpecOptionValue::Str(s.clone())),
            (SpecOptionType::Version, Scalar::Int(i)) => {
                if *i < 0 {
                    return None;
                }
                let wide = *i as u64;
                let count = registry.version_registry().num_version();
                if wide >= count as u64 {
                    return None;
                }
                let id = wide as usize;
                match registry.version_registry().lookup_id(&id) {
                    Some(version) => Some(SpecOptionValue::Version(version.duplicate())),
                    None => None,
                }
            },
            _ => None,
        }
    }
}

fn value_at(registry: &BuiltRegistry, values: &Vec<Option<Scalar>>, idx: usize) -> (v: Option<
    SpecOptionValue,
>)
    requires
        idx < registry.table().len(),
    ensures
        match v {
            Some(value) => line_value(
                registry.table(),
                registry.versions().interned(),
                values@,
                idx as int,
            ) == Some(value@),
            None => line_value(registry.table(), registry.versions().interned(), values@, idx as int)
                is None,
        },
{
    if idx >= values.len() {
        return None;
    }
    match &values[idx] {
        Some(scalar) => SpecOptionValue::from_scalar(registry.option_type(idx), scalar, registry),
        None => None,
    }
}

impl Registry<super::registry::BuiltVersionRegistry> {
    /// The value that the answer has for `option` of `package`.
    pub fn eval_option(&self, package: &str, option: Option<&str>, values: &Vec<Option<Scalar>>) -> (r:
        Result<SpecOptionValue, SolverError>)
        ensures
            match r {
                Ok(v) => exists|i: int|
                    #[trigger] is_line_of(self.table(), i, package@, str_view(option))
                        && line_value(self.table(), self.versions().interned(), values@, i)
                        == Some(v@),
                Err(e) => if has_line(self.table(), package@, str_view(option)) {
                    names_unread(e, (package@, str_view(option))) && exists|i: int|
                        #[trigger] is_line_of(self.table(), i, package@, str_view(option))
                            && line_value(self.table(), self.versions().interned(), values@, i)
                            is None
                } else {
                    names_missing(e, (package@, str_view(option)))
                },
            },
    {
        match self.lookup_option(package, option) {
            None => Err(
                match option {
                    Some(name) => SolverError::MissingVariable {
                        package: String::from_str(package),
                        name: String::from_str(name),
                    },
                    None => SolverError::MissingPackage { dep: String::from_str(package) },
                },
            ),
            Some(idx) => {
                assert(is_line_of(self.table(), idx as int, package@, str_view(option)));
                match value_at(self, values, idx) {
                    Some(v) => Ok(v),
                    None => Err(
                        SolverError::NoSolverVariable {
                            package: String::from_str(package),
                            option: match option {
                                Some(name) => Some(String::from_str(name)),
                                None => None,
                            },
                        },
                    ),
                }
            },
        }
    }

    /// The descriptions of the assertions whose labels the solver handed
    /// out, in the order of the labels. A label that the registry does not
    /// know stands for itself.
    pub fn explain_core(&self, core: &Vec<String>) -> (descriptions: Vec<String>)
        ensures
            descriptions@.len() == core@.len(),
            forall|i: int|
                0 <= i < core@.len() ==> explained(
                    self.descriptions(),
                    (#[trigger] core@[i])@,
                    descriptions@[i]@,
                ),
    {
        let mut descriptions: Vec<String> = Vec::new();
        let mut i: usize = 0;
        while i < core.len()
            invariant
                i <= core.len(),
                descriptions@.len() == i,
                forall|j: int|
                    0 <= j < i ==> explained(
                        self.descriptions(),
                        (#[trigger] core@[j])@,
                        descriptions@[j]@,
                    ),
            decreases core.len() - i,
        {
            let text = match self.constraint_description(core[i].as_str()) {
                Some(d) => d.clone(),
                None => core[i].clone(),
            };
            descriptions.push(text);
            i = i + 1;
        }
        descriptions
    }
}

/// Whether `text` explains the label `label`: it is the description that
/// was filed under the label, or the label itself where none was.
pub open spec fn explained(filed: Seq<Seq<char>>, label: Seq<char>, text: Seq<char>) -> bool {
    if exists|j: int| is_label_of(bare_label(label), j, filed.len()) {
        exists|j: int| #[trigger] is_label_of(bare_label(label), j, filed.len()) && text == filed[j]
    } else {
        text == label
    }
}

/// Whether the labels of `asserted` are the numbers of the descriptions
/// `filed`: the first assertion goes by 0, the next by 1, and so on.
pub open spec fn labels_match(asserted: Seq<(Term, String)>, filed: Seq<Seq<char>>) -> bool {
    &&& asserted.len() == filed.len()
    &&& forall|k: int| 0 <= k < asserted.len() ==> (#[trigger] asserted[k]).1@ == decimal_text(k as nat)
}

/// Each label that the solver hands out where there is no answer is the
/// label of an assertion that was made, and is explained by the
/// description that was filed for that assertion.
pub proof fn lemma_core_is_explained(
    asserted: Seq<(Term, String)>,
    filed: Seq<Seq<char>>,
    core: Seq<String>,
    descriptions: Seq<String>,
    i: int,
)
    requires
        labels_match(asserted, filed),
        core_is_asserted(core, asserted),
        descriptions.len() == core.len(),
        0 <= i < core.len(),
        explained(filed, core[i]@, descriptions[i]@),
    ensures
        exists|k: int|
            0 <= k < asserted.len() && (#[trigger] asserted[k]).1@ == bare_label(core[i]@)
                && descriptions[i]@ == filed[k],
{
    let label = bare_label(core[i]@);
    assert(is_one_of(labels_view(asserted), label));
    let k = choose|k: int|
        0 <= k < labels_view(asserted).len() && #[trigger] labels_view(asserted)[k] == label;
    assert(asserted[k].1@ == label);
    assert(is_label_of(label, k, filed.len()));
    let j = choose|j: int| #[trigger] is_label_of(label, j, filed.len()) && descriptions[i]@ == filed[j];
    lemma_decimal_text_injective(j as nat, k as nat);
}

/// A description that is filed is found again under the label that was
/// handed out for it.
pub proof fn lemma_label_round_trip(filed: Seq<Seq<char>>, description: Seq<char>, text: Seq<char>)
    requires
        explained(filed.push(description), decimal_text(filed.len()), text),
    ensures
        text == description,
{
    let label = decimal_text(filed.len());
    let after = filed.push(description);
    crate::util::text::lemma_decimal_text_reads_back(filed.len());
    assert(label[0] != '|') by {
        assert(crate::util::parse::chars::is_digit(label[0]));
    }
    assert(bare_label(label) == label);
    assert(is_label_of(label, filed.len() as int, after.len()));
    let j = choose|j: int| #[trigger] is_label_of(label, j, after.len()) && text == after[j];
    lemma_decimal_text_injective(j as nat, filed.len());
}

impl SpecOutline {
    /// Reads the plan off the answer of the solver: for each package
    /// whether it is switched on, and if so the values of its options.
    ///
    /// There is a plan exactly where one can be read for each package.
    /// Where the plan of a package cannot be read, the error says why.
    pub fn decode(&self, registry: &BuiltRegistry, values: &Vec<Option<Scalar>>) -> (r: Result<
        Vec<PackagePlan>,
        SolverError,
    >)
        requires
            registry.wf(),
        ensures
            r is Ok <==> forall|i: int|
                0 <= i < self.packages().len() ==> can_be_read(
                    (#[trigger] self.packages()[i]).name@,
                    registry.table(),
                    registry.versions().interned(),
                    values@,
                ),
            match r {
                Ok(plans) => plans@.len() == self.packages().len() && forall|i: int|
                    0 <= i < plans@.len() ==> plan_reads(
                        #[trigger] plans@[i],
                        self.packages()[i].name@,
                        registry.table(),
                        registry.versions().interned(),
                        values@,
                    ),
                Err(e) => exists|i: int|
                    0 <= i < self.packages().len() && tells_unread(
                        e,
                        (#[trigger] self.packages()[i]).name@,
                        registry.table(),
                        registry.versions().interned(),
                        values@,
                    ),
            },
    {
        let outlines = self.outlines();
        let ghost table = registry.table();
        let ghost versions = registry.versions().interned();
        let mut plans: Vec<PackagePlan> = Vec::new();
        let mut i: usize = 0;
        while i < outlines.len()
            invariant
                i <= outlines.len(),
                outlines@ == self.packages(),
                table == registry.table(),
                versions == registry.versions().interned(),
                plans@.len() == i,
                distinct_keys(table),
                forall|x: int|
                    0 <= x < i ==> plan_reads(
                        #[trigger] plans@[x],
                        outlines@[x].name@,
                        table,
                        versions,
                        values@,
                    ),
                forall|x: int|
                    0 <= x < i ==> can_be_read(
                        (#[trigger] outlines@[x]).name@,
                        table,
                        versions,
                        values@,
                    ),
            decreases outlines.len() - i,
        {
            let name = &outlines[i].name;
            let ghost o = self.packages()[i as int];
            let activated = match registry.eval_option(name.as_str(), None, values) {
                Ok(SpecOptionValue::Bool(b)) => b,
                Ok(_) => {
                    let e = SolverError::InvalidModel { package: name.clone(), option: None };
                    assert(tells_unread(e, o.name@, table, versions, values@));
                    proof {
                        lemma_unread_cannot_be_read(e, o.name@, table, versions, values@);
                    }
                    return Err(e);
                },
                Err(e) => {
                    assert(tells_unread(e, o.name@, table, versions, values@));
                    proof {
                        lemma_unread_cannot_be_read(e, o.name@, table, versions, values@);
                    }
                    return Err(e);
                },
            };
            let ghost line = choose|j: int|
                #[trigger] is_line_of(table, j, name@, None) && line_value(
                    table,
                    versions,
                    values@,
                    j,
                ) == Some(ValueView::Bool(activated));
            let mut options: Vec<(String, SpecOptionValue)> = Vec::new();
            if activated {
                let names = registry.spec_option_names();
                let n = registry.num_options();
                let mut k: usize = 0;
                assert(options_view(options@) =~= Seq::empty());
                while k < n
                    invariant
                        k <= n,
                        n == table.len(),
                        distinct_keys(table),
                        activated,
                        i < outlines.len(),
                        outlines@ == self.packages(),
                        *name == outlines@[i as int].name,
                        is_line_of(table, line, name@, None),
                        line_value(table, versions, values@, line) == Some(ValueView::Bool(true)),
                        table == registry.table(),
                        versions == registry.versions().interned(),
                        names@.len() == table.len(),
                        forall|x: int|
                            0 <= x < names@.len() ==> (#[trigger] names@[x]).0@ == table[x].package
                                && super::registry::text_view(names@[x].1) == table[x].option,
                        options_first(table, versions, values@, name@, k as nat) == Some(
                            options_view(options@),
                        ),
                    decreases n - k,
                {
                    let (package, option) = &names[k];
                    if same_text(package.as_str(), name.as_str()) {
                        match option {
                            Some(o) => match value_at(registry, values, k) {
                                Some(v) => {
                                    let ghost before = options_view(options@);
                                    options.push((o.clone(), v));
                                    assert(options_view(options@) =~= before.push((o@, v@)));
                                },
                                None => {
                                    let e = SolverError::NoSolverVariable {
                                        package: name.clone(),
                                        option: Some(o.clone()),
                                    };
                                    proof {
                                        lemma_options_first_fails(
                                            table,
                                            versions,
                                            values@,
                                            name@,
                                            (k + 1) as nat,
                                            table.len(),
                                        );
                                        assert(is_line_of(table, k as int, name@, table[k as int].option));
                                        assert(is_line_of(table, line, name@, None));
                                        assert(tells_unread(
                                            e,
                                            self.packages()[i as int].name@,
                                            table,
                                            versions,
                                            values@,
                                        ));
                                        lemma_unread_cannot_be_read(
                                            e,
                                            self.packages()[i as int].name@,
                                            table,
                                            versions,
                                            values@,
                                        );
                                    }
                                    return Err(e);
                                },
                            },
                            None => {},
                        }
                    }
                    k = k + 1;
                }
            }
            assert(can_be_read(outlines@[i as int].name@, table, versions, values@)) by {
                assert(is_line_of(table, line, name@, None));
            }
            let plan = PackagePlan { package: name.clone(), activated, options };
            plans.push(plan);
            i = i + 1;
        }
        Ok(plans)
    }
}

} // verus!
