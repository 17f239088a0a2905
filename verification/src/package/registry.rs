//! What one solve knows: the options and their types, the versions and
//! their numbers, the descriptions of the constraints that were asserted.

use super::error::{InvalidReason, SolverError};
use super::order::Comparison;
use super::version::{
    lemma_version_order_reflexive, lemma_version_order_total, lemma_version_order_transitive,
    ordered_values, version_order, PartView, Version,
};
use crate::spec::spec_option::{write_variable_name, SpecOptionType};
use crate::util::parse::consumer::same_text;
use crate::util::text::{decimal_text, write_decimal};
use vstd::prelude::*;
use vstd::string::StringExecFns;

verus! {

/// The views of `versions`, in order.
pub open spec fn versions_view(versions: Seq<Version>) -> Seq<Seq<PartView>> {
    versions.map_values(|v: Version| v@)
}

/// Whether each version of `ids` is below all that follow it.
pub open spec fn strictly_sorted(ids: Seq<Seq<PartView>>) -> bool {
    forall|i: int, j: int|
        0 <= i < j < ids.len() ==> version_order(#[trigger] ids[i], #[trigger] ids[j]) == Some(
            -1int,
        )
}

/// Whether two of the versions that can be ordered at all cannot be ordered
/// against each other.
pub open spec fn holds_clash(pushed: Seq<Seq<PartView>>) -> bool {
    exists|i: int, j: int|
        0 <= i < pushed.len() && 0 <= j < pushed.len() && ordered_values(#[trigger] pushed[i])
            && ordered_values(#[trigger] pushed[j]) && version_order(pushed[i], pushed[j]) is None
}

/// Whether `v` is one of `versions`.
pub open spec fn among(versions: Seq<Seq<PartView>>, v: Seq<PartView>) -> bool {
    exists|i: int| 0 <= i < versions.len() && #[trigger] versions[i] == v
}

/// Whether `numbered` holds exactly those of `pushed` that can be ordered:
/// each of `numbered` is one of them, and each of them is in `numbered`.
pub open spec fn numbers_cover(numbered: Seq<Seq<PartView>>, pushed: Seq<Seq<PartView>>) -> bool {
    &&& forall|i: int|
        0 <= i < numbered.len() ==> ordered_values(#[trigger] numbered[i]) && among(
            pushed,
            numbered[i],
        )
    &&& forall|j: int|
        0 <= j < pushed.len() && ordered_values(#[trigger] pushed[j]) ==> among(numbered, pushed[j])
}

/// The versions that were met so far, in the order in which they came.
#[derive(Debug)]
pub struct WipVersionRegistry {
    versions: Vec<Version>,
}

/// The versions of a solve, each with a number: the smallest has 0, the
/// next 1, and so on.
#[derive(Debug)]
pub struct BuiltVersionRegistry {
    ids: Vec<Version>,
}

impl WipVersionRegistry {
    /// The versions that were pushed, first to last.
    pub closed spec fn pushed(self) -> Seq<Seq<PartView>> {
        versions_view(self.versions@)
    }

    pub fn new() -> (r: Self)
        ensures
            r.pushed() == Seq::<Seq<PartView>>::empty(),
    {
        let r = Self { versions: Vec::new() };
        assert(r.pushed() =~= Seq::<Seq<PartView>>::empty());
        r
    }

    /// Takes note of a version.
    pub fn push(&mut self, ver: Version)
        ensures
            final(self).pushed() == old(self).pushed().push(ver@),
    {
        self.versions.push(ver);
        assert(self.pushed() =~= old(self).pushed().push(ver@));
    }

    /// Numbers the versions.
    ///
    /// Versions with placeholders get no number. The others are put in
    /// order, each kept once; where two of them cannot be ordered against
    /// each other, there is no result.
    pub fn build(self) -> (r: Result<BuiltVersionRegistry, SolverError>)
        ensures
            match r {
                Ok(built) => {
                    &&& !holds_clash(self.pushed())
                    &&& strictly_sorted(built.interned())
                    &&& numbers_cover(built.interned(), self.pushed())
                },
                Err(e) => holds_clash(self.pushed()) && e matches SolverError::InvalidConstraint(
                    InvalidReason::VersionOrder,
                ),
            },
    {
        let mut ids: Vec<Version> = Vec::new();
        let mut k: usize = 0;
        assert(self.pushed().take(0) =~= Seq::<Seq<PartView>>::empty());
        while k < self.versions.len()
            invariant
                k <= self.versions.len(),
                self.versions.len() == self.pushed().len(),
                strictly_sorted(versions_view(ids@)),
                numbers_cover(versions_view(ids@), self.pushed().take(k as int)),
            decreases self.versions.len() - k,
        {
            let ghost before = versions_view(ids@);
            let ghost seen = self.pushed().take(k as int);
            let ghost longer = self.pushed().take(k + 1);
            let ver = &self.versions[k];
            proof {
                assert(longer =~= seen.push(ver@));
                assert forall|v: Seq<PartView>| among(seen, v) implies among(longer, v) by {
                    let i = choose|i: int| 0 <= i < seen.len() && #[trigger] seen[i] == v;
                    assert(longer[i] == v);
                }
                assert(longer[k as int] == ver@);
            }
            if ver.is_orderable() {
                let mut pos: usize = 0;
                let mut found = false;
                let mut stop = false;
                while pos < ids.len() && !stop
                    invariant
                        pos <= ids.len(),
                        before == versions_view(ids@),
                        ordered_values(ver@),
                        forall|j: int| 0 <= j < pos ==> version_order(before[j], ver@) == Some(-1int),
                        stop ==> pos < ids.len() && (if found {
                            before[pos as int] == ver@
                        } else {
                            version_order(before[pos as int], ver@) == Some(1int)
                        }),
                        !stop ==> !found,
                        numbers_cover(before, seen),
                        seen == self.pushed().take(k as int),
                        k < self.pushed().len(),
                        self.pushed()[k as int] == ver@,
                    decreases ids.len() - pos, !stop as int,
                {
                    match ids[pos].compare(ver) {
                        None => {
                            proof {
                                assert(ordered_values(before[pos as int]));
                                assert(among(seen, before[pos as int]));
                                let i = choose|i: int|
                                    0 <= i < seen.len() && #[trigger] seen[i] == before[pos as int];
                                assert(self.pushed()[i] == before[pos as int]);
                                assert(ordered_values(self.pushed()[i]) && ordered_values(
                                    self.pushed()[k as int],
                                ) && version_order(self.pushed()[i], self.pushed()[k as int])
                                    is None);
                            }
                            return Err(SolverError::InvalidConstraint(InvalidReason::VersionOrder));
                        },
                        Some(Comparison::Less) => {
                            pos = pos + 1;
                        },
                        Some(Comparison::Equal) => {
                            proof {
                                assert(ordered_values(before[pos as int]));
                                lemma_version_order_total(before[pos as int], ver@);
                            }
                            found = true;
                            stop = true;
                        },
                        Some(Comparison::Greater) => {
                            stop = true;
                        },
                    }
                }
                if !found {
                    let copy = ver.duplicate();
                    ids.insert(pos, copy);
                    proof {
                        let after = versions_view(ids@);
                        assert(after =~= before.insert(pos as int, ver@));
                        assert forall|i: int, j: int| 0 <= i < j < after.len() implies version_order(
                            #[trigger] after[i],
                            #[trigger] after[j],
                        ) == Some(-1int) by {
                            if j < pos {
                                assert(after[i] == before[i] && after[j] == before[j]);
                            } else if j == pos {
                                assert(after[i] == before[i]);
                            } else if i == pos {
                                assert(after[j] == before[j - 1]);
                                assert(ordered_values(before[j - 1]));
                                assert(ordered_values(before[pos as int]));
                                lemma_version_order_total(before[pos as int], ver@);
                                if j - 1 > pos {
                                    lemma_version_order_transitive(
                                        ver@,
                                        before[pos as int],
                                        before[j - 1],
                                    );
                                }
                            } else if i < pos {
                                assert(after[i] == before[i] && after[j] == before[j - 1]);
                            } else {
                                assert(after[i] == before[i - 1] && after[j] == before[j - 1]);
                            }
                        }
                        assert forall|i: int| 0 <= i < after.len() implies ordered_values(
                            #[trigger] after[i],
                        ) && among(longer, after[i]) by {
                            if i < pos {
                                assert(after[i] == before[i]);
                                assert(among(seen, before[i]));
                            } else if i > pos {
                                assert(after[i] == before[i - 1]);
                                assert(among(seen, before[i - 1]));
                            }
                        }
                        assert forall|j: int|
                            0 <= j < longer.len() && ordered_values(
                                #[trigger] longer[j],
                            ) implies among(after, longer[j]) by {
                            if j < k {
                                assert(longer[j] == seen[j]);
                                assert(among(before, seen[j]));
                                let i = choose|i: int|
                                    0 <= i < before.len() && #[trigger] before[i] == seen[j];
                                if i < pos {
                                    assert(after[i] == seen[j]);
                                } else {
                                    assert(after[i + 1] == seen[j]);
                                }
                            } else {
                                assert(after[pos as int] == longer[j]);
                            }
                        }
                    }
                } else {
                    proof {
                        assert forall|j: int|
                            0 <= j < longer.len() && ordered_values(
                                #[trigger] longer[j],
                            ) implies among(before, longer[j]) by {
                            if j < k {
                                assert(longer[j] == seen[j]);
                            }
                        }
                        assert forall|i: int| 0 <= i < before.len() implies ordered_values(
                            #[trigger] before[i],
                        ) && among(longer, before[i]) by {
                            assert(among(seen, before[i]));
                        }
                    }
                }
            } else {
                proof {
                    assert forall|j: int|
                        0 <= j < longer.len() && ordered_values(#[trigger] longer[j]) implies among(
                        before,
                        longer[j],
                    ) by {
                        if j < k {
                            assert(longer[j] == seen[j]);
                        }
                    }
                    assert forall|i: int| 0 <= i < before.len() implies ordered_values(
                        #[trigger] before[i],
                    ) && among(longer, before[i]) by {
                        assert(among(seen, before[i]));
                    }
                }
            }
            k = k + 1;
        }
        let ghost numbered = versions_view(ids@);
        proof {
            assert(self.pushed().take(k as int) =~= self.pushed());
            if holds_clash(self.pushed()) {
                let (i, j) = choose|i: int, j: int|
                    0 <= i < self.pushed().len() && 0 <= j < self.pushed().len() && ordered_values(
                        #[trigger] self.pushed()[i],
                    ) && ordered_values(#[trigger] self.pushed()[j]) && version_order(
                        self.pushed()[i],
                        self.pushed()[j],
                    ) is None;
                let a = self.pushed()[i];
                let b = self.pushed()[j];
                assert(among(numbered, a) && among(numbered, b));
                let x = choose|x: int| 0 <= x < numbered.len() && #[trigger] numbered[x] == a;
                let y = choose|y: int| 0 <= y < numbered.len() && #[trigger] numbered[y] == b;
                if x == y {
                    lemma_version_order_reflexive(a);
                } else if x < y {
                    assert(version_order(numbered[x], numbered[y]) == Some(-1int));
                } else {
                    assert(version_order(numbered[y], numbered[x]) == Some(-1int));
                    lemma_version_order_total(b, a);
                }
                assert(false);
            }
        }
        let built = BuiltVersionRegistry { ids };
        assert(built.interned() == numbered);
        Ok(built)
    }
}

impl BuiltVersionRegistry {
    #[verifier::type_invariant]
    spec fn sorted(self) -> bool {
        &&& strictly_sorted(versions_view(self.ids@))
        &&& forall|i: int|
            0 <= i < self.ids@.len() ==> ordered_values(#[trigger] versions_view(self.ids@)[i])
    }

    /// The versions that have a number, each at the place of its number.
    pub closed spec fn interned(self) -> Seq<Seq<PartView>> {
        versions_view(self.ids@)
    }

    /// The number of `ver`, if it has one.
    #[verifier::loop_isolation(false)]
    pub fn lookup(&self, ver: &Version) -> (r: Option<usize>)
        ensures
            match r {
                Some(i) => i < self.interned().len() && self.interned()[i as int] == ver@
                    && forall|j: int| 0 <= j < i ==> self.interned()[j] != ver@,
                None => !among(self.interned(), ver@),
            },
            strictly_sorted(self.interned()),
    {
        proof {
            use_type_invariant(self);
        }
        let mut i: usize = 0;
        while i < self.ids.len()
            invariant
                i <= self.ids.len(),
                forall|j: int| 0 <= j < i ==> self.interned()[j] != ver@,
            decreases self.ids.len() - i,
        {
            if self.ids[i].same(ver) {
                return Some(i);
            }
            i = i + 1;
        }
        None
    }

    /// The version that has the number `id`, if one has.
    pub fn lookup_id(&self, id: &usize) -> (r: Option<&Version>)
        ensures
            match r {
                Some(v) => *id < self.interned().len() && self.interned()[*id as int] == v@,
                None => *id >= self.interned().len(),
            },
            strictly_sorted(self.interned()),
    {
        proof {
            use_type_invariant(self);
        }
        if *id < self.ids.len() {
            Some(&self.ids[*id])
        } else {
            None
        }
    }

    /// How many versions have a number.
    pub fn num_version(&self) -> (n: usize)
        ensures
            n == self.interned().len(),
    {
        self.ids.len()
    }
}

/// One line of the table of options.
#[derive(Debug)]
pub struct OptionEntry {
    package: String,
    option: Option<String>,
    dtype: SpecOptionType,
    variable: Option<String>,
}

/// What a line of the table of options says: the package, the option (none
/// for the switch that turns the package on), the type, and the name of the
/// solver's variable once there is one.
pub struct EntryView {
    pub package: Seq<char>,
    pub option: Option<Seq<char>>,
    pub dtype: SpecOptionType,
    pub variable: Option<Seq<char>>,
}

/// The view of an optional text.
pub open spec fn text_view(s: Option<String>) -> Option<Seq<char>> {
    match s {
        Some(s) => Some(s@),
        None => None,
    }
}

/// The view of an optional borrowed text.
pub open spec fn str_view(s: Option<&str>) -> Option<Seq<char>> {
    match s {
        Some(s) => Some(s@),
        None => None,
    }
}

impl View for OptionEntry {
    type V = EntryView;

    closed spec fn view(&self) -> EntryView {
        EntryView {
            package: self.package@,
            option: text_view(self.option),
            dtype: self.dtype,
            variable: text_view(self.variable),
        }
    }
}

/// Whether no two lines of `table` are for the same option.
pub open spec fn distinct_keys(table: Seq<EntryView>) -> bool {
    forall|i: int, j: int|
        0 <= i < j < table.len() ==> !((#[trigger] table[i]).package == (#[trigger] table[j]).package
            && table[i].option == table[j].option)
}

/// Whether line `i` of `table` is for `option` of `package`.
pub open spec fn is_line_of(
    table: Seq<EntryView>,
    i: int,
    package: Seq<char>,
    option: Option<Seq<char>>,
) -> bool {
    0 <= i < table.len() && table[i].package == package && table[i].option == option
}

/// Whether `table` has a line for `option` of `package`.
pub open spec fn has_line(table: Seq<EntryView>, package: Seq<char>, option: Option<Seq<char>>) -> bool {
    exists|i: int| is_line_of(table, i, package, option)
}

/// Whether `e` says that the table has no line for `key`: of a switch,
/// that the package is missing; of an option, that the variable is.
pub open spec fn names_missing(e: SolverError, key: (Seq<char>, Option<Seq<char>>)) -> bool {
    match key.1 {
        None => e matches SolverError::MissingPackage { dep } && dep@ == key.0,
        Some(option) => e matches SolverError::MissingVariable { package, name } && package@
            == key.0 && name@ == option,
    }
}

/// Whether `e` says that `key` has a line in the table, but nothing that
/// can be read for it.
pub open spec fn names_unread(e: SolverError, key: (Seq<char>, Option<Seq<char>>)) -> bool {
    e matches SolverError::NoSolverVariable { package, option } && package@ == key.0 && text_view(
        option,
    ) == key.1
}

/// The name by which `option` of `package` goes in messages and in the
/// solver: the package, then a slash and the option where there is one.
pub open spec fn full_name(package: Seq<char>, option: Option<Seq<char>>) -> Seq<char> {
    match option {
        Some(name) => package + seq!['/'] + name,
        None => package,
    }
}

/// The place of the description that the label `name` stands for, where
/// there are `count` descriptions: the number that `name` writes.
pub open spec fn is_label_of(name: Seq<char>, i: int, count: nat) -> bool {
    0 <= i < count && decimal_text(i as nat) == name
}

/// A label as the solver hands it back: without the bars that it may have
/// put around it.
pub open spec fn bare_label(name: Seq<char>) -> Seq<char> {
    if name.len() >= 2 && name[0] == '|' {
        name.subrange(1, name.len() - 1)
    } else {
        name
    }
}

/// What one solve knows. `V` holds the versions: as they came while the
/// registry is filled, numbered once it is built.
#[derive(Debug)]
pub struct Registry<V> {
    constraint_descriptions: Vec<String>,
    entries: Vec<OptionEntry>,
    version_registry: V,
}

/// A registry that is being filled.
pub type WipRegistry = Registry<WipVersionRegistry>;

/// A registry whose versions have numbers.
pub type BuiltRegistry = Registry<BuiltVersionRegistry>;

fn same_option(a: &Option<String>, b: Option<&str>) -> (same: bool)
    ensures
        same == (text_view(*a) == str_view(b)),
{
    match (a, b) {
        (Some(x), Some(y)) => same_text(x.as_str(), y),
        (None, None) => true,
        _ => false,
    }
}

fn own_option(option: Option<&str>) -> (o: Option<String>)
    ensures
        text_view(o) == str_view(option),
{
    match option {
        Some(s) => Some(String::from_str(s)),
        None => None,
    }
}

fn copy_option(option: &Option<String>) -> (o: Option<String>)
    ensures
        text_view(o) == text_view(*option),
{
    match option {
        Some(s) => Some(s.clone()),
        None => None,
    }
}

/// The name by which `option` of `package` goes in messages and in the
/// solver.
pub fn write_full_name(package: &str, option: Option<&str>) -> (s: String)
    ensures
        s@ == full_name(package@, str_view(option)),
{
    match option {
        Some(name) => write_variable_name(package, name),
        None => String::from_str(package),
    }
}

impl Registry<WipVersionRegistry> {
    /// A registry that knows nothing yet.
    pub fn new() -> (r: Self)
        ensures
            r.wf(),
            r.table().len() == 0,
            r.descriptions().len() == 0,
            r.versions().pushed().len() == 0,
    {
        Self {
            constraint_descriptions: Vec::new(),
            entries: Vec::new(),
            version_registry: WipVersionRegistry::new(),
        }
    }

    /// Closes the registry: the versions get their numbers, the rest stays.
    pub fn build(self) -> (r: Result<Registry<BuiltVersionRegistry>, SolverError>)
        ensures
            match r {
                Ok(built) => {
                    &&& built.table() == self.table()
                    &&& built.descriptions() == self.descriptions()
                    &&& !holds_clash(self.versions().pushed())
                    &&& strictly_sorted(built.versions().interned())
                    &&& numbers_cover(built.versions().interned(), self.versions().pushed())
                },
                Err(e) => holds_clash(self.versions().pushed()) && e
                    matches SolverError::InvalidConstraint(InvalidReason::VersionOrder),
            },
    {
        let Registry { constraint_descriptions, entries, version_registry } = self;
        match version_registry.build() {
            Ok(built) => Ok(
                Registry { constraint_descriptions, entries, version_registry: built },
            ),
            Err(e) => Err(e),
        }
    }
}

impl<V> Registry<V> {
    /// Whether the registry is in order: no option has two lines in the
    /// table.
    pub open spec fn wf(self) -> bool {
        distinct_keys(self.table())
    }

    /// The table of options, in the order in which they were entered.
    pub closed spec fn table(self) -> Seq<EntryView> {
        self.entries@.map_values(|e: OptionEntry| e@)
    }

    /// The descriptions of the assertions that have a label; the label of each is
    /// its place, written as a number.
    pub closed spec fn descriptions(self) -> Seq<Seq<char>> {
        self.constraint_descriptions@.map_values(|s: String| s@)
    }

    /// The versions.
    pub closed spec fn versions(self) -> V {
        self.version_registry
    }

    /// The place of `option` of `package` in the table.
    #[verifier::loop_isolation(false)]
    pub fn lookup_option(&self, package: &str, option: Option<&str>) -> (r: Option<usize>)
        ensures
            match r {
                Some(i) => is_line_of(self.table(), i as int, package@, str_view(option)),
                None => !has_line(self.table(), package@, str_view(option)),
            },
    {
        let mut i: usize = 0;
        while i < self.entries.len()
            invariant
                i <= self.entries.len(),
                forall|j: int| 0 <= j < i ==> !is_line_of(self.table(), j, package@, str_view(option)),
            decreases self.entries.len() - i,
        {
            if same_text(self.entries[i].package.as_str(), package) && same_option(
                &self.entries[i].option,
                option,
            ) {
                return Some(i);
            }
            i = i + 1;
        }
        None
    }

    /// Enters `option` of `package` with its type; see
    /// [`Registry::insert_option`].
    pub fn insert_option_type(
        &mut self,
        package: &str,
        option: Option<&str>,
        dtype: SpecOptionType,
    ) -> (r: Result<(), SolverError>)
        requires
            old(self).wf(),
        ensures
            inserted(old(self).table(), final(self).table(), package@, str_view(option), dtype, None, r),
            final(self).descriptions() == old(self).descriptions(),
            final(self).versions() == old(self).versions(),
    {
        self.insert_option(package, option, dtype, None)
    }

    /// Enters `option` of `package` with its type and, where there is one,
    /// the name of its variable.
    ///
    /// An option that is in the table stays as it is; where it has another
    /// type there, this fails. A new option goes to the end of the table.
    pub fn insert_option(
        &mut self,
        package: &str,
        option: Option<&str>,
        dtype: SpecOptionType,
        value: Option<String>,
    ) -> (r: Result<(), SolverError>)
        requires
            old(self).wf(),
        ensures
            inserted(
                old(self).table(),
                final(self).table(),
                package@,
                str_view(option),
                dtype,
                text_view(value),
                r,
            ),
            final(self).descriptions() == old(self).descriptions(),
            final(self).versions() == old(self).versions(),
    {
        match self.lookup_option(package, option) {
            Some(idx) => {
                if self.entries[idx].dtype != dtype {
                    Err(SolverError::DuplicateOption(write_full_name(package, option)))
                } else {
                    Ok(())
                }
            },
            None => {
                let entry = OptionEntry {
                    package: String::from_str(package),
                    option: own_option(option),
                    dtype,
                    variable: value,
                };
                let ghost before = self.table();
                self.entries.push(entry);
                proof {
                    let after = self.entries@.map_values(|e: OptionEntry| e@);
                    assert(after =~= before.push(entry@));
                    assert forall|i: int, j: int| 0 <= i < j < after.len() implies !((
                    #[trigger] after[i]).package == (#[trigger] after[j]).package && after[i].option
                        == after[j].option) by {
                        if j == before.len() {
                            assert(!is_line_of(before, i, package@, str_view(option)));
                        }
                    }
                }
                Ok(())
            },
        }
    }

    /// Notes the name of the variable that the solver has for `option` of
    /// `package`. An option can be given a variable once.
    pub fn set_option_value(&mut self, package: &str, option: Option<&str>, value: String) -> (r:
        Result<(), SolverError>)
        requires
            old(self).wf(),
        ensures
            final(self).wf(),
            final(self).descriptions() == old(self).descriptions(),
            final(self).versions() == old(self).versions(),
            match r {
                Ok(_) => exists|i: int|
                    {
                        &&& #[trigger] is_line_of(old(self).table(), i, package@, str_view(option))
                        &&& old(self).table()[i].variable is None
                        &&& final(self).table() == old(self).table().update(
                            i,
                            EntryView { variable: Some(value@), ..old(self).table()[i] },
                        )
                    },
                Err(e) => {
                    &&& final(self).table() == old(self).table()
                    &&& if has_line(old(self).table(), package@, str_view(option)) {
                        e matches SolverError::VariableAlreadySet { .. } && exists|i: int|
                            #[trigger] is_line_of(old(self).table(), i, package@, str_view(option))
                                && old(self).table()[i].variable is Some
                    } else {
                        match option {
                            Some(name) => e matches SolverError::MissingVariable {
                                package: p,
                                name: n,
                            } && p@ == package@ && n@ == name@,
                            None => e matches SolverError::MissingPackage { dep } && dep@
                                == package@,
                        }
                    }
                },
            },
    {
        let idx = match self.lookup_option(package, option) {
            Some(idx) => idx,
            None => {
                return Err(
                    match option {
                        Some(name) => SolverError::MissingVariable {
                            package: String::from_str(package),
                            name: String::from_str(name),
                        },
                        None => SolverError::MissingPackage { dep: String::from_str(package) },
                    },
                );
            },
        };
        assert(is_line_of(self.table(), idx as int, package@, str_view(option)));
        if self.entries[idx].variable.is_some() {
            Err(
                SolverError::VariableAlreadySet {
                    package: String::from_str(package),
                    option: own_option(option),
                },
            )
        } else {
            let ghost before = self.table();
            let old_entry = &self.entries[idx];
            let entry = OptionEntry {
                package: old_entry.package.clone(),
                option: copy_option(&old_entry.option),
                dtype: old_entry.dtype,
                variable: Some(value),
            };
            self.entries.set(idx, entry);
            proof {
                let after = self.entries@.map_values(|e: OptionEntry| e@);
                assert(after =~= before.update(
                    idx as int,
                    EntryView { variable: Some(value@), ..before[idx as int] },
                ));
                assert forall|i: int, j: int| 0 <= i < j < after.len() implies !((
                #[trigger] after[i]).package == (#[trigger] after[j]).package && after[i].option
                    == after[j].option) by {
                    assert(after[i].package == before[i].package && after[i].option
                        == before[i].option);
                    assert(after[j].package == before[j].package && after[j].option
                        == before[j].option);
                }
            }
            Ok(())
        }
    }

    /// The options of the table, each with its package, in the order of
    /// the table.
    pub fn spec_option_names(&self) -> (names: Vec<(String, Option<String>)>)
        ensures
            names@.len() == self.table().len(),
            forall|i: int|
                0 <= i < names@.len() ==> (#[trigger] names@[i]).0@ == self.table()[i].package
                    && text_view(names@[i].1) == self.table()[i].option,
    {
        let mut names: Vec<(String, Option<String>)> = Vec::new();
        let mut i: usize = 0;
        while i < self.entries.len()
            invariant
                i <= self.entries.len(),
                names@.len() == i,
                forall|j: int|
                    0 <= j < i ==> (#[trigger] names@[j]).0@ == self.table()[j].package
                        && text_view(names@[j].1) == self.table()[j].option,
            decreases self.entries.len() - i,
        {
            let entry = &self.entries[i];
            names.push((entry.package.clone(), copy_option(&entry.option)));
            i = i + 1;
        }
        names
    }

    /// The types of the options and the names of their variables, in the
    /// order of the table.
    pub fn spec_options(&self) -> (options: Vec<(SpecOptionType, Option<String>)>)
        ensures
            options@.len() == self.table().len(),
            forall|i: int|
                0 <= i < options@.len() ==> (#[trigger] options@[i]).0 == self.table()[i].dtype
                    && text_view(options@[i].1) == self.table()[i].variable,
    {
        let mut options: Vec<(SpecOptionType, Option<String>)> = Vec::new();
        let mut i: usize = 0;
        while i < self.entries.len()
            invariant
                i <= self.entries.len(),
                options@.len() == i,
                forall|j: int|
                    0 <= j < i ==> (#[trigger] options@[j]).0 == self.table()[j].dtype
                        && text_view(options@[j].1) == self.table()[j].variable,
            decreases self.entries.len() - i,
        {
            let entry = &self.entries[i];
            options.push((entry.dtype, copy_option(&entry.variable)));
            i = i + 1;
        }
        options
    }

    /// The type in line `idx` of the table.
    pub fn option_type(&self, idx: usize) -> (t: SpecOptionType)
        requires
            idx < self.table().len(),
        ensures
            t == self.table()[idx as int].dtype,
    {
        self.entries[idx].dtype
    }

    /// The name of the variable in line `idx` of the table.
    pub fn option_variable(&self, idx: usize) -> (v: Option<&String>)
        requires
            idx < self.table().len(),
        ensures
            match v {
                Some(name) => self.table()[idx as int].variable == Some(name@),
                None => self.table()[idx as int].variable is None,
            },
    {
        match &self.entries[idx].variable {
            Some(name) => Some(name),
            None => None,
        }
    }

    /// How many lines the table has.
    pub fn num_options(&self) -> (n: usize)
        ensures
            n == self.table().len(),
    {
        self.entries.len()
    }

    /// The versions.
    pub fn version_registry(&self) -> (v: &V)
        ensures
            *v == self.versions(),
    {
        &self.version_registry
    }

    /// The versions, to be changed in place; the rest of the registry stays
    /// as it is.
    pub fn version_registry_mut(&mut self) -> (v: &mut V)
        ensures
            *v == old(self).versions(),
            final(self).versions() == *final(v),
            final(self).table() == old(self).table(),
            final(self).descriptions() == old(self).descriptions(),
    {
        &mut self.version_registry
    }

    /// Files a description and hands out the label under which it can be
    /// found again: the number of descriptions filed before it.
    pub fn new_constraint_id(&mut self, description: String) -> (label: String)
        ensures
            label@ == decimal_text(old(self).descriptions().len()),
            final(self).descriptions() == old(self).descriptions().push(description@),
            final(self).table() == old(self).table(),
            final(self).versions() == old(self).versions(),
    {
        let idx = write_decimal(self.constraint_descriptions.len() as u64);
        self.constraint_descriptions.push(description);
        assert(self.descriptions() =~= old(self).descriptions().push(description@));
        idx
    }

    /// The description that was filed under the label `lit`, which may
    /// stand between bars.
    pub fn constraint_description(&self, lit: &str) -> (r: Option<&String>)
        ensures
            match r {
                Some(d) => exists|i: int|
                    #[trigger] is_label_of(bare_label(lit@), i, self.descriptions().len()) && d@
                        == self.descriptions()[i],
                None => forall|i: int|
                    !is_label_of(bare_label(lit@), i, self.descriptions().len()),
            },
    {
        let n = lit.unicode_len();
        let name = if n >= 2 && lit.get_char(0) == '|' {
            lit.substring_char(1, n - 1)
        } else {
            lit
        };
        let mut i: usize = 0;
        while i < self.constraint_descriptions.len()
            invariant
                i <= self.constraint_descriptions.len(),
                name@ == bare_label(lit@),
                forall|j: int| 0 <= j < i ==> !is_label_of(name@, j, self.descriptions().len()),
            decreases self.constraint_descriptions.len() - i,
        {
            let label = write_decimal(i as u64);
            if same_text(label.as_str(), name) {
                assert(is_label_of(name@, i as int, self.descriptions().len()));
                return Some(&self.constraint_descriptions[i]);
            }
            i = i + 1;
        }
        None
    }
}

impl Registry<WipVersionRegistry> {
    /// Takes note of a version that was met.
    pub fn push_version(&mut self, ver: Version)
        ensures
            final(self).versions().pushed() == old(self).versions().pushed().push(ver@),
            final(self).table() == old(self).table(),
            final(self).descriptions() == old(self).descriptions(),
    {
        self.version_registry.push(ver);
    }
}

/// What entering `option` of `package` with type `dtype` makes of `before`:
/// `after` and the result `r`.
pub open spec fn inserted(
    before: Seq<EntryView>,
    after: Seq<EntryView>,
    package: Seq<char>,
    option: Option<Seq<char>>,
    dtype: SpecOptionType,
    variable: Option<Seq<char>>,
    r: Result<(), SolverError>,
) -> bool {
    &&& distinct_keys(before)
    &&& distinct_keys(after)
    &&& if has_line(before, package, option) {
        let i = choose|i: int| is_line_of(before, i, package, option);
        &&& after == before
        &&& match r {
            Ok(_) => before[i].dtype == dtype,
            Err(e) => {
                &&& before[i].dtype != dtype
                &&& e matches SolverError::DuplicateOption(name)
                &&& name@ == full_name(package, option)
            },
        }
    } else {
        &&& r is Ok
        &&& after == before.push(EntryView { package, option, dtype, variable })
    }
}

/// A line of a table without doubles is the only one for its option.
pub proof fn lemma_line_unique(
    table: Seq<EntryView>,
    i: int,
    j: int,
    package: Seq<char>,
    option: Option<Seq<char>>,
)
    requires
        distinct_keys(table),
        is_line_of(table, i, package, option),
        is_line_of(table, j, package, option),
    ensures
        i == j,
{
    if i < j {
        assert(!(table[i].package == table[j].package && table[i].option == table[j].option));
    } else if j < i {
        assert(!(table[j].package == table[i].package && table[j].option == table[i].option));
    }
}

/// The numbers of two versions compare as the versions do.
pub proof fn lemma_numbers_follow_order(ids: Seq<Seq<PartView>>, i: int, j: int)
    requires
        strictly_sorted(ids),
        0 <= i < ids.len(),
        0 <= j < ids.len(),
        ordered_values(ids[i]),
        ordered_values(ids[j]),
    ensures
        i < j <==> version_order(ids[i], ids[j]) == Some(-1int),
        i == j <==> version_order(ids[i], ids[j]) == Some(0int),
        i > j <==> version_order(ids[i], ids[j]) == Some(1int),
{
    if i < j {
        assert(version_order(ids[i], ids[j]) == Some(-1int));
    } else if i > j {
        assert(version_order(ids[j], ids[i]) == Some(-1int));
        lemma_version_order_total(ids[j], ids[i]);
    } else {
        lemma_version_order_reflexive(ids[i]);
    }
}

} // verus!
