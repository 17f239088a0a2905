//! The outline of a package says loosely what it needs: constraints,
//! options that are fixed, and defaults that it hands down to the packages
//! it depends on. The outlines of all packages make a graph.

use super::constraint::tree::{
    first_occurrences, keep_first_occurrences, mentions_first, occurs, texts, Constraint,
};
use super::defaults::{
    apply_entries, apply_entry, apply_to_targets, distinct_row, find_from, find_key,
    lemma_entry_meets, origin, propagate_from, propagated, setter_from, setter_of,
    ConflictView, Row, Track,
};
use super::error::{PropagateDefaultError, SolverError};
use super::graph::{
    graph_add_edge, graph_add_node, graph_edges, graph_limit, graph_new, graph_size,
    edges_within, graph_successors, graph_toposort, is_cycle, is_topological,
    lemma_successors_within, successors_of, PackageDiGraph,
};
use crate::spec::spec_option::{SpecOptionValue, ValueView};
use crate::util::parse::consumer::same_text;
use vstd::prelude::*;
use vstd::string::StringExecFns;

verus! {

/// The defaults of a package as they are kept: option names with their
/// values.
pub type SpecMap = Vec<(String, Option<SpecOptionValue>)>;

/// What is known of a package before anything is solved.
#[derive(Debug)]
pub struct PackageOutline {
    /// The name of the package.
    pub name: String,
    /// What the package asks for.
    pub constraints: Vec<Constraint>,
    /// The options that are fixed, each with its value.
    pub set_options: Vec<(String, SpecOptionValue)>,
    /// The defaults that the package hands down to the packages it depends
    /// on; nothing for a value takes the default away that comes from above.
    pub set_defaults: Vec<(String, Option<SpecOptionValue>)>,
}

impl Default for PackageOutline {
    fn default() -> (o: Self)
        ensures
            o.name@.len() == 0,
            o.constraints@.len() == 0,
            o.set_options@.len() == 0,
            o.set_defaults@.len() == 0,
    {
        PackageOutline {
            name: String::new(),
            constraints: Vec::new(),
            set_options: Vec::new(),
            set_defaults: Vec::new(),
        }
    }
}

/// The view of a value that may be missing.
pub open spec fn value_view(v: Option<SpecOptionValue>) -> Option<ValueView> {
    match v {
        Some(v) => Some(v@),
        None => None,
    }
}

/// The view of the defaults of a package.
pub open spec fn row_view(d: Seq<(String, Option<SpecOptionValue>)>) -> Row {
    d.map_values(|e: (String, Option<SpecOptionValue>)| (e.0@, value_view(e.1)))
}

/// The defaults of each of `outlines`.
pub open spec fn rows_of(outlines: Seq<PackageOutline>) -> Seq<Row> {
    outlines.map_values(|o: PackageOutline| row_view(o.set_defaults@))
}

/// The names of `outlines`.
pub open spec fn names_of(outlines: Seq<PackageOutline>) -> Seq<Seq<char>> {
    outlines.map_values(|o: PackageOutline| o.name@)
}

/// The view of the record of first setters.
pub open spec fn track_view(t: Seq<(String, String, String)>) -> Track {
    t.map_values(|e: (String, String, String)| (e.0@, e.1@, e.2@))
}

/// The conflict that an error tells of.
pub open spec fn conflict_of(e: PropagateDefaultError) -> Option<ConflictView> {
    match e {
        PropagateDefaultError::Cycle(_) => None,
        PropagateDefaultError::Conflict {
            package_name,
            default_name,
            first_setter,
            first_value,
            conflict_setter,
            conflict_value,
        } => Some(
            ConflictView {
                package: package_name@,
                option: default_name@,
                first_setter: first_setter@,
                first_value: first_value@,
                conflict_setter: conflict_setter@,
                conflict_value: conflict_value@,
            },
        ),
    }
}

/// The names of the packages that `o` depends on, each once, in the order
/// in which its constraints name them first.
pub open spec fn package_dependencies(o: PackageOutline) -> Seq<Seq<char>> {
    first_occurrences(mentions_first(o.constraints@, o.constraints@.len()))
}

/// The place of the last of `names` that is `name`.
pub open spec fn last_named(names: Seq<Seq<char>>, name: Seq<char>) -> Option<int>
    decreases names.len(),
{
    if names.len() == 0 {
        None
    } else if names.last() == name {
        Some(names.len() - 1)
    } else {
        last_named(names.drop_last(), name)
    }
}

/// The edges from the package at `source` to the first `k` of the packages
/// `deps` that it depends on; or the first of them that has no outline.
pub open spec fn edges_from(names: Seq<Seq<char>>, source: usize, deps: Seq<Seq<char>>, k: nat) -> Result<
    Seq<(usize, usize)>,
    Seq<char>,
>
    decreases k,
{
    if k == 0 || k > deps.len() {
        Ok(Seq::empty())
    } else {
        match edges_from(names, source, deps, (k - 1) as nat) {
            Err(missing) => Err(missing),
            Ok(edges) => match last_named(names, deps[k - 1]) {
                None => Err(deps[k - 1]),
                Some(target) => Ok(edges.push((source, target as usize))),
            },
        }
    }
}

/// The edges of the first `i` of `outlines`, each to the packages it
/// depends on; or the first dependency that has no outline.
pub open spec fn edges_of_first(outlines: Seq<PackageOutline>, i: nat) -> Result<
    Seq<(usize, usize)>,
    Seq<char>,
>
    decreases i,
{
    if i == 0 || i > outlines.len() {
        Ok(Seq::empty())
    } else {
        match edges_of_first(outlines, (i - 1) as nat) {
            Err(missing) => Err(missing),
            Ok(edges) => match edges_from(
                names_of(outlines),
                (i - 1) as usize,
                package_dependencies(outlines[i - 1]),
                package_dependencies(outlines[i - 1]).len(),
            ) {
                Err(missing) => Err(missing),
                Ok(more) => Ok(edges + more),
            },
        }
    }
}

/// The edges of the graph of `outlines`: one from each package to each
/// package it depends on; or the first dependency that has no outline.
pub open spec fn all_edges(outlines: Seq<PackageOutline>) -> Result<Seq<(usize, usize)>, Seq<char>> {
    edges_of_first(outlines, outlines.len())
}

/// How many dependencies the first `i` of `outlines` have between them.
pub open spec fn edge_demand(outlines: Seq<PackageOutline>, i: nat) -> nat
    decreases i,
{
    if i == 0 || i > outlines.len() {
        0
    } else {
        edge_demand(outlines, (i - 1) as nat) + package_dependencies(outlines[i - 1]).len()
    }
}

/// Whether no option stands twice among the fixed options of `o`, and
/// none twice among its defaults.
pub open spec fn distinct_options(o: PackageOutline) -> bool {
    &&& forall|a: int, b: int|
        0 <= a < b < o.set_options@.len() ==> (#[trigger] o.set_options@[a]).0@ != (
        #[trigger] o.set_options@[b]).0@
    &&& distinct_row(row_view(o.set_defaults@))
}

/// Whether each of `outlines` has its options no more than once.
pub open spec fn all_distinct_options(outlines: Seq<PackageOutline>) -> bool {
    forall|i: int| 0 <= i < outlines.len() ==> distinct_options(#[trigger] outlines[i])
}

/// Whether each of `outlines` has its options no more than once.
pub fn have_distinct_options(outlines: &Vec<PackageOutline>) -> (b: bool)
    ensures
        b == all_distinct_options(outlines@),
{
    let mut i: usize = 0;
    while i < outlines.len()
        invariant
            i <= outlines.len(),
            forall|x: int| 0 <= x < i ==> distinct_options(#[trigger] outlines@[x]),
        decreases outlines.len() - i,
    {
        if !outlines[i].has_distinct_options() {
            return false;
        }
        i = i + 1;
    }
    true
}

impl PackageOutline {
    /// Whether no option stands twice among the fixed options, and none
    /// twice among the defaults.
    pub fn has_distinct_options(&self) -> (b: bool)
        ensures
            b == distinct_options(*self),
    {
        let mut b: usize = 0;
        while b < self.set_options.len()
            invariant
                b <= self.set_options.len(),
                forall|x: int, y: int|
                    0 <= x < y < b ==> (#[trigger] self.set_options@[x]).0@ != (
                    #[trigger] self.set_options@[y]).0@,
            decreases self.set_options.len() - b,
        {
            let mut a: usize = 0;
            while a < b
                invariant
                    a <= b < self.set_options.len(),
                    forall|x: int|
                        0 <= x < a ==> (#[trigger] self.set_options@[x]).0@
                            != self.set_options@[b as int].0@,
                decreases b - a,
            {
                if same_text(self.set_options[a].0.as_str(), self.set_options[b].0.as_str()) {
                    return false;
                }
                a = a + 1;
            }
            b = b + 1;
        }
        let ghost row = row_view(self.set_defaults@);
        let mut b: usize = 0;
        while b < self.set_defaults.len()
            invariant
                b <= self.set_defaults.len(),
                row == row_view(self.set_defaults@),
                forall|x: int, y: int| 0 <= x < y < b ==> (#[trigger] row[x]).0 != (#[trigger] row[y]).0,
            decreases self.set_defaults.len() - b,
        {
            let mut a: usize = 0;
            while a < b
                invariant
                    a <= b < self.set_defaults.len(),
                    row == row_view(self.set_defaults@),
                    forall|x: int| 0 <= x < a ==> (#[trigger] row[x]).0 != row[b as int].0,
                decreases b - a,
            {
                if same_text(self.set_defaults[a].0.as_str(), self.set_defaults[b].0.as_str()) {
                    assert(row[a as int].0 == row[b as int].0);
                    return false;
                }
                a = a + 1;
            }
            b = b + 1;
        }
        true
    }

    /// The names of the packages that this one depends on, each once, in
    /// the order in which the constraints name them first.
    pub fn dependencies(&self) -> (names: Vec<String>)
        ensures
            texts(names@) == package_dependencies(*self),
    {
        let mut all: Vec<String> = Vec::new();
        let mut i: usize = 0;
        assert(texts(all@) =~= mentions_first(self.constraints@, 0));
        while i < self.constraints.len()
            invariant
                i <= self.constraints.len(),
                texts(all@) == mentions_first(self.constraints@, i as nat),
            decreases self.constraints.len() - i,
        {
            let more = self.constraints[i].all_mentions();
            let ghost before = texts(all@);
            let mut k: usize = 0;
            while k < more.len()
                invariant
                    k <= more.len(),
                    texts(all@) == before + texts(more@).take(k as int),
                decreases more.len() - k,
            {
                let ghost sofar = texts(all@);
                all.push(more[k].clone());
                assert(texts(more@).take(k + 1) =~= texts(more@).take(k as int).push(more@[k as int]@));
                assert(texts(all@) =~= sofar.push(more@[k as int]@));
                assert(texts(all@) =~= before + texts(more@).take(k + 1));
                k = k + 1;
            }
            assert(texts(more@).take(k as int) =~= texts(more@));
            i = i + 1;
        }
        keep_first_occurrences(&all)
    }
}

/// The place of the last of `outlines` whose name is `name`.
fn find_last_named(outlines: &Vec<PackageOutline>, name: &str) -> (r: Option<usize>)
    ensures
        match r {
            Some(i) => last_named(names_of(outlines@), name@) == Some(i as int) && i
                < outlines@.len(),
            None => last_named(names_of(outlines@), name@) is None,
        },
{
    let mut i: usize = outlines.len();
    let ghost names = names_of(outlines@);
    assert(names.take(i as int) =~= names);
    while i > 0
        invariant
            i <= outlines.len(),
            names == names_of(outlines@),
            last_named(names, name@) == last_named(names.take(i as int), name@),
        decreases i,
    {
        proof {
            assert(names.take(i as int).drop_last() =~= names.take(i - 1));
            assert(names.take(i as int).last() == outlines@[i - 1].name@);
        }
        if same_text(outlines[i - 1].name.as_str(), name) {
            return Some(i - 1);
        }
        i = i - 1;
    }
    None
}

fn find_default(row: &Vec<(String, Option<SpecOptionValue>)>, key: &str) -> (r: Option<usize>)
    ensures
        match r {
            Some(i) => find_key(row_view(row@), key@) == Some(i as int) && i < row@.len(),
            None => find_key(row_view(row@), key@) is None,
        },
{
    let mut i: usize = 0;
    while i < row.len()
        invariant
            i <= row.len(),
            find_key(row_view(row@), key@) == find_from(row_view(row@), key@, i as int),
        decreases row.len() - i,
    {
        if same_text(row[i].0.as_str(), key) {
            return Some(i);
        }
        i = i + 1;
    }
    None
}

fn find_setter(track: &Vec<(String, String, String)>, package: &str, option: &str) -> (r: Option<
    usize,
>)
    ensures
        match r {
            Some(i) => i < track@.len() && setter_of(track_view(track@), package@, option@)
                == Some(track@[i as int].2@),
            None => setter_of(track_view(track@), package@, option@) is None,
        },
{
    let mut i: usize = 0;
    while i < track.len()
        invariant
            i <= track.len(),
            setter_of(track_view(track@), package@, option@) == setter_from(
                track_view(track@),
                package@,
                option@,
                i as int,
            ),
        decreases track.len() - i,
    {
        if same_text(track[i].0.as_str(), package) && same_text(track[i].1.as_str(), option) {
            return Some(i);
        }
        i = i + 1;
    }
    None
}

fn origin_of(track: &Vec<(String, String, String)>, source: &str, option: &str) -> (s: String)
    ensures
        s@ == origin(track_view(track@), source@, option@),
{
    match find_setter(track, source, option) {
        Some(i) => track[i].2.clone(),
        None => String::from_str(source),
    }
}

fn apply_entry_to(
    row: &mut Vec<(String, Option<SpecOptionValue>)>,
    track: &mut Vec<(String, String, String)>,
    target: &str,
    source: &str,
    option: &str,
    value: &Option<SpecOptionValue>,
) -> (r: Result<(), PropagateDefaultError>)
    ensures
        match apply_entry(
            row_view(old(row)@),
            track_view(old(track)@),
            target@,
            source@,
            option@,
            value_view(*value),
        ) {
            Ok((next, noted)) => r is Ok && row_view(final(row)@) == next && track_view(
                final(track)@,
            ) == noted,
            Err(c) => r matches Err(e) && conflict_of(e) == Some(c),
        },
        distinct_row(row_view(old(row)@)) ==> distinct_row(row_view(final(row)@)),
{
    let ghost row0 = row_view(row@);
    let ghost track0 = track_view(track@);
    proof {
        if distinct_row(row0) {
            lemma_entry_meets(row0, track0, target@, source@, option@, value_view(*value));
        }
    }
    match find_default(row, option) {
        None => match value {
            None => Ok(()),
            Some(v) => {
                let setter = origin_of(track, source, option);
                row.push((String::from_str(option), Some(v.duplicate())));
                track.push((String::from_str(target), String::from_str(option), setter));
                assert(row_view(row@) =~= row0.push((option@, Some(v@))));
                assert(track_view(track@) =~= track0.push(
                    (target@, option@, origin(track0, source@, option@)),
                ));
                Ok(())
            },
        },
        Some(i) => {
            let gone = match (value, &row[i].1) {
                (None, _) => true,
                (Some(_), None) => true,
                (Some(_), Some(_)) => false,
            };
            if gone {
                row.remove(i);
                assert(row_view(row@) =~= row0.remove(i as int));
                return Ok(());
            }
            match (value, &row[i].1) {
                (Some(v), Some(held)) => {
                    match find_setter(track, target, option) {
                        Some(at) => {
                            if !held.same(v) {
                                Err(
                                    PropagateDefaultError::Conflict {
                                        package_name: String::from_str(target),
                                        default_name: String::from_str(option),
                                        first_setter: track[at].2.clone(),
                                        first_value: held.duplicate(),
                                        conflict_setter: origin_of(track, source, option),
                                        conflict_value: v.duplicate(),
                                    },
                                )
                            } else {
                                Ok(())
                            }
                        },
                        None => Ok(()),
                    }
                },
                _ => Ok(()),
            }
        },
    }
}

fn apply_entries_to(
    row: &mut Vec<(String, Option<SpecOptionValue>)>,
    track: &mut Vec<(String, String, String)>,
    target: &str,
    source: &str,
    handed: &Vec<(String, Option<SpecOptionValue>)>,
) -> (r: Result<(), PropagateDefaultError>)
    ensures
        match apply_entries(
            row_view(old(row)@),
            track_view(old(track)@),
            target@,
            source@,
            row_view(handed@),
            0,
        ) {
            Ok((next, noted)) => r is Ok && row_view(final(row)@) == next && track_view(
                final(track)@,
            ) == noted,
            Err(c) => r matches Err(e) && conflict_of(e) == Some(c),
        },
        distinct_row(row_view(old(row)@)) ==> distinct_row(row_view(final(row)@)),
{
    let mut k: usize = 0;
    while k < handed.len()
        invariant
            k <= handed.len(),
            distinct_row(row_view(old(row)@)) ==> distinct_row(row_view(row@)),
            apply_entries(
                row_view(old(row)@),
                track_view(old(track)@),
                target@,
                source@,
                row_view(handed@),
                0,
            ) == apply_entries(
                row_view(row@),
                track_view(track@),
                target@,
                source@,
                row_view(handed@),
                k as int,
            ),
        decreases handed.len() - k,
    {
        match apply_entry_to(row, track, target, source, handed[k].0.as_str(), &handed[k].1) {
            Err(e) => {
                return Err(e);
            },
            Ok(_) => {},
        }
        k = k + 1;
    }
    Ok(())
}

fn copy_row(row: &Vec<(String, Option<SpecOptionValue>)>) -> (copy: Vec<
    (String, Option<SpecOptionValue>),
>)
    ensures
        row_view(copy@) == row_view(row@),
{
    let mut copy: Vec<(String, Option<SpecOptionValue>)> = Vec::new();
    let mut i: usize = 0;
    while i < row.len()
        invariant
            i <= row.len(),
            row_view(copy@) == row_view(row@).take(i as int),
        decreases row.len() - i,
    {
        let value = match &row[i].1 {
            Some(v) => Some(v.duplicate()),
            None => None,
        };
        let ghost sofar = row_view(copy@);
        copy.push((row[i].0.clone(), value));
        assert(row_view(row@).take(i + 1) =~= row_view(row@).take(i as int).push(
            (row@[i as int].0@, value_view(row@[i as int].1)),
        ));
        assert(row_view(copy@) =~= sofar.push((row@[i as int].0@, value_view(row@[i as int].1))));
        i = i + 1;
    }
    assert(row_view(row@).take(i as int) =~= row_view(row@));
    copy
}

/// The outlines of all packages, and the graph that they make.
pub struct SpecOutline {
    outlines: Vec<PackageOutline>,
    graph: PackageDiGraph,
    /// The names of the packages that a plan must switch on.
    pub required: Vec<String>,
}

/// Whether two lists of outlines differ in nothing but the defaults.
pub open spec fn same_but_defaults(a: Seq<PackageOutline>, b: Seq<PackageOutline>) -> bool {
    &&& a.len() == b.len()
    &&& forall|i: int|
        0 <= i < a.len() ==> (#[trigger] a[i]).name == b[i].name && a[i].constraints
            == b[i].constraints && a[i].set_options == b[i].set_options
}

impl SpecOutline {
    /// The outlines, in the order in which they were given.
    pub closed spec fn packages(self) -> Seq<PackageOutline> {
        self.outlines@
    }

    /// The edges of the graph, each from a package to one it depends on, by
    /// the places of the two in [`SpecOutline::packages`].
    pub closed spec fn edges(self) -> Seq<(usize, usize)> {
        graph_edges(self.graph)
    }

    /// The names of the packages that a plan must switch on.
    pub closed spec fn wanted(self) -> Seq<Seq<char>> {
        texts(self.required@)
    }

    /// Whether the graph fits the outlines: a node for each, and edges
    /// between them only; and each outline has its options no more than
    /// once.
    pub closed spec fn wf(self) -> bool {
        &&& graph_size(self.graph) == self.outlines@.len()
        &&& self.outlines@.len() <= graph_limit()
        &&& edges_within(graph_edges(self.graph), self.outlines@.len() as nat)
        &&& all_distinct_options(self.outlines@)
    }

    /// In a well-formed graph each outline has its options no more than
    /// once.
    pub proof fn lemma_options_distinct(self)
        requires
            self.wf(),
        ensures
            all_distinct_options(self.packages()),
    {
    }

    /// Makes the graph of `outlines`: a node for each, and an edge from each
    /// package to each package that it depends on.
    ///
    /// A dependency is looked up by name; of two outlines with one name the
    /// later is taken. A dependency without outline is an error. Each
    /// outline has its options no more than once, as
    /// [`have_distinct_options`] tells.
    pub fn new(outlines: Vec<PackageOutline>) -> (r: Result<Self, SolverError>)
        requires
            all_distinct_options(outlines@),
        ensures
            match r {
                Ok(s) => {
                    &&& s.wf()
                    &&& s.packages() == outlines@
                    &&& s.wanted().len() == 0
                    &&& all_edges(outlines@) == Ok::<Seq<(usize, usize)>, Seq<char>>(s.edges())
                    &&& every_dependency_known(outlines@)
                },
                Err(SolverError::MissingPackage { dep }) => {
                    &&& all_edges(outlines@) == Err::<Seq<(usize, usize)>, Seq<char>>(dep@)
                    &&& is_unknown_dependency(outlines@, dep@)
                },
                Err(SolverError::GraphFull) => outlines@.len() >= graph_limit() || edge_demand(
                    outlines@,
                    outlines@.len(),
                ) >= graph_limit(),
                Err(_) => false,
            },
            (r is Err && !(r matches Err(SolverError::GraphFull))) ==> outlines@.len()
                < graph_limit() && edge_demand(outlines@, outlines@.len()) < graph_limit(),
            r is Ok ==> outlines@.len() < graph_limit() && edge_demand(
                outlines@,
                outlines@.len(),
            ) < graph_limit(),
    {
        let n = outlines.len();
        if n >= 0xffff_ffff {
            return Err(SolverError::GraphFull);
        }
        let mut needs: Vec<Vec<String>> = Vec::new();
        let mut demand: usize = 0;
        let mut i: usize = 0;
        while i < n
            invariant
                i <= n,
                n == outlines@.len(),
                n < graph_limit(),
                needs@.len() == i,
                demand == edge_demand(outlines@, i as nat),
                demand < graph_limit(),
                forall|x: int|
                    0 <= x < i ==> texts((#[trigger] needs@[x])@) == package_dependencies(
                        outlines@[x],
                    ),
            decreases n - i,
        {
            let deps = outlines[i].dependencies();
            if deps.len() >= 0xffff_ffff - demand {
                proof {
                    lemma_edge_demand_grows(outlines@, (i + 1) as nat, n as nat);
                }
                return Err(SolverError::GraphFull);
            }
            demand = demand + deps.len();
            needs.push(deps);
            i = i + 1;
        }
        let mut graph = graph_new();
        let mut i: usize = 0;
        while i < n
            invariant
                i <= n,
                n < graph_limit(),
                graph_size(graph) == i,
                graph_edges(graph) == Seq::<(usize, usize)>::empty(),
            decreases n - i,
        {
            graph_add_node(&mut graph);
            i = i + 1;
        }
        let ghost names = names_of(outlines@);
        let mut i: usize = 0;
        while i < n
            invariant
                i <= n,
                n == outlines@.len(),
                n < graph_limit(),
                needs@.len() == n,
                names == names_of(outlines@),
                demand == edge_demand(outlines@, n as nat),
                demand < graph_limit(),
                graph_size(graph) == n,
                edges_within(graph_edges(graph), n as nat),
                forall|x: int|
                    0 <= x < n ==> texts((#[trigger] needs@[x])@) == package_dependencies(
                        outlines@[x],
                    ),
                edges_of_first(outlines@, i as nat) == Ok::<Seq<(usize, usize)>, Seq<char>>(
                    graph_edges(graph),
                ),
                graph_edges(graph).len() == edge_demand(outlines@, i as nat),
                known_first(outlines@, i as nat),
            decreases n - i,
        {
            let ghost sofar = graph_edges(graph);
            let ghost deps = package_dependencies(outlines@[i as int]);
            let mut k: usize = 0;
            assert(texts(needs@[i as int]@) == deps);
            proof {
                lemma_edge_demand_grows(outlines@, (i + 1) as nat, n as nat);
            }
            while k < needs[i].len()
                invariant
                    i < n,
                    n == outlines@.len(),
                    n < graph_limit(),
                    needs@.len() == n,
                    k <= needs@[i as int]@.len(),
                    names == names_of(outlines@),
                    texts(needs@[i as int]@) == deps,
                    deps == package_dependencies(outlines@[i as int]),
                    graph_size(graph) == n,
                    edges_within(graph_edges(graph), n as nat),
                    edges_within(sofar, n as nat),
                    edges_of_first(outlines@, i as nat) == Ok::<Seq<(usize, usize)>, Seq<char>>(
                        sofar,
                    ),
                    sofar.len() == edge_demand(outlines@, i as nat),
                    edge_demand(outlines@, (i + 1) as nat) < graph_limit(),
                    edge_demand(outlines@, n as nat) < graph_limit(),
                    edges_from(names, i, deps, k as nat) matches Ok(more) && graph_edges(graph)
                        == sofar + more && more.len() == k,
                    forall|x: int| 0 <= x < k ==> occurs(names, #[trigger] deps[x]),
                    known_first(outlines@, i as nat),
                decreases needs@[i as int]@.len() - k,
            {
                let dep = &needs[i][k];
                let ghost more = edges_from(names, i, deps, k as nat)->Ok_0;
                assert(dep@ == deps[k as int]);
                proof {
                    lemma_last_named(names, dep@);
                }
                match find_last_named(&outlines, dep.as_str()) {
                    None => {
                        proof {
                            lemma_edges_from_fails(names, i, deps, (k + 1) as nat, deps.len());
                            lemma_edges_of_first_fails(outlines@, (i + 1) as nat, n as nat);
                            assert(is_unknown_dependency(outlines@, dep@)) by {
                                assert(package_dependencies(outlines@[i as int])[k as int]
                                    == dep@);
                            }
                        }
                        return Err(SolverError::MissingPackage { dep: dep.clone() });
                    },
                    Some(target) => {
                        graph_add_edge(&mut graph, i, target);
                        assert(graph_edges(graph) =~= sofar + more.push((i, target)));
                    },
                }
                k = k + 1;
            }
            proof {
                assert(known_first(outlines@, (i + 1) as nat)) by {
                    assert forall|x: int, y: int|
                        0 <= x < i + 1 && 0 <= y < package_dependencies(
                            outlines@[x],
                        ).len() implies occurs(
                        names_of(outlines@),
                        #[trigger] package_dependencies(outlines@[x])[y],
                    ) by {
                        if x < i {
                        }
                    }
                }
            }
            i = i + 1;
        }
        let s = SpecOutline { outlines, graph, required: Vec::new() };
        assert(s.wanted() =~= Seq::<Seq<char>>::empty());
        Ok(s)
    }

    /// The names of the packages that a plan must switch on.
    pub fn required_names(&self) -> (names: &Vec<String>)
        ensures
            texts(names@) == self.wanted(),
    {
        &self.required
    }

    /// The packages in an order in which each stands before the packages
    /// it depends on; or a package that depends on itself by way of
    /// others.
    pub fn sorted(&self) -> (r: Result<Vec<usize>, usize>)
        requires
            self.wf(),
        ensures
            match r {
                Ok(order) => is_topological(order@, self.packages().len(), self.edges()),
                Err(node) => exists|path: Seq<usize>|
                    #[trigger] is_cycle(path, self.edges()) && path[0] == node,
            },
    {
        let sorting = graph_toposort(&self.graph);
        proof {
            match sorting {
                Ok(_) => {},
                Err(node) => {
                    let path = choose|path: Seq<usize>|
                        #[trigger] is_cycle(path, graph_edges(self.graph)) && path[0] == node;
                    assert(is_cycle(path, self.edges()) && path[0] == node);
                },
            }
        }
        sorting
    }

    /// The outlines.
    pub fn outlines(&self) -> (o: &Vec<PackageOutline>)
        ensures
            o@ == self.packages(),
    {
        &self.outlines
    }

    /// Propagates defaults down the graph: each package, taken before the
    /// packages it depends on, hands its defaults to them.
    pub fn propagate_defaults(&mut self) -> (r: Result<(), PropagateDefaultError>)
        requires
            old(self).wf(),
        ensures
            final(self).wf(),
            final(self).edges() == old(self).edges(),
            final(self).wanted() == old(self).wanted(),
            same_but_defaults(old(self).packages(), final(self).packages()),
            match r {
                Ok(_) => exists|order: Seq<usize>|
                    #[trigger] is_topological(
                        order,
                        old(self).packages().len(),
                        old(self).edges(),
                    ) && propagated(
                        rows_of(old(self).packages()),
                        names_of(old(self).packages()),
                        old(self).edges(),
                        order,
                    ) == Ok::<Seq<Row>, ConflictView>(rows_of(final(self).packages())),
                Err(PropagateDefaultError::Cycle(node)) => final(self).packages() == old(
                    self,
                ).packages() && exists|path: Seq<usize>|
                    #[trigger] is_cycle(path, old(self).edges()) && path[0] == node,
                Err(e) => conflict_of(e) is Some && exists|order: Seq<usize>|
                    #[trigger] is_topological(
                        order,
                        old(self).packages().len(),
                        old(self).edges(),
                    ) && propagated(
                        rows_of(old(self).packages()),
                        names_of(old(self).packages()),
                        old(self).edges(),
                        order,
                    ) == Err::<Seq<Row>, ConflictView>(conflict_of(e)->0),
            },
    {
        let sorting = graph_toposort(&self.graph);
        let sorted = match sorting {
            Ok(sorted) => sorted,
            Err(node) => {
                proof {
                    let path = choose|path: Seq<usize>|
                        #[trigger] is_cycle(path, graph_edges(self.graph)) && path[0] == node;
                    assert(is_cycle(path, self.edges()) && path[0] == node);
                }
                return Err(PropagateDefaultError::Cycle(node));
            },
        };
        let mut track: Vec<(String, String, String)> = Vec::new();
        let ghost rows0 = rows_of(self.outlines@);
        let ghost names = names_of(self.outlines@);
        let ghost edges = graph_edges(self.graph);
        let ghost order = sorted@;
        let ghost start = self.outlines@;
        let n = self.outlines.len();
        let mut i: usize = 0;
        assert(track_view(track@) =~= Seq::empty());
        while i < sorted.len()
            invariant
                i <= sorted.len(),
                order == sorted@,
                n == self.outlines@.len(),
                n == start.len(),
                self.wf(),
                edges == graph_edges(self.graph),
                names == names_of(self.outlines@),
                self.required == old(self).required,
                start == old(self).packages(),
                edges == old(self).edges(),
                names == names_of(start),
                same_but_defaults(start, self.outlines@),
                is_topological(order, n as nat, edges),
                rows0 == rows_of(start),
                propagated(rows0, names, edges, order) == propagate_from(
                    rows_of(self.outlines@),
                    track_view(track@),
                    names,
                    edges,
                    order,
                    i as int,
                ),
            decreases sorted.len() - i,
        {
            let src = sorted[i];
            assert(order[i as int] < n);
            let src_name = self.outlines[src].name.clone();
            let handed = copy_row(&self.outlines[src].set_defaults);
            let targets = graph_successors(&self.graph, src);
            let ghost rows_i = rows_of(self.outlines@);
            let ghost track_i = track_view(track@);
            proof {
                lemma_successors_within(edges, src, n as nat);
            }
            let mut j: usize = 0;
            while j < targets.len()
                invariant
                    j <= targets.len(),
                    src < n,
                    n == self.outlines@.len(),
                    n == start.len(),
                    self.wf(),
                    edges == graph_edges(self.graph),
                    names == names_of(self.outlines@),
                    self.required == old(self).required,
                    start == old(self).packages(),
                    edges == old(self).edges(),
                    names == names_of(start),
                    rows0 == rows_of(start),
                    order == sorted@,
                    i < sorted.len(),
                    src == order[i as int],
                    is_topological(order, n as nat, edges),
                    src < rows_i.len(),
                    row_view(handed@) == rows_i[src as int],
                    targets@ == successors_of(edges, src),
                    propagated(rows0, names, edges, order) == propagate_from(
                        rows_i,
                        track_i,
                        names,
                        edges,
                        order,
                        i as int,
                    ),
                    same_but_defaults(start, self.outlines@),
                    src_name@ == names[src as int],
                    forall|t: int| 0 <= t < targets@.len() ==> (#[trigger] targets@[t]) < n,
                    apply_to_targets(
                        rows_i,
                        track_i,
                        names,
                        src,
                        row_view(handed@),
                        targets@,
                        0,
                    ) == apply_to_targets(
                        rows_of(self.outlines@),
                        track_view(track@),
                        names,
                        src,
                        row_view(handed@),
                        targets@,
                        j as int,
                    ),
                decreases targets.len() - j,
            {
                let d = targets[j];
                let dep_name = self.outlines[d].name.clone();
                let ghost before = self.outlines@;
                let ghost rows_before = rows_of(self.outlines@);
                let ghost track_before = track_view(track@);
                match apply_entries_to(
                    &mut self.outlines[d].set_defaults,
                    &mut track,
                    dep_name.as_str(),
                    src_name.as_str(),
                    &handed,
                ) {
                    Err(e) => {
                        proof {
                            assert(same_but_defaults(start, self.outlines@));
                            let c = conflict_of(e)->0;
                            assert(rows_before[d as int] == row_view(
                                before[d as int].set_defaults@,
                            ));
                            assert(names[d as int] == dep_name@);
                            assert(apply_entries(
                                rows_before[d as int],
                                track_before,
                                names[d as int],
                                names[src as int],
                                row_view(handed@),
                                0,
                            ) == Err::<(Row, Track), ConflictView>(c));
                            assert(apply_to_targets(
                                rows_before,
                                track_before,
                                names,
                                src,
                                row_view(handed@),
                                targets@,
                                j as int,
                            ) == Err::<(Seq<Row>, Track), ConflictView>(c));
                            assert(propagate_from(rows_i, track_i, names, edges, order, i as int)
                                == Err::<Seq<Row>, ConflictView>(c));
                            assert(is_topological(order, old(self).packages().len(), old(self).edges()));
                        }
                        return Err(e);
                    },
                    Ok(_) => {},
                }
                proof {
                    assert(self.outlines@.len() == before.len());
                    assert(rows_of(self.outlines@) =~= rows_before.update(
                        d as int,
                        row_view(self.outlines@[d as int].set_defaults@),
                    ));
                    assert(names_of(self.outlines@) =~= names);
                }
                j = j + 1;
            }
            i = i + 1;
        }
        Ok(())
    }
}

/// Whether each dependency of each of the first `i` of `outlines` is the
/// name of one of `outlines`.
pub open spec fn known_first(outlines: Seq<PackageOutline>, i: nat) -> bool {
    forall|x: int, y: int|
        0 <= x < i && x < outlines.len() && 0 <= y < package_dependencies(outlines[x]).len()
            ==> occurs(names_of(outlines), #[trigger] package_dependencies(outlines[x])[y])
}

/// Whether each dependency of each of `outlines` is the name of one of
/// `outlines`.
pub open spec fn every_dependency_known(outlines: Seq<PackageOutline>) -> bool {
    known_first(outlines, outlines.len())
}

/// Whether `name` is a dependency of one of `outlines` and the name of
/// none.
pub open spec fn is_unknown_dependency(outlines: Seq<PackageOutline>, name: Seq<char>) -> bool {
    &&& !occurs(names_of(outlines), name)
    &&& exists|x: int, y: int|
        0 <= x < outlines.len() && 0 <= y < package_dependencies(outlines[x]).len()
            && #[trigger] package_dependencies(outlines[x])[y] == name
}

/// [`last_named`] finds a name exactly where it is one of the names.
pub proof fn lemma_last_named(names: Seq<Seq<char>>, name: Seq<char>)
    ensures
        match last_named(names, name) {
            Some(i) => 0 <= i < names.len() && names[i] == name,
            None => !occurs(names, name),
        },
    decreases names.len(),
{
    if names.len() > 0 && names.last() != name {
        let init = names.drop_last();
        lemma_last_named(init, name);
        if occurs(names, name) {
            let i = choose|i: int| 0 <= i < names.len() && #[trigger] names[i] == name;
            assert(init[i] == name);
        }
    }
}

/// Whether `edges` has the edge from `a` to `b`.
pub open spec fn has_edge(edges: Seq<(usize, usize)>, a: usize, b: usize) -> bool {
    exists|k: int| 0 <= k < edges.len() && #[trigger] edges[k] == (a, b)
}

/// Whether the package at place `a` of `outlines` depends on the package
/// at place `b`: it names a package, and the outline at `b` is the one
/// that goes by that name.
pub open spec fn depends_on(outlines: Seq<PackageOutline>, a: int, b: int) -> bool {
    0 <= a < outlines.len() && exists|y: int|
        0 <= y < package_dependencies(outlines[a]).len() && last_named(
            names_of(outlines),
            #[trigger] package_dependencies(outlines[a])[y],
        ) == Some(b)
}

/// Whether `r` is what the first `k` of `deps` come to: an edge for each,
/// to the outline that goes by its name; or one of them that goes by no
/// outline's name.
spec fn edges_read(
    names: Seq<Seq<char>>,
    source: usize,
    deps: Seq<Seq<char>>,
    k: nat,
    r: Result<Seq<(usize, usize)>, Seq<char>>,
) -> bool {
    match r {
        Ok(es) => {
            &&& es.len() == k
            &&& forall|y: int| 0 <= y < k ==> last_named(names, #[trigger] deps[y]) is Some
            &&& forall|y: int|
                0 <= y < k ==> (#[trigger] es[y]) == (source, last_named(names, deps[y])->0 as usize)
        },
        Err(name) => exists|y: int|
            0 <= y < k && (#[trigger] deps[y]) == name && last_named(names, name) is None,
    }
}

proof fn lemma_edges_from(names: Seq<Seq<char>>, source: usize, deps: Seq<Seq<char>>, k: nat)
    requires
        k <= deps.len(),
        names.len() <= usize::MAX,
    ensures
        edges_read(names, source, deps, k, edges_from(names, source, deps, k)),
    decreases k,
{
    if k > 0 {
        lemma_edges_from(names, source, deps, (k - 1) as nat);
        match edges_from(names, source, deps, (k - 1) as nat) {
            Err(name) => {
                let y = choose|y: int|
                    0 <= y < k - 1 && (#[trigger] deps[y]) == name && last_named(names, name) is None;
                assert(0 <= y < k && deps[y] == name);
                assert(edges_read(names, source, deps, k, Err(name)));
            },
            Ok(prev) => {
                lemma_last_named(names, deps[k - 1]);
                match last_named(names, deps[k - 1]) {
                    None => {
                        assert(0 <= k - 1 < k && deps[k - 1] == deps[k - 1]);
                        assert(edges_read(names, source, deps, k, Err(deps[k - 1])));
                    },
                    Some(target) => {
                        let es = prev.push((source, target as usize));
                        assert forall|y: int| 0 <= y < k implies (#[trigger] es[y]) == (
                            source,
                            last_named(names, deps[y])->0 as usize,
                        ) by {
                            if y < k - 1 {
                                assert(es[y] == prev[y]);
                            }
                        }
                    },
                }
            },
        }
    }
}

proof fn lemma_edges_of_first(outlines: Seq<PackageOutline>, i: nat)
    requires
        i <= outlines.len() <= usize::MAX,
    ensures
        match edges_of_first(outlines, i) {
            Ok(es) => forall|a: usize, b: usize| #[trigger]
                has_edge(es, a, b) <==> a < i && depends_on(outlines, a as int, b as int),
            Err(name) => exists|x: int, y: int|
                0 <= x < i && 0 <= y < package_dependencies(outlines[x]).len()
                    && #[trigger] package_dependencies(outlines[x])[y] == name && last_named(
                    names_of(outlines),
                    name,
                ) is None,
        },
    decreases i,
{
    let names = names_of(outlines);
    if i == 0 {
        let es = edges_of_first(outlines, i)->Ok_0;
        assert forall|a: usize, b: usize| #[trigger]
            has_edge(es, a, b) <==> a < i && depends_on(outlines, a as int, b as int) by {}
    } else {
        lemma_edges_of_first(outlines, (i - 1) as nat);
        let source = (i - 1) as usize;
        let deps = package_dependencies(outlines[i - 1]);
        match edges_of_first(outlines, (i - 1) as nat) {
            Err(name) => {
                let (x, y) = choose|x: int, y: int|
                    0 <= x < i - 1 && 0 <= y < package_dependencies(outlines[x]).len()
                        && #[trigger] package_dependencies(outlines[x])[y] == name && last_named(
                        names,
                        name,
                    ) is None;
                assert(0 <= x < i && package_dependencies(outlines[x])[y] == name);
            },
            Ok(prev) => {
                lemma_edges_from(names, source, deps, deps.len());
                match edges_from(names, source, deps, deps.len()) {
                    Err(name) => {
                        let y = choose|y: int|
                            0 <= y < deps.len() && (#[trigger] deps[y]) == name && last_named(
                                names,
                                name,
                            ) is None;
                        assert(package_dependencies(outlines[i - 1])[y] == name);
                    },
                    Ok(more) => {
                        let es = prev + more;
                        assert forall|a: usize, b: usize| #[trigger]
                            has_edge(es, a, b) <==> a < i && depends_on(
                                outlines,
                                a as int,
                                b as int,
                            ) by {
                            if has_edge(es, a, b) {
                                let k = choose|k: int| 0 <= k < es.len() && #[trigger] es[k] == (a, b);
                                if k < prev.len() {
                                    assert(prev[k] == (a, b));
                                    assert(has_edge(prev, a, b));
                                } else {
                                    let y = k - prev.len();
                                    assert(more[y] == (a, b));
                                    lemma_last_named(names, deps[y]);
                                    assert(last_named(names, deps[y]) == Some(b as int));
                                    assert(depends_on(outlines, a as int, b as int));
                                }
                            }
                            if a < i && depends_on(outlines, a as int, b as int) {
                                if a < i - 1 {
                                    assert(has_edge(prev, a, b));
                                    let k = choose|k: int|
                                        0 <= k < prev.len() && #[trigger] prev[k] == (a, b);
                                    assert(es[k] == (a, b));
                                } else {
                                    let y = choose|y: int|
                                        0 <= y < deps.len() && last_named(names, #[trigger] deps[y])
                                            == Some(b as int);
                                    assert(more[y] == (a, b));
                                    assert(es[prev.len() + y] == (a, b));
                                }
                            }
                        }
                    },
                }
            },
        }
    }
}

/// The graph of a list of outlines has an edge exactly where a package
/// depends on another, and there is a graph exactly where each package
/// that is depended on has an outline. Where there is none, the name
/// that is told is that of a package that is depended on and has no
/// outline.
pub proof fn lemma_edges_are_dependencies(outlines: Seq<PackageOutline>)
    requires
        outlines.len() <= usize::MAX,
    ensures
        all_edges(outlines) is Ok <==> every_dependency_known(outlines),
        all_edges(outlines) matches Err(name) ==> is_unknown_dependency(outlines, name),
        all_edges(outlines) matches Ok(edges) ==> forall|a: usize, b: usize| #[trigger]
            has_edge(edges, a, b) <==> depends_on(outlines, a as int, b as int),
{
    let names = names_of(outlines);
    lemma_edges_of_first(outlines, outlines.len());
    match all_edges(outlines) {
        Err(name) => {
            let (x, y) = choose|x: int, y: int|
                0 <= x < outlines.len() && 0 <= y < package_dependencies(outlines[x]).len()
                    && #[trigger] package_dependencies(outlines[x])[y] == name && last_named(
                    names,
                    name,
                ) is None;
            lemma_last_named(names, name);
            assert(is_unknown_dependency(outlines, name));
            if every_dependency_known(outlines) {
                assert(occurs(names, package_dependencies(outlines[x])[y]));
            }
        },
        Ok(edges) => {
            assert forall|x: int, y: int|
                0 <= x < outlines.len() && 0 <= y < package_dependencies(
                    outlines[x],
                ).len() implies occurs(names, #[trigger] package_dependencies(outlines[x])[y]) by {
                lemma_known_when_built(outlines, outlines.len(), x, y);
            }
            assert forall|a: usize, b: usize| #[trigger]
                has_edge(edges, a, b) <==> depends_on(outlines, a as int, b as int) by {}
        },
    }
}

/// Where the edges of the first `i` outlines can be told, each package
/// that one of them depends on has an outline.
proof fn lemma_known_when_built(outlines: Seq<PackageOutline>, i: nat, x: int, y: int)
    requires
        i <= outlines.len() <= usize::MAX,
        edges_of_first(outlines, i) is Ok,
        0 <= x < i,
        0 <= y < package_dependencies(outlines[x]).len(),
    ensures
        occurs(names_of(outlines), package_dependencies(outlines[x])[y]),
    decreases i,
{
    let names = names_of(outlines);
    if x < i - 1 {
        lemma_known_when_built(outlines, (i - 1) as nat, x, y);
    } else {
        let deps = package_dependencies(outlines[i - 1]);
        lemma_edges_from(names, (i - 1) as usize, deps, deps.len());
        assert(last_named(names, deps[y]) is Some);
        lemma_last_named(names, deps[y]);
    }
}

/// Once a dependency is missing, it stays the answer however many more are
/// looked at.
pub proof fn lemma_edges_from_fails(
    names: Seq<Seq<char>>,
    source: usize,
    deps: Seq<Seq<char>>,
    k: nat,
    m: nat,
)
    requires
        k <= m <= deps.len(),
        edges_from(names, source, deps, k) is Err,
    ensures
        edges_from(names, source, deps, m) == edges_from(names, source, deps, k),
    decreases m - k,
{
    if k < m {
        lemma_edges_from_fails(names, source, deps, k, (m - 1) as nat);
    }
}

/// Once a dependency is missing, it stays the answer however many more
/// outlines are looked at.
pub proof fn lemma_edges_of_first_fails(outlines: Seq<PackageOutline>, i: nat, m: nat)
    requires
        i <= m <= outlines.len(),
        edges_of_first(outlines, i) is Err,
    ensures
        edges_of_first(outlines, m) == edges_of_first(outlines, i),
    decreases m - i,
{
    if i < m {
        lemma_edges_of_first_fails(outlines, i, (m - 1) as nat);
    }
}

/// The more outlines are counted, the more dependencies there are.
pub proof fn lemma_edge_demand_grows(outlines: Seq<PackageOutline>, i: nat, m: nat)
    requires
        i <= m <= outlines.len(),
    ensures
        edge_demand(outlines, i) <= edge_demand(outlines, m),
    decreases m - i,
{
    if i < m {
        lemma_edge_demand_grows(outlines, i, (m - 1) as nat);
    }
}

} // verus!
