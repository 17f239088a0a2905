//! How defaults go down the graph of packages, as mathematics.

use super::graph::{
    edges_within, graph_limit, is_topological, lemma_order_holds_all, lemma_successors_are_edges,
    lemma_successors_within, stands_in, successors_of,
};
use crate::spec::spec_option::ValueView;
use vstd::prelude::*;

verus! {

/// The defaults of one package: option names with their values, where
/// nothing stands for "take away what comes from above".
pub type Row = Seq<(Seq<char>, Option<ValueView>)>;

/// Who first set a default that a package got from above: package, option,
/// setter.
pub type Track = Seq<(Seq<char>, Seq<char>, Seq<char>)>;

/// Two defaults for one option that reached one package.
pub struct ConflictView {
    pub package: Seq<char>,
    pub option: Seq<char>,
    pub first_setter: Seq<char>,
    pub first_value: ValueView,
    pub conflict_setter: Seq<char>,
    pub conflict_value: ValueView,
}

/// The first place from `i` on at which `row` has the option `key`.
pub open spec fn find_from(row: Row, key: Seq<char>, i: int) -> Option<int>
    decreases row.len() - i,
{
    if i < 0 || i >= row.len() {
        None
    } else if row[i].0 == key {
        Some(i)
    } else {
        find_from(row, key, i + 1)
    }
}

/// The first place at which `row` has the option `key`.
pub open spec fn find_key(row: Row, key: Seq<char>) -> Option<int> {
    find_from(row, key, 0)
}

/// Whether `row` has the option `key`.
pub open spec fn has_key(row: Row, key: Seq<char>) -> bool {
    find_key(row, key) is Some
}

/// The first setter that `track` has from place `i` on for `option` of
/// `package`.
pub open spec fn setter_from(track: Track, package: Seq<char>, option: Seq<char>, i: int) -> Option<
    Seq<char>,
>
    decreases track.len() - i,
{
    if i < 0 || i >= track.len() {
        None
    } else if track[i].0 == package && track[i].1 == option {
        Some(track[i].2)
    } else {
        setter_from(track, package, option, i + 1)
    }
}

/// Who first set `option` for `package`, as far as `track` knows.
pub open spec fn setter_of(track: Track, package: Seq<char>, option: Seq<char>) -> Option<
    Seq<char>,
> {
    setter_from(track, package, option, 0)
}

/// Where the value that `source` hands down for `option` came from: the
/// first setter on record, else `source` itself.
pub open spec fn origin(track: Track, source: Seq<char>, option: Seq<char>) -> Seq<char> {
    match setter_of(track, source, option) {
        Some(setter) => setter,
        None => source,
    }
}

/// What becomes of the defaults `row` of the package `target` when
/// `source` hands down `value` for `option`.
///
/// Nothing handed down takes the option away. A value goes in where the
/// option is missing, and the setter is put on record. Where the option is
/// there as "take away", it goes. Where it is there with a value that came
/// from above and differs, the two are in conflict; a value that the
/// package set itself stays.
pub open spec fn apply_entry(
    row: Row,
    track: Track,
    target: Seq<char>,
    source: Seq<char>,
    option: Seq<char>,
    value: Option<ValueView>,
) -> Result<(Row, Track), ConflictView> {
    match find_key(row, option) {
        None => match value {
            None => Ok((row, track)),
            Some(v) => Ok(
                (
                    row.push((option, Some(v))),
                    track.push((target, option, origin(track, source, option))),
                ),
            ),
        },
        Some(i) => match (value, row[i].1) {
            (None, _) => Ok((row.remove(i), track)),
            (Some(_), None) => Ok((row.remove(i), track)),
            (Some(v), Some(held)) => match setter_of(track, target, option) {
                Some(first) => if held != v {
                    Err(
                        ConflictView {
                            package: target,
                            option,
                            first_setter: first,
                            first_value: held,
                            conflict_setter: origin(track, source, option),
                            conflict_value: v,
                        },
                    )
                } else {
                    Ok((row, track))
                },
                None => Ok((row, track)),
            },
        },
    }
}

/// [`apply_entry`] for each default of `handed` from place `k` on, in
/// order.
pub open spec fn apply_entries(
    row: Row,
    track: Track,
    target: Seq<char>,
    source: Seq<char>,
    handed: Row,
    k: int,
) -> Result<(Row, Track), ConflictView>
    decreases handed.len() - k,
{
    if k < 0 || k >= handed.len() {
        Ok((row, track))
    } else {
        match apply_entry(row, track, target, source, handed[k].0, handed[k].1) {
            Err(c) => Err(c),
            Ok((next, noted)) => apply_entries(next, noted, target, source, handed, k + 1),
        }
    }
}

/// The defaults `handed` of the package at `source` go to each of the
/// packages `targets` from place `j` on, in order.
pub open spec fn apply_to_targets(
    rows: Seq<Row>,
    track: Track,
    names: Seq<Seq<char>>,
    source: usize,
    handed: Row,
    targets: Seq<usize>,
    j: int,
) -> Result<(Seq<Row>, Track), ConflictView>
    decreases targets.len() - j,
{
    if j < 0 || j >= targets.len() {
        Ok((rows, track))
    } else {
        let d = targets[j] as int;
        match apply_entries(rows[d], track, names[d], names[source as int], handed, 0) {
            Err(c) => Err(c),
            Ok((row, noted)) => apply_to_targets(
                rows.update(d, row),
                noted,
                names,
                source,
                handed,
                targets,
                j + 1,
            ),
        }
    }
}

/// The packages of `order` from place `i` on hand their defaults down, one
/// after the other, each to its successors.
pub open spec fn propagate_from(
    rows: Seq<Row>,
    track: Track,
    names: Seq<Seq<char>>,
    edges: Seq<(usize, usize)>,
    order: Seq<usize>,
    i: int,
) -> Result<Seq<Row>, ConflictView>
    decreases order.len() - i,
{
    if i < 0 || i >= order.len() {
        Ok(rows)
    } else {
        let source = order[i];
        match apply_to_targets(
            rows,
            track,
            names,
            source,
            rows[source as int],
            successors_of(edges, source),
            0,
        ) {
            Err(c) => Err(c),
            Ok((next, noted)) => propagate_from(next, noted, names, edges, order, i + 1),
        }
    }
}

/// The defaults of all packages after each has handed its own down to its
/// successors, the packages taken in the order `order`; or the conflict
/// that stopped it.
pub open spec fn propagated(
    rows: Seq<Row>,
    names: Seq<Seq<char>>,
    edges: Seq<(usize, usize)>,
    order: Seq<usize>,
) -> Result<Seq<Row>, ConflictView> {
    propagate_from(rows, Seq::empty(), names, edges, order, 0)
}

/// What [`find_from`] finds is the first place with the option.
pub proof fn lemma_find_from(row: Row, key: Seq<char>, i: int)
    requires
        0 <= i,
    ensures
        match find_from(row, key, i) {
            Some(at) => i <= at < row.len() && row[at].0 == key && forall|j: int|
                i <= j < at ==> (#[trigger] row[j]).0 != key,
            None => forall|j: int| i <= j < row.len() ==> (#[trigger] row[j]).0 != key,
        },
    decreases row.len() - i,
{
    if i < row.len() && row[i].0 != key {
        lemma_find_from(row, key, i + 1);
    }
}

/// Whether every default of `row` has a value.
pub open spec fn none_free_row(row: Row) -> bool {
    forall|k: int| 0 <= k < row.len() ==> (#[trigger] row[k]).1 is Some
}

/// Whether every default of every package has a value: none says "take
/// away what comes from above".
pub open spec fn none_free(rows: Seq<Row>) -> bool {
    forall|x: int| 0 <= x < rows.len() ==> none_free_row(#[trigger] rows[x])
}

/// Whether `row` has each option that `handed` has.
pub open spec fn holds_keys(row: Row, handed: Row) -> bool {
    forall|k: int| 0 <= k < handed.len() ==> has_key(row, (#[trigger] handed[k]).0)
}

/// Whether each package has a default for each option for which a package
/// that depends on it has one.
pub open spec fn settled(rows: Seq<Row>, edges: Seq<(usize, usize)>) -> bool {
    forall|e: int|
        0 <= e < edges.len() ==> holds_keys(
            rows[(#[trigger] edges[e]).1 as int],
            rows[edges[e].0 as int],
        )
}

/// Whether `longer` starts with `row`.
pub open spec fn extends(row: Row, longer: Row) -> bool {
    &&& row.len() <= longer.len()
    &&& forall|k: int| 0 <= k < row.len() ==> #[trigger] longer[k] == row[k]
}

/// Whether `x` is one of `targets` from place `j` on.
pub open spec fn is_target(targets: Seq<usize>, j: int, x: int) -> bool {
    exists|t: int| j <= t < targets.len() && #[trigger] targets[t] == x
}

/// Whether the packages of `order` before place `i` have handed down all
/// they have: each of their successors has each of their options.
pub open spec fn handed_down(
    rows: Seq<Row>,
    edges: Seq<(usize, usize)>,
    order: Seq<usize>,
    i: int,
) -> bool {
    forall|e: int, p: int|
        0 <= e < edges.len() && 0 <= p < i && p < order.len() && (#[trigger] edges[e]).0
            == #[trigger] order[p] ==> holds_keys(rows[edges[e].1 as int], rows[edges[e].0 as int])
}

/// Whether handing `handed` down to `row` changes nothing: each option
/// that `handed` has with a value, `row` has with a value; each that it
/// has as "take away", `row` has not.
pub open spec fn at_rest(row: Row, handed: Row) -> bool {
    forall|k: int|
        0 <= k < handed.len() ==> match (#[trigger] handed[k]).1 {
            Some(_) => find_key(row, handed[k].0) matches Some(i) && row[i].1 is Some,
            None => !has_key(row, handed[k].0),
        }
}

/// Whether there is nothing left to hand down: along each edge the
/// defaults are at rest.
pub open spec fn steady(rows: Seq<Row>, edges: Seq<(usize, usize)>) -> bool {
    forall|e: int|
        0 <= e < edges.len() ==> at_rest(
            rows[(#[trigger] edges[e]).1 as int],
            rows[edges[e].0 as int],
        )
}

/// Defaults that are settled and all have values are steady.
pub proof fn lemma_settled_is_steady(rows: Seq<Row>, edges: Seq<(usize, usize)>)
    requires
        none_free(rows),
        settled(rows, edges),
        edges_within(edges, rows.len()),
    ensures
        steady(rows, edges),
{
    assert forall|e: int| 0 <= e < edges.len() implies at_rest(
        rows[(#[trigger] edges[e]).1 as int],
        rows[edges[e].0 as int],
    ) by {
        let row = rows[edges[e].1 as int];
        let handed = rows[edges[e].0 as int];
        assert(edges[e].0 < rows.len() && edges[e].1 < rows.len());
        assert(none_free_row(row) && none_free_row(handed));
        assert(holds_keys(row, handed));
        assert forall|k: int| 0 <= k < handed.len() implies match (#[trigger] handed[k]).1 {
            Some(_) => find_key(row, handed[k].0) matches Some(i) && row[i].1 is Some,
            None => !has_key(row, handed[k].0),
        } by {
            assert(has_key(row, handed[k].0));
            lemma_find_from(row, handed[k].0, 0);
        }
    }
}

proof fn lemma_entries_keep(row: Row, target: Seq<char>, source: Seq<char>, handed: Row, k: int)
    requires
        0 <= k,
        at_rest(row, handed),
    ensures
        apply_entries(row, Seq::empty(), target, source, handed, k) == Ok::<
            (Row, Track),
            ConflictView,
        >((row, Seq::empty())),
    decreases handed.len() - k,
{
    if k < handed.len() {
        let track: Track = Seq::empty();
        assert(setter_of(track, target, handed[k].0) is None);
        assert(apply_entry(row, track, target, source, handed[k].0, handed[k].1) == Ok::<
            (Row, Track),
            ConflictView,
        >((row, track)));
        lemma_entries_keep(row, target, source, handed, k + 1);
    }
}

proof fn lemma_targets_keep(
    rows: Seq<Row>,
    names: Seq<Seq<char>>,
    source: usize,
    handed: Row,
    targets: Seq<usize>,
    j: int,
)
    requires
        0 <= j,
        forall|t: int|
            j <= t < targets.len() ==> (#[trigger] targets[t]) < rows.len() && at_rest(
                rows[targets[t] as int],
                handed,
            ),
    ensures
        apply_to_targets(rows, Seq::empty(), names, source, handed, targets, j) == Ok::<
            (Seq<Row>, Track),
            ConflictView,
        >((rows, Seq::empty())),
    decreases targets.len() - j,
{
    if j < targets.len() {
        let d = targets[j] as int;
        assert(targets[j] < rows.len() && at_rest(rows[d], handed));
        lemma_entries_keep(rows[d], names[d], names[source as int], handed, 0);
        assert(rows.update(d, rows[d]) =~= rows);
        lemma_targets_keep(rows, names, source, handed, targets, j + 1);
    }
}

/// On steady defaults handing down changes nothing, in whatever order the
/// packages are taken.
pub proof fn lemma_steady_stays(
    rows: Seq<Row>,
    names: Seq<Seq<char>>,
    edges: Seq<(usize, usize)>,
    order: Seq<usize>,
    i: int,
)
    requires
        0 <= i,
        steady(rows, edges),
        edges_within(edges, rows.len()),
        forall|x: int| 0 <= x < order.len() ==> (#[trigger] order[x]) < rows.len(),
    ensures
        propagate_from(rows, Seq::empty(), names, edges, order, i) == Ok::<Seq<Row>, ConflictView>(
            rows,
        ),
    decreases order.len() - i,
{
    if i < order.len() {
        let source = order[i];
        let targets = successors_of(edges, source);
        let handed = rows[source as int];
        lemma_successors_are_edges(edges, source);
        lemma_successors_within(edges, source, rows.len());
        assert forall|t: int| 0 <= t < targets.len() implies (#[trigger] targets[t]) < rows.len()
            && at_rest(rows[targets[t] as int], handed) by {
            let e = choose|e: int| 0 <= e < edges.len() && #[trigger] edges[e] == (source, targets[t]);
            assert(at_rest(rows[edges[e].1 as int], rows[edges[e].0 as int]));
        }
        lemma_targets_keep(rows, names, source, handed, targets, 0);
        lemma_steady_stays(rows, names, edges, order, i + 1);
    }
}

/// On defaults that are settled and all have values, handing down changes
/// nothing, in whatever order the packages are taken.
pub proof fn lemma_settled_stays(
    rows: Seq<Row>,
    names: Seq<Seq<char>>,
    edges: Seq<(usize, usize)>,
    order: Seq<usize>,
    i: int,
)
    requires
        0 <= i,
        none_free(rows),
        settled(rows, edges),
        edges_within(edges, rows.len()),
        forall|x: int| 0 <= x < order.len() ==> (#[trigger] order[x]) < rows.len(),
    ensures
        propagate_from(rows, Seq::empty(), names, edges, order, i) == Ok::<Seq<Row>, ConflictView>(
            rows,
        ),
{
    lemma_settled_is_steady(rows, edges);
    lemma_steady_stays(rows, names, edges, order, i);
}

proof fn lemma_key_stays(row: Row, longer: Row, key: Seq<char>)
    requires
        extends(row, longer),
        has_key(row, key),
    ensures
        has_key(longer, key),
{
    lemma_find_from(row, key, 0);
    lemma_find_from(longer, key, 0);
    let i = find_key(row, key)->0;
    assert(longer[i] == row[i]);
}

proof fn lemma_keys_stay(row: Row, longer: Row, handed: Row)
    requires
        extends(row, longer),
        holds_keys(row, handed),
    ensures
        holds_keys(longer, handed),
{
    assert forall|k: int| 0 <= k < handed.len() implies has_key(longer, (#[trigger] handed[k]).0) by {
        lemma_key_stays(row, longer, handed[k].0);
    }
}

proof fn lemma_entry_extends(
    row: Row,
    track: Track,
    target: Seq<char>,
    source: Seq<char>,
    option: Seq<char>,
    v: ValueView,
)
    requires
        none_free_row(row),
    ensures
        apply_entry(row, track, target, source, option, Some(v)) matches Ok((next, _)) ==> extends(
            row,
            next,
        ) && none_free_row(next) && has_key(next, option),
{
    lemma_find_from(row, option, 0);
    match find_key(row, option) {
        None => {
            let next = row.push((option, Some(v)));
            lemma_find_from(next, option, 0);
            assert(next[row.len() as int].0 == option);
            assert forall|k: int| 0 <= k < next.len() implies (#[trigger] next[k]).1 is Some by {
                if k < row.len() {
                    assert(next[k] == row[k]);
                }
            }
        },
        Some(i) => {
            assert(row[i].1 is Some);
        },
    }
}

proof fn lemma_entries_extend(
    row: Row,
    track: Track,
    target: Seq<char>,
    source: Seq<char>,
    handed: Row,
    k: int,
)
    requires
        0 <= k,
        none_free_row(row),
        none_free_row(handed),
    ensures
        apply_entries(row, track, target, source, handed, k) matches Ok((next, _)) ==> extends(
            row,
            next,
        ) && none_free_row(next) && forall|x: int|
            k <= x < handed.len() ==> has_key(next, (#[trigger] handed[x]).0),
    decreases handed.len() - k,
{
    if k < handed.len() {
        assert(handed[k].1 is Some);
        let v = handed[k].1->0;
        lemma_entry_extends(row, track, target, source, handed[k].0, v);
        match apply_entry(row, track, target, source, handed[k].0, handed[k].1) {
            Err(_) => {},
            Ok((mid, noted)) => {
                lemma_entries_extend(mid, noted, target, source, handed, k + 1);
                match apply_entries(mid, noted, target, source, handed, k + 1) {
                    Err(_) => {},
                    Ok((next, _)) => {
                        lemma_key_stays(mid, next, handed[k].0);
                        assert forall|x: int| 0 <= x < row.len() implies #[trigger] next[x]
                            == row[x] by {
                            assert(mid[x] == row[x]);
                        }
                    },
                }
            },
        }
    }
}

proof fn lemma_targets_extend(
    rows: Seq<Row>,
    track: Track,
    names: Seq<Seq<char>>,
    source: usize,
    handed: Row,
    targets: Seq<usize>,
    j: int,
)
    requires
        0 <= j,
        none_free(rows),
        none_free_row(handed),
        forall|t: int| 0 <= t < targets.len() ==> (#[trigger] targets[t]) < rows.len(),
    ensures
        apply_to_targets(rows, track, names, source, handed, targets, j) matches Ok((next, _)) ==> {
            &&& next.len() == rows.len()
            &&& none_free(next)
            &&& forall|x: int| 0 <= x < rows.len() ==> extends(rows[x], #[trigger] next[x])
            &&& forall|x: int|
                0 <= x < rows.len() && !is_target(targets, j, x) ==> #[trigger] next[x] == rows[x]
            &&& forall|t: int|
                j <= t < targets.len() ==> holds_keys(next[#[trigger] targets[t] as int], handed)
        },
    decreases targets.len() - j,
{
    if j < targets.len() {
        let d = targets[j] as int;
        assert(targets[j] < rows.len());
        assert(none_free_row(rows[d]));
        lemma_entries_extend(rows[d], track, names[d], names[source as int], handed, 0);
        match apply_entries(rows[d], track, names[d], names[source as int], handed, 0) {
            Err(_) => {},
            Ok((row, noted)) => {
                let mid = rows.update(d, row);
                assert(none_free(mid)) by {
                    assert forall|x: int| 0 <= x < mid.len() implies none_free_row(
                        #[trigger] mid[x],
                    ) by {
                        if x != d {
                            assert(mid[x] == rows[x]);
                        }
                    }
                }
                lemma_targets_extend(mid, noted, names, source, handed, targets, j + 1);
                match apply_to_targets(mid, noted, names, source, handed, targets, j + 1) {
                    Err(_) => {},
                    Ok((next, _)) => {
                        assert forall|x: int| 0 <= x < rows.len() implies extends(
                            rows[x],
                            #[trigger] next[x],
                        ) by {
                            assert(extends(mid[x], next[x]));
                            if x == d {
                                assert(extends(rows[d], mid[d]));
                            } else {
                                assert(mid[x] == rows[x]);
                            }
                            assert forall|k: int| 0 <= k < rows[x].len() implies #[trigger] next[x][k]
                                == rows[x][k] by {
                                assert(mid[x][k] == rows[x][k]);
                            }
                        }
                        assert forall|x: int|
                            0 <= x < rows.len() && !is_target(targets, j, x) implies #[trigger] next[x]
                                == rows[x] by {
                            if is_target(targets, j + 1, x) {
                                let t = choose|t: int|
                                    j + 1 <= t < targets.len() && #[trigger] targets[t] == x;
                                assert(j <= t < targets.len() && targets[t] == x);
                            }
                            if x == d {
                                assert(targets[j] == x);
                            }
                            assert(mid[x] == rows[x]);
                        }
                        assert forall|t: int| j <= t < targets.len() implies holds_keys(
                            next[#[trigger] targets[t] as int],
                            handed,
                        ) by {
                            if t == j {
                                assert(holds_keys(mid[d], handed));
                                assert(extends(mid[d], next[d]));
                                lemma_keys_stay(mid[d], next[d], handed);
                            }
                        }
                    },
                }
            },
        }
    } else {
        assert forall|t: int| j <= t < targets.len() implies holds_keys(
            rows[#[trigger] targets[t] as int],
            handed,
        ) by {}
    }
}

proof fn lemma_propagation_settles(
    rows: Seq<Row>,
    track: Track,
    names: Seq<Seq<char>>,
    edges: Seq<(usize, usize)>,
    order: Seq<usize>,
    i: int,
)
    requires
        0 <= i <= order.len(),
        none_free(rows),
        edges_within(edges, rows.len()),
        is_topological(order, rows.len(), edges),
        handed_down(rows, edges, order, i),
    ensures
        propagate_from(rows, track, names, edges, order, i) matches Ok(fin) ==> fin.len()
            == rows.len() && none_free(fin) && handed_down(fin, edges, order, order.len() as int),
    decreases order.len() - i,
{
    if i < order.len() {
        let source = order[i];
        let handed = rows[source as int];
        let targets = successors_of(edges, source);
        assert(order[i] < rows.len());
        assert(none_free_row(handed));
        lemma_successors_within(edges, source, rows.len());
        lemma_successors_are_edges(edges, source);
        lemma_targets_extend(rows, track, names, source, handed, targets, 0);
        match apply_to_targets(rows, track, names, source, handed, targets, 0) {
            Err(_) => {},
            Ok((next, noted)) => {
                assert forall|e: int, p: int|
                    0 <= e < edges.len() && 0 <= p < i + 1 && p < order.len() && (
                    #[trigger] edges[e]).0 == #[trigger] order[p] implies holds_keys(
                    next[edges[e].1 as int],
                    next[edges[e].0 as int],
                ) by {
                    let from = edges[e].0;
                    let to = edges[e].1;
                    assert(from < rows.len() && to < rows.len());
                    // The package that hands down is no target of `source`.
                    if is_target(targets, 0, from as int) {
                        let t = choose|t: int|
                            0 <= t < targets.len() && #[trigger] targets[t] == from as int;
                        let back = choose|back: int|
                            0 <= back < edges.len() && #[trigger] edges[back] == (source, targets[t]);
                        assert(order[i] == edges[back].0 && order[p] == edges[back].1);
                        assert(i < p);
                        assert(false);
                    }
                    assert(next[from as int] == rows[from as int]);
                    if p == i {
                        let t = choose|t: int|
                            0 <= t < targets.len() && #[trigger] targets[t] == edges[e].1;
                        assert(holds_keys(next[targets[t] as int], handed));
                    } else {
                        assert(holds_keys(rows[to as int], rows[from as int]));
                        assert(extends(rows[to as int], next[to as int]));
                        lemma_keys_stay(rows[to as int], next[to as int], rows[from as int]);
                    }
                }
                lemma_propagation_settles(next, noted, names, edges, order, i + 1);
            },
        }
    }
}

/// Where every default has a value, so it is after the defaults were
/// handed down, and each package then has every option that a package
/// depending on it has.
pub proof fn lemma_propagation_leaves_values(
    rows: Seq<Row>,
    names: Seq<Seq<char>>,
    edges: Seq<(usize, usize)>,
    order: Seq<usize>,
)
    requires
        none_free(rows),
        rows.len() <= graph_limit(),
        edges_within(edges, rows.len()),
        is_topological(order, rows.len(), edges),
    ensures
        propagated(rows, names, edges, order) matches Ok(fin) ==> fin.len() == rows.len()
            && none_free(fin) && settled(fin, edges),
{
    lemma_propagation_settles(rows, Seq::empty(), names, edges, order, 0);
    match propagated(rows, names, edges, order) {
        Err(_) => {},
        Ok(fin) => {
            lemma_order_holds_all(order, rows.len());
            assert forall|e: int| 0 <= e < edges.len() implies holds_keys(
                fin[(#[trigger] edges[e]).1 as int],
                fin[edges[e].0 as int],
            ) by {
                assert(edges[e].0 < rows.len());
                assert(stands_in(order, edges[e].0));
                let p = choose|p: int| 0 <= p < order.len() && #[trigger] order[p] == edges[e].0;
                assert(edges[e].0 == order[p]);
            }
        },
    }
}

/// Handing the defaults down a second time changes nothing: where every
/// default has a value and the first pass went through, a second pass over
/// its result gives that result again, in whatever order the packages are
/// taken in either pass.
pub proof fn lemma_propagation_idempotent(
    rows: Seq<Row>,
    names: Seq<Seq<char>>,
    edges: Seq<(usize, usize)>,
    order: Seq<usize>,
    again: Seq<usize>,
)
    requires
        none_free(rows),
        rows.len() <= graph_limit(),
        edges_within(edges, rows.len()),
        is_topological(order, rows.len(), edges),
        is_topological(again, rows.len(), edges),
        propagated(rows, names, edges, order) is Ok,
    ensures
        propagated(propagated(rows, names, edges, order)->Ok_0, names, edges, again) == propagated(
            rows,
            names,
            edges,
            order,
        ),
{
    lemma_propagation_leaves_values(rows, names, edges, order);
    let fin = propagated(rows, names, edges, order)->Ok_0;
    lemma_settled_stays(fin, names, edges, again, 0);
}

/// Handing the defaults down a second time changes nothing wherever the
/// first pass left nothing to hand down: where its result is steady, a
/// second pass over it gives it again, in whatever order the packages are
/// taken. Nothing is asked of the defaults before the first pass; they
/// may hold "take away".
pub proof fn lemma_second_pass_stays(
    rows: Seq<Row>,
    names: Seq<Seq<char>>,
    edges: Seq<(usize, usize)>,
    order: Seq<usize>,
    again: Seq<usize>,
)
    requires
        edges_within(edges, rows.len()),
        is_topological(again, rows.len(), edges),
        propagated(rows, names, edges, order) matches Ok(fin) && fin.len() == rows.len() && steady(
            fin,
            edges,
        ),
    ensures
        propagated(propagated(rows, names, edges, order)->Ok_0, names, edges, again) == propagated(
            rows,
            names,
            edges,
            order,
        ),
{
    let fin = propagated(rows, names, edges, order)->Ok_0;
    lemma_steady_stays(fin, names, edges, again, 0);
}

/// What is handed down as "take away" leaves the package without the
/// option where it had it once, and changes nothing else: no value comes
/// in, and every other default stays as it was, in its place among the
/// others.
pub proof fn lemma_blank_takes_away(
    row: Row,
    track: Track,
    target: Seq<char>,
    source: Seq<char>,
    option: Seq<char>,
)
    requires
        forall|a: int, b: int|
            0 <= a < b < row.len() ==> (#[trigger] row[a]).0 != (#[trigger] row[b]).0,
    ensures
        apply_entry(row, track, target, source, option, None) matches Ok((after, noted)) && noted
            == track && !has_key(after, option) && after == row.filter(
            |e: (Seq<char>, Option<ValueView>)| e.0 != option,
        ),
{
    let keep = |e: (Seq<char>, Option<ValueView>)| e.0 != option;
    lemma_find_from(row, option, 0);
    match find_key(row, option) {
        None => {
            lemma_filter_keeps_all(row, option);
        },
        Some(i) => {
            let after = row.remove(i);
            assert forall|j: int| 0 <= j < after.len() implies (#[trigger] after[j]).0 != option by {
                if j < i {
                    assert(after[j] == row[j]);
                } else {
                    assert(after[j] == row[j + 1]);
                }
            }
            lemma_find_from(after, option, 0);
            lemma_filter_keeps_all(after, option);
            lemma_filter_drops(row, option, i);
        },
    }
}

/// A row without the option is what is left of it when the option is
/// taken out.
proof fn lemma_filter_keeps_all(row: Row, option: Seq<char>)
    requires
        forall|j: int| 0 <= j < row.len() ==> (#[trigger] row[j]).0 != option,
    ensures
        row.filter(|e: (Seq<char>, Option<ValueView>)| e.0 != option) == row,
    decreases row.len(),
{
    let keep = |e: (Seq<char>, Option<ValueView>)| e.0 != option;
    reveal(Seq::filter);
    if row.len() > 0 {
        let init = row.drop_last();
        assert forall|j: int| 0 <= j < init.len() implies (#[trigger] init[j]).0 != option by {
            assert(init[j] == row[j]);
        }
        lemma_filter_keeps_all(init, option);
        assert(keep(row.last()));
        assert(row.filter(keep) =~= init.filter(keep).push(row.last()));
        assert(init.push(row.last()) =~= row);
    } else {
        assert(row.filter(keep) =~= row);
    }
}

/// Where a row has the option at place `i` and nowhere else, the row
/// without that place is what is left when the option is taken out.
proof fn lemma_filter_drops(row: Row, option: Seq<char>, i: int)
    requires
        0 <= i < row.len(),
        row[i].0 == option,
        forall|j: int| 0 <= j < row.len() && j != i ==> (#[trigger] row[j]).0 != option,
    ensures
        row.filter(|e: (Seq<char>, Option<ValueView>)| e.0 != option) == row.remove(i),
    decreases row.len(),
{
    let keep = |e: (Seq<char>, Option<ValueView>)| e.0 != option;
    reveal(Seq::filter);
    let init = row.drop_last();
    if i == row.len() - 1 {
        assert forall|j: int| 0 <= j < init.len() implies (#[trigger] init[j]).0 != option by {
            assert(init[j] == row[j]);
        }
        lemma_filter_keeps_all(init, option);
        assert(!keep(row.last()));
        assert(row.filter(keep) =~= init.filter(keep));
        assert(row.remove(i) =~= init);
    } else {
        assert(init[i] == row[i]);
        assert forall|j: int| 0 <= j < init.len() && j != i implies (#[trigger] init[j]).0
            != option by {
            assert(init[j] == row[j]);
        }
        lemma_filter_drops(init, option, i);
        assert(keep(row.last()));
        assert(row.filter(keep) =~= init.filter(keep).push(row.last()));
        assert(row.remove(i) =~= init.remove(i).push(row.last()));
    }
}

/// Whether `entry` is one of `row`.
pub open spec fn is_entry_of(row: Row, entry: (Seq<char>, Option<ValueView>)) -> bool {
    exists|k: int| 0 <= k < row.len() && #[trigger] row[k] == entry
}

/// Whether each default of `row` without value was in `start`: handing
/// down has put none there.
pub open spec fn no_new_blank(start: Row, row: Row) -> bool {
    forall|k: int|
        0 <= k < row.len() && (#[trigger] row[k]).1 is None ==> is_entry_of(start, row[k])
}

proof fn lemma_entry_adds_no_blank(
    start: Row,
    row: Row,
    track: Track,
    target: Seq<char>,
    source: Seq<char>,
    option: Seq<char>,
    value: Option<ValueView>,
)
    requires
        no_new_blank(start, row),
    ensures
        apply_entry(row, track, target, source, option, value) matches Ok((next, _))
            ==> no_new_blank(start, next),
{
    lemma_find_from(row, option, 0);
    match apply_entry(row, track, target, source, option, value) {
        Err(_) => {},
        Ok((next, _)) => {
            assert forall|k: int| 0 <= k < next.len() && (#[trigger] next[k]).1 is None implies is_entry_of(
                start,
                next[k],
            ) by {
                match find_key(row, option) {
                    None => {
                        if k < row.len() {
                            assert(next[k] == row[k]);
                        }
                    },
                    Some(i) => {
                        if next.len() < row.len() {
                            if k < i {
                                assert(next[k] == row[k]);
                            } else {
                                assert(next[k] == row[k + 1]);
                            }
                        } else {
                            assert(next[k] == row[k]);
                        }
                    },
                }
            }
        },
    }
}

proof fn lemma_entries_add_no_blank(
    start: Row,
    row: Row,
    track: Track,
    target: Seq<char>,
    source: Seq<char>,
    handed: Row,
    k: int,
)
    requires
        0 <= k,
        no_new_blank(start, row),
    ensures
        apply_entries(row, track, target, source, handed, k) matches Ok((next, _))
            ==> no_new_blank(start, next),
    decreases handed.len() - k,
{
    if k < handed.len() {
        lemma_entry_adds_no_blank(start, row, track, target, source, handed[k].0, handed[k].1);
        match apply_entry(row, track, target, source, handed[k].0, handed[k].1) {
            Err(_) => {},
            Ok((mid, noted)) => {
                lemma_entries_add_no_blank(start, mid, noted, target, source, handed, k + 1);
            },
        }
    }
}

/// Whether each row of `rows` has no default without value but what the
/// row of `start` at its place had.
pub open spec fn no_new_blanks(start: Seq<Row>, rows: Seq<Row>) -> bool {
    &&& rows.len() == start.len()
    &&& forall|x: int| 0 <= x < rows.len() ==> no_new_blank(start[x], #[trigger] rows[x])
}

proof fn lemma_targets_add_no_blank(
    start: Seq<Row>,
    rows: Seq<Row>,
    track: Track,
    names: Seq<Seq<char>>,
    source: usize,
    handed: Row,
    targets: Seq<usize>,
    j: int,
)
    requires
        0 <= j,
        no_new_blanks(start, rows),
        forall|t: int| 0 <= t < targets.len() ==> (#[trigger] targets[t]) < rows.len(),
    ensures
        apply_to_targets(rows, track, names, source, handed, targets, j) matches Ok((next, _))
            ==> no_new_blanks(start, next),
    decreases targets.len() - j,
{
    if j < targets.len() {
        let d = targets[j] as int;
        assert(targets[j] < rows.len());
        assert(no_new_blank(start[d], rows[d]));
        lemma_entries_add_no_blank(start[d], rows[d], track, names[d], names[source as int], handed, 0);
        match apply_entries(rows[d], track, names[d], names[source as int], handed, 0) {
            Err(_) => {},
            Ok((row, noted)) => {
                let mid = rows.update(d, row);
                assert(no_new_blanks(start, mid)) by {
                    assert forall|x: int| 0 <= x < mid.len() implies no_new_blank(
                        start[x],
                        #[trigger] mid[x],
                    ) by {
                        if x != d {
                            assert(mid[x] == rows[x]);
                        }
                    }
                }
                lemma_targets_add_no_blank(start, mid, noted, names, source, handed, targets, j + 1);
            },
        }
    }
}

proof fn lemma_propagation_adds_no_blank(
    start: Seq<Row>,
    rows: Seq<Row>,
    track: Track,
    names: Seq<Seq<char>>,
    edges: Seq<(usize, usize)>,
    order: Seq<usize>,
    i: int,
)
    requires
        0 <= i,
        no_new_blanks(start, rows),
        edges_within(edges, rows.len()),
    ensures
        propagate_from(rows, track, names, edges, order, i) matches Ok(fin) ==> no_new_blanks(
            start,
            fin,
        ),
    decreases order.len() - i,
{
    if i < order.len() {
        let source = order[i];
        let targets = successors_of(edges, source);
        lemma_successors_within(edges, source, rows.len());
        lemma_targets_add_no_blank(
            start,
            rows,
            track,
            names,
            source,
            rows[source as int],
            targets,
            0,
        );
        match apply_to_targets(rows, track, names, source, rows[source as int], targets, 0) {
            Err(_) => {},
            Ok((next, noted)) => {
                lemma_propagation_adds_no_blank(start, next, noted, names, edges, order, i + 1);
            },
        }
    }
}

/// Whether no option stands twice in `row`.
pub open spec fn distinct_row(row: Row) -> bool {
    forall|a: int, b: int| 0 <= a < b < row.len() ==> (#[trigger] row[a]).0 != (#[trigger] row[b]).0
}

/// Whether no option stands twice among the defaults of a package.
pub open spec fn distinct_rows(rows: Seq<Row>) -> bool {
    forall|x: int| 0 <= x < rows.len() ==> distinct_row(#[trigger] rows[x])
}

/// Whether `row` has no "take away" for the option `key`.
pub open spec fn no_blank_at(row: Row, key: Seq<char>) -> bool {
    forall|k: int| 0 <= k < row.len() && (#[trigger] row[k]).0 == key ==> row[k].1 is Some
}

/// Whether `row` has no "take away" for any option that `handed` has.
pub open spec fn unmet(row: Row, handed: Row) -> bool {
    forall|m: int| 0 <= m < handed.len() ==> no_blank_at(row, (#[trigger] handed[m]).0)
}

/// Whether `after` has a "take away" only for options for which `row`
/// has one.
pub open spec fn blanks_within(row: Row, after: Row) -> bool {
    forall|key: Seq<char>| #[trigger] no_blank_at(row, key) ==> no_blank_at(after, key)
}

/// Whether the packages of `order` before place `i` have met every "take
/// away" of their successors: no successor has one for an option that
/// they have.
pub open spec fn met_so_far(rows: Seq<Row>, edges: Seq<(usize, usize)>, order: Seq<usize>, i: int) -> bool {
    forall|e: int, p: int|
        0 <= e < edges.len() && 0 <= p < i && p < order.len() && (#[trigger] edges[e]).0
            == #[trigger] order[p] ==> unmet(rows[edges[e].1 as int], rows[edges[e].0 as int])
}

/// Handing one default down leaves no option twice among the defaults
/// of the package, leaves none for the option that was handed down
/// without value, and none without value that had a value.
pub proof fn lemma_entry_meets(
    row: Row,
    track: Track,
    target: Seq<char>,
    source: Seq<char>,
    option: Seq<char>,
    value: Option<ValueView>,
)
    requires
        distinct_row(row),
    ensures
        apply_entry(row, track, target, source, option, value) matches Ok((after, _))
            ==> distinct_row(after) && no_blank_at(after, option) && blanks_within(row, after),
{
    lemma_find_from(row, option, 0);
    match apply_entry(row, track, target, source, option, value) {
        Err(_) => {},
        Ok((after, _)) => {
            match find_key(row, option) {
                None => {
                    if value is Some {
                        assert(after == row.push((option, value)));
                        assert forall|k: int| 0 <= k < after.len() && (#[trigger] after[k]).0
                            == option implies after[k].1 is Some by {
                            if k < row.len() {
                                assert(after[k] == row[k]);
                            }
                        }
                        assert forall|key: Seq<char>| #[trigger]
                            no_blank_at(row, key) implies no_blank_at(after, key) by {
                            assert forall|k: int| 0 <= k < after.len() && (#[trigger] after[k]).0
                                == key implies after[k].1 is Some by {
                                if k < row.len() {
                                    assert(after[k] == row[k]);
                                }
                            }
                        }
                        assert forall|a: int, b: int| 0 <= a < b < after.len() implies (
                        #[trigger] after[a]).0 != (#[trigger] after[b]).0 by {
                            assert(after[a] == row[a]);
                            if b < row.len() {
                                assert(after[b] == row[b]);
                            }
                        }
                    }
                },
                Some(i) => {
                    if after != row {
                        assert(after == row.remove(i));
                        assert forall|k: int| 0 <= k < after.len() implies (#[trigger] after[k]).0
                            != option by {
                            if k < i {
                                assert(row[k] == after[k]);
                            } else {
                                assert(row[k + 1] == after[k]);
                            }
                        }
                        assert forall|key: Seq<char>| #[trigger]
                            no_blank_at(row, key) implies no_blank_at(after, key) by {
                            assert forall|k: int| 0 <= k < after.len() && (#[trigger] after[k]).0
                                == key implies after[k].1 is Some by {
                                if k < i {
                                    assert(row[k] == after[k]);
                                } else {
                                    assert(row[k + 1] == after[k]);
                                }
                            }
                        }
                        assert forall|a: int, b: int| 0 <= a < b < after.len() implies (
                        #[trigger] after[a]).0 != (#[trigger] after[b]).0 by {
                            let x = if a < i { a } else { a + 1 };
                            let y = if b < i { b } else { b + 1 };
                            assert(after[a] == row[x] && after[b] == row[y]);
                        }
                    } else {
                        assert(row[i].1 is Some);
                        assert forall|k: int| 0 <= k < row.len() && (#[trigger] row[k]).0
                            == option implies row[k].1 is Some by {
                            if k != i {
                                if k < i {
                                    assert(row[k].0 != row[i].0);
                                } else {
                                    assert(row[i].0 != row[k].0);
                                }
                            }
                        }
                    }
                },
            }
        },
    }
}

proof fn lemma_entries_meet(
    row: Row,
    track: Track,
    target: Seq<char>,
    source: Seq<char>,
    handed: Row,
    k: int,
)
    requires
        0 <= k,
        distinct_row(row),
        forall|m: int| 0 <= m < k && m < handed.len() ==> no_blank_at(row, (#[trigger] handed[m]).0),
    ensures
        apply_entries(row, track, target, source, handed, k) matches Ok((after, _))
            ==> distinct_row(after) && blanks_within(row, after) && unmet(after, handed),
    decreases handed.len() - k,
{
    if k < handed.len() {
        lemma_entry_meets(row, track, target, source, handed[k].0, handed[k].1);
        match apply_entry(row, track, target, source, handed[k].0, handed[k].1) {
            Err(_) => {},
            Ok((next, noted)) => {
                assert forall|m: int| 0 <= m < k + 1 && m < handed.len() implies no_blank_at(
                    next,
                    (#[trigger] handed[m]).0,
                ) by {
                    if m < k {
                        assert(no_blank_at(row, handed[m].0));
                    }
                }
                lemma_entries_meet(next, noted, target, source, handed, k + 1);
                match apply_entries(next, noted, target, source, handed, k + 1) {
                    Err(_) => {},
                    Ok((after, _)) => {
                        assert forall|key: Seq<char>| #[trigger]
                            no_blank_at(row, key) implies no_blank_at(after, key) by {
                            assert(no_blank_at(next, key));
                        }
                    },
                }
            },
        }
    }
}

proof fn lemma_targets_meet(
    rows: Seq<Row>,
    track: Track,
    names: Seq<Seq<char>>,
    source: usize,
    handed: Row,
    targets: Seq<usize>,
    j: int,
)
    requires
        0 <= j,
        distinct_rows(rows),
        forall|t: int| 0 <= t < targets.len() ==> (#[trigger] targets[t]) < rows.len(),
    ensures
        apply_to_targets(rows, track, names, source, handed, targets, j) matches Ok((next, _)) ==> {
            &&& next.len() == rows.len()
            &&& distinct_rows(next)
            &&& forall|x: int| 0 <= x < rows.len() ==> blanks_within(rows[x], #[trigger] next[x])
            &&& forall|x: int|
                0 <= x < rows.len() && !is_target(targets, j, x) ==> #[trigger] next[x] == rows[x]
            &&& forall|t: int|
                j <= t < targets.len() ==> unmet(next[#[trigger] targets[t] as int], handed)
        },
    decreases targets.len() - j,
{
    if j < targets.len() {
        let d = targets[j] as int;
        assert(targets[j] < rows.len());
        assert(distinct_row(rows[d]));
        lemma_entries_meet(rows[d], track, names[d], names[source as int], handed, 0);
        match apply_entries(rows[d], track, names[d], names[source as int], handed, 0) {
            Err(_) => {},
            Ok((row, noted)) => {
                let mid = rows.update(d, row);
                assert(distinct_rows(mid)) by {
                    assert forall|x: int| 0 <= x < mid.len() implies distinct_row(
                        #[trigger] mid[x],
                    ) by {
                        if x != d {
                            assert(mid[x] == rows[x]);
                        }
                    }
                }
                lemma_targets_meet(mid, noted, names, source, handed, targets, j + 1);
                match apply_to_targets(mid, noted, names, source, handed, targets, j + 1) {
                    Err(_) => {},
                    Ok((next, _)) => {
                        assert forall|x: int| 0 <= x < rows.len() implies blanks_within(
                            rows[x],
                            #[trigger] next[x],
                        ) by {
                            assert(blanks_within(mid[x], next[x]));
                            assert forall|key: Seq<char>| #[trigger]
                                no_blank_at(rows[x], key) implies no_blank_at(next[x], key) by {
                                if x == d {
                                    assert(no_blank_at(row, key));
                                }
                                assert(no_blank_at(mid[x], key));
                            }
                        }
                        assert forall|x: int|
                            0 <= x < rows.len() && !is_target(targets, j, x) implies #[trigger] next[x]
                            == rows[x] by {
                            assert(x != d) by {
                                if x == d {
                                    assert(targets[j] == x);
                                    assert(is_target(targets, j, x));
                                }
                            }
                            assert(!is_target(targets, j + 1, x)) by {
                                if is_target(targets, j + 1, x) {
                                    let t = choose|t: int|
                                        j + 1 <= t < targets.len() && #[trigger] targets[t] == x;
                                    assert(is_target(targets, j, x));
                                }
                            }
                            assert(mid[x] == rows[x]);
                        }
                        assert forall|t: int| j <= t < targets.len() implies unmet(
                            next[#[trigger] targets[t] as int],
                            handed,
                        ) by {
                            if t == j {
                                assert(unmet(mid[d], handed));
                                assert(blanks_within(mid[d], next[d]));
                                assert forall|m: int| 0 <= m < handed.len() implies no_blank_at(
                                    next[d],
                                    (#[trigger] handed[m]).0,
                                ) by {
                                    assert(no_blank_at(mid[d], handed[m].0));
                                }
                            }
                        }
                    },
                }
            },
        }
    } else {
        assert forall|x: int| 0 <= x < rows.len() implies blanks_within(rows[x], #[trigger] rows[x]) by {}
    }
}

proof fn lemma_propagation_meets(
    rows: Seq<Row>,
    track: Track,
    names: Seq<Seq<char>>,
    edges: Seq<(usize, usize)>,
    order: Seq<usize>,
    i: int,
)
    requires
        0 <= i <= order.len(),
        distinct_rows(rows),
        edges_within(edges, rows.len()),
        is_topological(order, rows.len(), edges),
        met_so_far(rows, edges, order, i),
    ensures
        propagate_from(rows, track, names, edges, order, i) matches Ok(fin) ==> fin.len()
            == rows.len() && distinct_rows(fin) && met_so_far(fin, edges, order, order.len() as int),
    decreases order.len() - i,
{
    if i < order.len() {
        let source = order[i];
        let handed = rows[source as int];
        let targets = successors_of(edges, source);
        assert(order[i] < rows.len());
        lemma_successors_within(edges, source, rows.len());
        lemma_successors_are_edges(edges, source);
        lemma_targets_meet(rows, track, names, source, handed, targets, 0);
        match apply_to_targets(rows, track, names, source, handed, targets, 0) {
            Err(_) => {},
            Ok((next, noted)) => {
                assert forall|e: int, p: int|
                    0 <= e < edges.len() && 0 <= p < i + 1 && p < order.len() && (
                    #[trigger] edges[e]).0 == #[trigger] order[p] implies unmet(
                    next[edges[e].1 as int],
                    next[edges[e].0 as int],
                ) by {
                    let from = edges[e].0;
                    let to = edges[e].1;
                    assert(from < rows.len() && to < rows.len());
                    if is_target(targets, 0, from as int) {
                        let t = choose|t: int|
                            0 <= t < targets.len() && #[trigger] targets[t] == from as int;
                        let back = choose|back: int|
                            0 <= back < edges.len() && #[trigger] edges[back] == (source, targets[t]);
                        assert(order[i] == edges[back].0 && order[p] == edges[back].1);
                        assert(i < p);
                        assert(false);
                    }
                    assert(next[from as int] == rows[from as int]);
                    if p == i {
                        let t = choose|t: int|
                            0 <= t < targets.len() && #[trigger] targets[t] == edges[e].1;
                        assert(unmet(next[targets[t] as int], handed));
                    } else {
                        assert(unmet(rows[to as int], rows[from as int]));
                        assert(blanks_within(rows[to as int], next[to as int]));
                        assert forall|m: int| 0 <= m < rows[from as int].len() implies no_blank_at(
                            next[to as int],
                            (#[trigger] rows[from as int][m]).0,
                        ) by {
                            assert(no_blank_at(rows[to as int], rows[from as int][m].0));
                        }
                    }
                }
                lemma_propagation_meets(next, noted, names, edges, order, i + 1);
            },
        }
    }
}

/// After the defaults were handed down, a "take away" stands only where
/// nothing met it: no package has one for an option that a package has
/// from which it gets defaults. Together with
/// [`lemma_propagation_hygiene`]: the defaults without value that are left
/// are those that a package had from the start and that nothing from
/// above reached; where there are none of these, every default has a
/// value. No option stands twice among the defaults of a package, before
/// and after.
pub proof fn lemma_propagation_meets_blanks(
    rows: Seq<Row>,
    names: Seq<Seq<char>>,
    edges: Seq<(usize, usize)>,
    order: Seq<usize>,
)
    requires
        distinct_rows(rows),
        rows.len() <= graph_limit(),
        edges_within(edges, rows.len()),
        is_topological(order, rows.len(), edges),
    ensures
        propagated(rows, names, edges, order) matches Ok(fin) ==> {
            &&& fin.len() == rows.len()
            &&& distinct_rows(fin)
            &&& forall|e: int|
                0 <= e < edges.len() ==> unmet(
                    fin[(#[trigger] edges[e]).1 as int],
                    fin[edges[e].0 as int],
                )
        },
{
    lemma_propagation_meets(rows, Seq::empty(), names, edges, order, 0);
    match propagated(rows, names, edges, order) {
        Err(_) => {},
        Ok(fin) => {
            lemma_order_holds_all(order, rows.len());
            assert forall|e: int| 0 <= e < edges.len() implies unmet(
                fin[(#[trigger] edges[e]).1 as int],
                fin[edges[e].0 as int],
            ) by {
                assert(edges[e].0 < rows.len());
                assert(stands_in(order, edges[e].0));
                let p = choose|p: int| 0 <= p < order.len() && #[trigger] order[p] == edges[e].0;
                assert(edges[e].0 == order[p]);
            }
        },
    }
}

/// Handing down puts no default without value anywhere: after it, a
/// package has such a default only where it had that very default
/// before. What hands down "take away" takes away or does nothing.
pub proof fn lemma_propagation_hygiene(
    rows: Seq<Row>,
    names: Seq<Seq<char>>,
    edges: Seq<(usize, usize)>,
    order: Seq<usize>,
)
    requires
        edges_within(edges, rows.len()),
    ensures
        propagated(rows, names, edges, order) matches Ok(fin) ==> no_new_blanks(rows, fin),
{
    assert(no_new_blanks(rows, rows)) by {
        assert forall|x: int| 0 <= x < rows.len() implies no_new_blank(rows[x], #[trigger] rows[x]) by {
            assert forall|k: int|
                0 <= k < rows[x].len() && (#[trigger] rows[x][k]).1 is None implies is_entry_of(
                rows[x],
                rows[x][k],
            ) by {}
        }
    }
    lemma_propagation_adds_no_blank(rows, rows, Seq::empty(), names, edges, order, 0);
}

} // verus!
