//! From outlines to the problem for the solver: the types of the options
//! are told, each option gets its variable, and what the outlines ask for
//! is asserted.

use super::constraint::checking::{
    fault_of, lemma_tables_agree, lemma_verdict_by_types, table_for, top_verdict,
    version_literals_first, Fault,
};
use super::constraint::clause::{
    agrees, as_truth, clause, clause_fault_of, compared, literal_of, literal_term, truth_of,
    variable_of, variable_term, ClauseFault,
};
use super::constraint::kinds::{CmpType, SOFT_PACKAGE_WEIGHT};
use super::constraint::tree::{describe, option_refs, Constraint};
use super::graph::{is_cycle, is_topological};
use super::constraint::typing::{
    as_str_option, conflicting, derivable, derives, fact_views, facts, grounded, holds_all,
    holds_fact, keeps, leaves_open, lemma_derives_moved, lemma_table_shows_typable,
    lemma_types_determined, must_be_bool, satisfies, solve_facts, type_in, Fact, FactView, Key,
};
use super::error::{InvalidReason, SolverError};
use super::outline::{PackageOutline, SpecOutline};
use super::plan::{
    labels_match, lemma_core_is_explained, plan_reads, tells_unread, PackagePlan,
};
use crate::solver::engine::is_one_of;
use crate::solver::solve::Scalar;
use super::registry::{
    distinct_keys, full_name, has_line, holds_clash, is_line_of, lemma_line_unique, names_missing,
    numbers_cover, str_view, strictly_sorted, text_view, write_full_name, BuiltRegistry, EntryView,
    WipRegistry,
};
use crate::solver::problem::{
    descriptions_of, labelled, labelled_view, objectives_view, soft_view, Assertion, Objective,
    ObjectiveView, Problem,
};
use crate::solver::solve::{fits, lowered, posed_soft, run, well_posed, Outcome};
use crate::solver::term::{sort_of, term_view, Sort, Term, TermView};
use crate::spec::spec_option::value_text;
use crate::util::text::decimal_text;
use super::version::PartView;
use crate::spec::spec_option::{type_of, SpecOptionType, SpecOptionValue, ValueView};
use vstd::prelude::*;
use vstd::string::StringExecFns;

verus! {

/// The facts that the first `n` of the fixed options of `package` state:
/// each has the type of its value.
pub open spec fn seeds_first(package: Seq<char>, options: Seq<(String, SpecOptionValue)>, n: nat) -> Seq<
    FactView,
>
    decreases n,
{
    if n == 0 || n > options.len() {
        Seq::empty()
    } else {
        seeds_first(package, options, (n - 1) as nat).push(
            FactView::Is((package, Some(options[n - 1].0@)), type_of(options[n - 1].1@)),
        )
    }
}

/// The facts that the first `n` of `constraints` state, each of which, as
/// a constraint of a package, stands for a truth value where it is an
/// option.
pub open spec fn constraint_facts_first(constraints: Seq<Constraint>, n: nat) -> Seq<FactView>
    decreases n,
{
    if n == 0 || n > constraints.len() {
        Seq::empty()
    } else {
        constraint_facts_first(constraints, (n - 1) as nat) + stated_by(constraints[n - 1])
    }
}

/// The facts that an outline states: the switch of the package is a truth
/// value, each fixed option has the type of its value, and what the
/// constraints say.
pub open spec fn outline_facts(o: PackageOutline) -> Seq<FactView> {
    seq![FactView::Is((o.name@, None), SpecOptionType::Bool)] + seeds_first(
        o.name@,
        o.set_options@,
        o.set_options@.len(),
    ) + constraint_facts_first(o.constraints@, o.constraints@.len())
}

/// The facts that the first `n` of `outlines` state.
pub open spec fn all_facts_first(outlines: Seq<PackageOutline>, n: nat) -> Seq<FactView>
    decreases n,
{
    if n == 0 || n > outlines.len() {
        Seq::empty()
    } else {
        all_facts_first(outlines, (n - 1) as nat) + outline_facts(outlines[n - 1])
    }
}

/// The facts that `outlines` state.
pub open spec fn all_facts(outlines: Seq<PackageOutline>) -> Seq<FactView> {
    all_facts_first(outlines, outlines.len())
}

/// The versions among the values of the first `n` of the fixed options.
pub open spec fn set_versions_first(options: Seq<(String, SpecOptionValue)>, n: nat) -> Seq<
    Seq<PartView>,
>
    decreases n,
{
    if n == 0 || n > options.len() {
        Seq::empty()
    } else {
        match options[n - 1].1@ {
            ValueView::Version(parts) => set_versions_first(options, (n - 1) as nat).push(parts),
            _ => set_versions_first(options, (n - 1) as nat),
        }
    }
}

/// The versions that an outline writes out: in its fixed options, then in
/// its constraints.
pub open spec fn outline_versions(o: PackageOutline) -> Seq<Seq<PartView>> {
    set_versions_first(o.set_options@, o.set_options@.len()) + version_literals_first(
        o.constraints@,
        o.constraints@.len(),
    )
}

/// The versions that the first `n` of `outlines` write out.
pub open spec fn all_versions_first(outlines: Seq<PackageOutline>, n: nat) -> Seq<Seq<PartView>>
    decreases n,
{
    if n == 0 || n > outlines.len() {
        Seq::empty()
    } else {
        all_versions_first(outlines, (n - 1) as nat) + outline_versions(outlines[n - 1])
    }
}

/// Whether each constraint of each of `outlines` is well typed under
/// `table`.
pub open spec fn all_well_typed(outlines: Seq<PackageOutline>, table: Seq<EntryView>) -> bool {
    forall|i: int, k: int|
        0 <= i < outlines.len() && 0 <= k < outlines[i].constraints@.len() ==> top_verdict(
            #[trigger] outlines[i].constraints@[k],
            table,
        ) is Ok
}

/// Whether there is a table of the types that the outlines give, over
/// the table `base`, under which each constraint is well typed.
pub open spec fn well_typed_over(base: Seq<EntryView>, outlines: Seq<PackageOutline>) -> bool {
    exists|typed: Seq<EntryView>|
        #[trigger] table_for(base, all_facts(outlines), typed) && all_well_typed(outlines, typed)
}

/// Whether `e` tells of a constraint of `outlines` that is not well typed
/// under `table`.
pub open spec fn tells_fault(e: SolverError, outlines: Seq<PackageOutline>, table: Seq<EntryView>) -> bool {
    fault_of(e) is Some && exists|i: int, k: int|
        0 <= i < outlines.len() && 0 <= k < outlines[i].constraints@.len() && top_verdict(
            #[trigger] outlines[i].constraints@[k],
            table,
        ) == Err::<(), Fault>(fault_of(e)->0)
}

/// What a constraint `c` of a package states.
pub open spec fn stated_by(c: Constraint) -> Seq<FactView> {
    facts(c) + must_be_bool(c)
}

/// Whether `c` is one of the constraints of `o`.
pub open spec fn is_constraint_of(o: PackageOutline, c: Constraint) -> bool {
    exists|k: int| 0 <= k < o.constraints@.len() && #[trigger] o.constraints@[k] == c
}

/// Whether `o` fixes `option` to `value`.
pub open spec fn fixes(o: PackageOutline, option: Seq<char>, value: ValueView) -> bool {
    exists|k: int|
        0 <= k < o.set_options@.len() && (#[trigger] o.set_options@[k]).0@ == option
            && o.set_options@[k].1@ == value
}

/// Whether `b` says all that `a` says: it goes by the same name, fixes
/// each option that `a` fixes to the same value, and has each constraint
/// that `a` has, in whatever order.
pub open spec fn says_all_of(b: PackageOutline, a: PackageOutline) -> bool {
    &&& a.name@ == b.name@
    &&& forall|k: int|
        0 <= k < a.set_options@.len() ==> fixes(
            b,
            (#[trigger] a.set_options@[k]).0@,
            a.set_options@[k].1@,
        )
    &&& forall|k: int|
        0 <= k < a.constraints@.len() ==> is_constraint_of(b, #[trigger] a.constraints@[k])
}

/// Whether one of `outlines` says all that `a` says.
pub open spec fn is_said_among(outlines: Seq<PackageOutline>, a: PackageOutline) -> bool {
    exists|j: int| 0 <= j < outlines.len() && says_all_of(#[trigger] outlines[j], a)
}

/// Whether `second` says all that `first` says, outline by outline, in
/// whatever order the outlines and their constraints stand.
pub open spec fn say_all_of(second: Seq<PackageOutline>, first: Seq<PackageOutline>) -> bool {
    forall|i: int| 0 <= i < first.len() ==> is_said_among(second, #[trigger] first[i])
}

proof fn lemma_holds_in_either(a: Seq<FactView>, b: Seq<FactView>, f: FactView)
    ensures
        holds_fact(a + b, f) <==> holds_fact(a, f) || holds_fact(b, f),
{
    let both = a + b;
    if holds_fact(both, f) {
        let j = choose|j: int| 0 <= j < both.len() && #[trigger] both[j] == f;
        if j < a.len() {
            assert(a[j] == f);
        } else {
            assert(b[j - a.len()] == f);
        }
    }
    if holds_fact(a, f) {
        let j = choose|j: int| 0 <= j < a.len() && #[trigger] a[j] == f;
        assert(both[j] == f);
    }
    if holds_fact(b, f) {
        let j = choose|j: int| 0 <= j < b.len() && #[trigger] b[j] == f;
        assert(both[a.len() + j] == f);
    }
}

proof fn lemma_seed_held(package: Seq<char>, options: Seq<(String, SpecOptionValue)>, n: nat, f: FactView)
    requires
        n <= options.len(),
    ensures
        holds_fact(seeds_first(package, options, n), f) <==> exists|k: int|
            0 <= k < n && f == FactView::Is(
                (package, Some((#[trigger] options[k]).0@)),
                type_of(options[k].1@),
            ),
    decreases n,
{
    if n > 0 {
        let init = seeds_first(package, options, (n - 1) as nat);
        let last = FactView::Is((package, Some(options[n - 1].0@)), type_of(options[n - 1].1@));
        lemma_seed_held(package, options, (n - 1) as nat, f);
        assert(init.push(last) =~= init + seq![last]);
        lemma_holds_in_either(init, seq![last], f);
        if holds_fact(seq![last], f) {
            let j = choose|j: int| 0 <= j < 1 && #[trigger] seq![last][j] == f;
            assert(f == last);
            assert(options[n - 1] == options[n - 1]);
        }
        if exists|k: int|
            0 <= k < n && f == FactView::Is(
                (package, Some((#[trigger] options[k]).0@)),
                type_of(options[k].1@),
            ) {
            let k = choose|k: int|
                0 <= k < n && f == FactView::Is(
                    (package, Some((#[trigger] options[k]).0@)),
                    type_of(options[k].1@),
                );
            if k == n - 1 {
                assert(seq![last][0] == f);
            } else {
                assert(0 <= k < n - 1 && options[k] == options[k]);
            }
        }
    } else {
        if holds_fact(seeds_first(package, options, n), f) {
            let j = choose|j: int|
                0 <= j < seeds_first(package, options, n).len() && #[trigger] seeds_first(
                    package,
                    options,
                    n,
                )[j] == f;
        }
    }
}

proof fn lemma_statement_held(constraints: Seq<Constraint>, n: nat, f: FactView)
    requires
        n <= constraints.len(),
    ensures
        holds_fact(constraint_facts_first(constraints, n), f) <==> exists|k: int|
            0 <= k < n && holds_fact(stated_by(#[trigger] constraints[k]), f),
    decreases n,
{
    if n > 0 {
        let init = constraint_facts_first(constraints, (n - 1) as nat);
        let last = stated_by(constraints[n - 1]);
        lemma_statement_held(constraints, (n - 1) as nat, f);
        assert(constraint_facts_first(constraints, n) =~= init + last);
        lemma_holds_in_either(init, last, f);
        if exists|k: int| 0 <= k < n && holds_fact(stated_by(#[trigger] constraints[k]), f) {
            let k = choose|k: int| 0 <= k < n && holds_fact(stated_by(#[trigger] constraints[k]), f);
            if k < n - 1 {
                assert(0 <= k < n - 1 && holds_fact(stated_by(constraints[k]), f));
            }
        }
        if holds_fact(last, f) {
            assert(holds_fact(stated_by(constraints[n - 1]), f));
        }
    } else {
        if holds_fact(constraint_facts_first(constraints, n), f) {
            let j = choose|j: int|
                0 <= j < constraint_facts_first(constraints, n).len()
                    && #[trigger] constraint_facts_first(constraints, n)[j] == f;
        }
    }
}

proof fn lemma_outline_held(outlines: Seq<PackageOutline>, n: nat, f: FactView)
    requires
        n <= outlines.len(),
    ensures
        holds_fact(all_facts_first(outlines, n), f) <==> exists|i: int|
            0 <= i < n && holds_fact(outline_facts(#[trigger] outlines[i]), f),
    decreases n,
{
    if n > 0 {
        let init = all_facts_first(outlines, (n - 1) as nat);
        let last = outline_facts(outlines[n - 1]);
        lemma_outline_held(outlines, (n - 1) as nat, f);
        lemma_holds_in_either(init, last, f);
        if exists|i: int| 0 <= i < n && holds_fact(outline_facts(#[trigger] outlines[i]), f) {
            let i = choose|i: int| 0 <= i < n && holds_fact(outline_facts(#[trigger] outlines[i]), f);
            if i < n - 1 {
                assert(0 <= i < n - 1 && holds_fact(outline_facts(outlines[i]), f));
            }
        }
        if holds_fact(last, f) {
            assert(holds_fact(outline_facts(outlines[n - 1]), f));
        }
    } else {
        if holds_fact(all_facts_first(outlines, n), f) {
            let j = choose|j: int|
                0 <= j < all_facts_first(outlines, n).len() && #[trigger] all_facts_first(
                    outlines,
                    n,
                )[j] == f;
        }
    }
}

proof fn lemma_outline_says(a: PackageOutline, b: PackageOutline, f: FactView)
    requires
        says_all_of(b, a),
        holds_fact(outline_facts(a), f),
    ensures
        holds_fact(outline_facts(b), f),
{
    let switch_a = seq![FactView::Is((a.name@, None), SpecOptionType::Bool)];
    let seeds_a = seeds_first(a.name@, a.set_options@, a.set_options@.len());
    let stated_a = constraint_facts_first(a.constraints@, a.constraints@.len());
    let switch_b = seq![FactView::Is((b.name@, None), SpecOptionType::Bool)];
    let seeds_b = seeds_first(b.name@, b.set_options@, b.set_options@.len());
    let stated_b = constraint_facts_first(b.constraints@, b.constraints@.len());
    lemma_holds_in_either(switch_a + seeds_a, stated_a, f);
    lemma_holds_in_either(switch_a, seeds_a, f);
    lemma_holds_in_either(switch_b + seeds_b, stated_b, f);
    lemma_holds_in_either(switch_b, seeds_b, f);
    lemma_seed_held(a.name@, a.set_options@, a.set_options@.len(), f);
    lemma_seed_held(b.name@, b.set_options@, b.set_options@.len(), f);
    lemma_statement_held(a.constraints@, a.constraints@.len(), f);
    lemma_statement_held(b.constraints@, b.constraints@.len(), f);
    if holds_fact(switch_a, f) {
        let j = choose|j: int| 0 <= j < switch_a.len() && #[trigger] switch_a[j] == f;
        assert(switch_b[0] == f);
    } else if holds_fact(seeds_a, f) {
        let k = choose|k: int|
            0 <= k < a.set_options@.len() && f == FactView::Is(
                (a.name@, Some((#[trigger] a.set_options@[k]).0@)),
                type_of(a.set_options@[k].1@),
            );
        assert(fixes(b, a.set_options@[k].0@, a.set_options@[k].1@));
        let m = choose|m: int|
            0 <= m < b.set_options@.len() && (#[trigger] b.set_options@[m]).0@
                == a.set_options@[k].0@ && b.set_options@[m].1@ == a.set_options@[k].1@;
        assert(f == FactView::Is(
            (b.name@, Some(b.set_options@[m].0@)),
            type_of(b.set_options@[m].1@),
        ));
    } else {
        let k = choose|k: int|
            0 <= k < a.constraints@.len() && holds_fact(stated_by(#[trigger] a.constraints@[k]), f);
        assert(is_constraint_of(b, a.constraints@[k]));
        let m = choose|m: int|
            0 <= m < b.constraints@.len() && #[trigger] b.constraints@[m] == a.constraints@[k];
        assert(holds_fact(stated_by(b.constraints@[m]), f));
    }
}

/// What the outlines state of the types does not hang on their order,
/// nor on the order of the constraints within an outline: outlines that
/// say all that others say state each fact that the others state.
pub proof fn lemma_facts_follow_outlines(first: Seq<PackageOutline>, second: Seq<PackageOutline>)
    requires
        say_all_of(second, first),
    ensures
        holds_all(all_facts(second), all_facts(first)),
{
    let stated = all_facts(first);
    assert forall|x: int| 0 <= x < stated.len() implies holds_fact(
        all_facts(second),
        #[trigger] stated[x],
    ) by {
        let f = stated[x];
        assert(holds_fact(stated, f));
        lemma_outline_held(first, first.len(), f);
        let i = choose|i: int|
            0 <= i < first.len() && holds_fact(outline_facts(#[trigger] first[i]), f);
        assert(is_said_among(second, first[i]));
        let j = choose|j: int| 0 <= j < second.len() && says_all_of(#[trigger] second[j], first[i]);
        lemma_outline_says(first[i], second[j], f);
        lemma_outline_held(second, second.len(), f);
    }
}

/// A table of the types that outlines give, under which their
/// constraints are well typed, is one for any outlines that say the
/// same.
pub proof fn lemma_table_follows_outlines(
    first: Seq<PackageOutline>,
    second: Seq<PackageOutline>,
    typed: Seq<EntryView>,
)
    requires
        say_all_of(second, first),
        say_all_of(first, second),
        table_for(Seq::empty(), all_facts(first), typed),
        all_well_typed(first, typed),
    ensures
        table_for(Seq::empty(), all_facts(second), typed),
        all_well_typed(second, typed),
{
    let base = Seq::<EntryView>::empty();
    let one = all_facts(first);
    let other = all_facts(second);
    lemma_facts_follow_outlines(first, second);
    lemma_facts_follow_outlines(second, first);
    assert forall|i: int| 0 <= i < typed.len() implies derivable(
        base,
        other,
        ((#[trigger] typed[i]).package, typed[i].option),
        typed[i].dtype,
    ) by {
        let key = (typed[i].package, typed[i].option);
        assert(derivable(base, one, key, typed[i].dtype));
        let n = choose|n: nat| derives(base, one, n, key, typed[i].dtype);
        lemma_derives_moved(base, one, other, n, key, typed[i].dtype);
    }
    assert forall|i: int| 0 <= i < other.len() implies match #[trigger] other[i] {
        FactView::Is(k, t) => type_in(typed, k) == Some(t),
        FactView::Same(a, b) => type_in(typed, a) is Some && type_in(typed, a) == type_in(typed, b),
    } by {
        assert(holds_fact(one, other[i]));
        let j = choose|j: int| 0 <= j < one.len() && #[trigger] one[j] == other[i];
    }
    assert forall|i: int, k: int|
        0 <= i < second.len() && 0 <= k < second[i].constraints@.len() implies top_verdict(
        #[trigger] second[i].constraints@[k],
        typed,
    ) is Ok by {
        assert(is_said_among(first, second[i]));
        let j = choose|j: int| 0 <= j < first.len() && says_all_of(#[trigger] first[j], second[i]);
        assert(is_constraint_of(first[j], second[i].constraints@[k]));
        let m = choose|m: int|
            0 <= m < first[j].constraints@.len() && #[trigger] first[j].constraints@[m]
                == second[i].constraints@[k];
        assert(top_verdict(first[j].constraints@[m], typed) is Ok);
    }
}

/// Whether the types can be told and the constraints are well typed does
/// not hang on the order of the outlines, nor on the order of the
/// constraints within an outline: of two lists of outlines that say the
/// same, the check of the types goes through for both or for none.
pub proof fn lemma_check_follows_outlines(first: Seq<PackageOutline>, second: Seq<PackageOutline>)
    requires
        say_all_of(second, first),
        say_all_of(first, second),
    ensures
        well_typed_over(Seq::empty(), first) == well_typed_over(Seq::empty(), second),
{
    let base = Seq::<EntryView>::empty();
    if well_typed_over(base, first) {
        let typed = choose|typed: Seq<EntryView>|
            #[trigger] table_for(base, all_facts(first), typed) && all_well_typed(first, typed);
        lemma_table_follows_outlines(first, second, typed);
    }
    if well_typed_over(base, second) {
        let typed = choose|typed: Seq<EntryView>|
            #[trigger] table_for(base, all_facts(second), typed) && all_well_typed(second, typed);
        lemma_table_follows_outlines(second, first, typed);
    }
}

/// The types of the options do not hang on the order of the outlines,
/// nor on the order of the constraints within an outline: where two
/// lists of outlines say the same, and each of two tables is a table of
/// the types for one of them, both tables give each option the same
/// type.
pub proof fn lemma_types_follow_outlines(
    first: Seq<PackageOutline>,
    second: Seq<PackageOutline>,
    one: Seq<EntryView>,
    other: Seq<EntryView>,
    key: Key,
)
    requires
        say_all_of(second, first),
        say_all_of(first, second),
        distinct_keys(one),
        distinct_keys(other),
        grounded(Seq::empty(), all_facts(first), one),
        satisfies(one, all_facts(first)),
        grounded(Seq::empty(), all_facts(second), other),
        satisfies(other, all_facts(second)),
    ensures
        type_in(one, key) == type_in(other, key),
{
    lemma_facts_follow_outlines(first, second);
    lemma_facts_follow_outlines(second, first);
    lemma_types_determined(
        Seq::empty(),
        all_facts(first),
        all_facts(second),
        one,
        other,
        key,
    );
}

fn gather_facts(outlines: &Vec<PackageOutline>) -> (found: Vec<Fact>)
    ensures
        fact_views(found@) == all_facts(outlines@),
{
    let mut found: Vec<Fact> = Vec::new();
    let mut i: usize = 0;
    assert(fact_views(found@) =~= all_facts_first(outlines@, 0));
    while i < outlines.len()
        invariant
            i <= outlines.len(),
            fact_views(found@) == all_facts_first(outlines@, i as nat),
        decreases outlines.len() - i,
    {
        let o = &outlines[i];
        let ghost start = fact_views(found@);
        found.push(
            Fact::Is { package: o.name.clone(), option: None, dtype: SpecOptionType::Bool },
        );
        let ghost toggled = fact_views(found@);
        assert(toggled =~= start + seq![FactView::Is((o.name@, None), SpecOptionType::Bool)]);
        let mut k: usize = 0;
        assert(fact_views(found@) =~= toggled + seeds_first(o.name@, o.set_options@, 0));
        while k < o.set_options.len()
            invariant
                k <= o.set_options.len(),
                fact_views(found@) == toggled + seeds_first(o.name@, o.set_options@, k as nat),
            decreases o.set_options.len() - k,
        {
            let ghost before = fact_views(found@);
            found.push(
                Fact::Is {
                    package: o.name.clone(),
                    option: Some(o.set_options[k].0.clone()),
                    dtype: o.set_options[k].1.to_type(),
                },
            );
            assert(fact_views(found@) =~= before.push(
                FactView::Is(
                    (o.name@, Some(o.set_options@[k as int].0@)),
                    type_of(o.set_options@[k as int].1@),
                ),
            ));
            assert(fact_views(found@) =~= toggled + seeds_first(
                o.name@,
                o.set_options@,
                (k + 1) as nat,
            ));
            k = k + 1;
        }
        let ghost seeded = fact_views(found@);
        let mut k: usize = 0;
        assert(fact_views(found@) =~= seeded + constraint_facts_first(o.constraints@, 0));
        while k < o.constraints.len()
            invariant
                k <= o.constraints.len(),
                fact_views(found@) == seeded + constraint_facts_first(o.constraints@, k as nat),
            decreases o.constraints.len() - k,
        {
            let ghost before = fact_views(found@);
            o.constraints[k].collect_facts(&mut found);
            match &o.constraints[k] {
                Constraint::SpecOption(r) => {
                    found.push(
                        Fact::Is {
                            package: r.package_name.clone(),
                            option: Some(r.option_name.clone()),
                            dtype: SpecOptionType::Bool,
                        },
                    );
                },
                _ => {},
            }
            assert(fact_views(found@) =~= before + facts(o.constraints@[k as int]) + must_be_bool(
                o.constraints@[k as int],
            ));
            assert(fact_views(found@) =~= seeded + constraint_facts_first(
                o.constraints@,
                (k + 1) as nat,
            ));
            k = k + 1;
        }
        assert(fact_views(found@) =~= start + outline_facts(outlines@[i as int]));
        i = i + 1;
    }
    found
}

fn note_all_versions(outlines: &Vec<PackageOutline>, registry: &mut WipRegistry)
    ensures
        final(registry).versions().pushed() == old(registry).versions().pushed()
            + all_versions_first(outlines@, outlines@.len()),
        final(registry).table() == old(registry).table(),
        final(registry).descriptions() == old(registry).descriptions(),
{
    let ghost start = registry.versions().pushed();
    let mut i: usize = 0;
    assert(registry.versions().pushed() =~= start + all_versions_first(outlines@, 0));
    while i < outlines.len()
        invariant
            i <= outlines.len(),
            registry.table() == old(registry).table(),
            registry.descriptions() == old(registry).descriptions(),
            registry.versions().pushed() == start + all_versions_first(outlines@, i as nat),
        decreases outlines.len() - i,
    {
        let o = &outlines[i];
        let ghost before = registry.versions().pushed();
        let mut k: usize = 0;
        assert(registry.versions().pushed() =~= before + set_versions_first(o.set_options@, 0));
        while k < o.set_options.len()
            invariant
                k <= o.set_options.len(),
                registry.table() == old(registry).table(),
                registry.descriptions() == old(registry).descriptions(),
                registry.versions().pushed() == before + set_versions_first(
                    o.set_options@,
                    k as nat,
                ),
            decreases o.set_options.len() - k,
        {
            match &o.set_options[k].1 {
                SpecOptionValue::Version(v) => {
                    registry.push_version(v.duplicate());
                },
                _ => {},
            }
            assert(registry.versions().pushed() =~= before + set_versions_first(
                o.set_options@,
                (k + 1) as nat,
            ));
            k = k + 1;
        }
        let ghost pinned = registry.versions().pushed();
        let mut k: usize = 0;
        assert(registry.versions().pushed() =~= pinned + version_literals_first(
            o.constraints@,
            0,
        ));
        while k < o.constraints.len()
            invariant
                k <= o.constraints.len(),
                registry.table() == old(registry).table(),
                registry.descriptions() == old(registry).descriptions(),
                registry.versions().pushed() == pinned + version_literals_first(
                    o.constraints@,
                    k as nat,
                ),
            decreases o.constraints.len() - k,
        {
            o.constraints[k].note_versions(registry);
            assert(registry.versions().pushed() =~= pinned + version_literals_first(
                o.constraints@,
                (k + 1) as nat,
            ));
            k = k + 1;
        }
        assert(registry.versions().pushed() =~= start + all_versions_first(
            outlines@,
            (i + 1) as nat,
        ));
        i = i + 1;
    }
}

impl SpecOutline {
    /// Tells the types of all options from what the outlines say, enters
    /// them in the registry, and checks each constraint against them. The
    /// versions that the outlines write out are noted in the registry.
    ///
    /// The check goes through exactly where there is a table of the types
    /// that the outlines give under which each constraint is well typed.
    #[verifier::loop_isolation(false)]
    pub fn type_check(&self, registry: &mut WipRegistry) -> (res: Result<(), SolverError>)
        requires
            old(registry).wf(),
        ensures
            res is Ok <==> well_typed_over(old(registry).table(), self.packages()),
            final(registry).wf(),
            final(registry).descriptions() == old(registry).descriptions(),
            final(registry).versions().pushed() == old(registry).versions().pushed()
                + all_versions_first(self.packages(), self.packages().len()),
            keeps(old(registry).table(), final(registry).table()),
            grounded(old(registry).table(), all_facts(self.packages()), final(registry).table()),
            match res {
                Ok(_) => satisfies(final(registry).table(), all_facts(self.packages()))
                    && all_well_typed(self.packages(), final(registry).table()),
                Err(e) => {
                    ||| e is IncorrectConstraintType && conflicting(
                        old(registry).table(),
                        all_facts(self.packages()),
                    )
                    ||| e is UnknownType && exists|i: int|
                        leaves_open(final(registry).table(), all_facts(self.packages()), i)
                    ||| tells_fault(e, self.packages(), final(registry).table())
                },
            },
    {
        let outlines = self.outlines();
        let ghost base = registry.table();
        let ghost told = all_facts(self.packages());
        note_all_versions(outlines, registry);
        let stated = gather_facts(outlines);
        match solve_facts(&stated, registry) {
            Err(e) => {
                proof {
                    assert forall|typed: Seq<EntryView>|
                        !(#[trigger] table_for(base, told, typed) && all_well_typed(
                            self.packages(),
                            typed,
                        )) by {
                        if table_for(base, told, typed) {
                            lemma_table_shows_typable(base, told, typed);
                        }
                    }
                }
                return Err(e);
            },
            Ok(_) => {},
        }
        let ghost found = registry.table();
        assert(table_for(base, told, found));
        let mut i: usize = 0;
        while i < outlines.len()
            invariant
                i <= outlines.len(),
                outlines@ == self.packages(),
                registry.wf(),
                forall|x: int, k: int|
                    0 <= x < i && 0 <= k < outlines@[x].constraints@.len() ==> top_verdict(
                        #[trigger] outlines@[x].constraints@[k],
                        registry.table(),
                    ) is Ok,
            decreases outlines.len() - i,
        {
            let o = &outlines[i];
            let mut k: usize = 0;
            while k < o.constraints.len()
                invariant
                    k <= o.constraints.len(),
                    i < outlines.len(),
                    outlines@ == self.packages(),
                    *o == outlines@[i as int],
                    registry.wf(),
                    forall|y: int|
                        0 <= y < k ==> top_verdict(
                            #[trigger] o.constraints@[y],
                            registry.table(),
                        ) is Ok,
                decreases o.constraints.len() - k,
            {
                match o.constraints[k].check_top(registry) {
                    Err(e) => {
                        assert(tells_fault(e, self.packages(), registry.table())) by {
                            assert(top_verdict(
                                outlines@[i as int].constraints@[k as int],
                                registry.table(),
                            ) is Err);
                        }
                        proof {
                            let c = outlines@[i as int].constraints@[k as int];
                            assert forall|typed: Seq<EntryView>|
                                !(#[trigger] table_for(base, told, typed) && all_well_typed(
                                    self.packages(),
                                    typed,
                                )) by {
                                if table_for(base, told, typed) {
                                    lemma_tables_agree(base, told, found, typed);
                                    lemma_verdict_by_types(c, found, typed);
                                    assert(top_verdict(
                                        self.packages()[i as int].constraints@[k as int],
                                        typed,
                                    ) is Err);
                                }
                            }
                        }
                        return Err(e);
                    },
                    Ok(_) => {},
                }
                k = k + 1;
            }
            i = i + 1;
        }
        Ok(())
    }
}

/// The fixed options of `package`, the first `n` of them, as keys.
pub open spec fn set_keys_first(package: Seq<char>, options: Seq<(String, SpecOptionValue)>, n: nat) -> Seq<
    Key,
>
    decreases n,
{
    if n == 0 || n > options.len() {
        Seq::empty()
    } else {
        set_keys_first(package, options, (n - 1) as nat).push((package, Some(options[n - 1].0@)))
    }
}

/// The options `refs`, as keys.
pub open spec fn ref_keys(refs: Seq<(Seq<char>, Seq<char>)>) -> Seq<Key> {
    refs.map_values(|r: (Seq<char>, Seq<char>)| (r.0, Some(r.1)))
}

/// The options that the first `n` of `constraints` name, as keys.
pub open spec fn ref_keys_first(constraints: Seq<Constraint>, n: nat) -> Seq<Key>
    decreases n,
{
    if n == 0 || n > constraints.len() {
        Seq::empty()
    } else {
        ref_keys_first(constraints, (n - 1) as nat) + ref_keys(option_refs(constraints[n - 1]))
    }
}

/// What an outline needs variables for: the switch of the package, its
/// fixed options, and the options that its constraints name.
pub open spec fn outline_keys(o: PackageOutline) -> Seq<Key> {
    seq![(o.name@, None::<Seq<char>>)] + set_keys_first(
        o.name@,
        o.set_options@,
        o.set_options@.len(),
    ) + ref_keys_first(o.constraints@, o.constraints@.len())
}

/// What the first `n` of `outlines` need variables for.
pub open spec fn all_keys_first(outlines: Seq<PackageOutline>, n: nat) -> Seq<Key>
    decreases n,
{
    if n == 0 || n > outlines.len() {
        Seq::empty()
    } else {
        all_keys_first(outlines, (n - 1) as nat) + outline_keys(outlines[n - 1])
    }
}

/// What `outlines` need variables for.
pub open spec fn all_keys(outlines: Seq<PackageOutline>) -> Seq<Key> {
    all_keys_first(outlines, outlines.len())
}

/// Whether `key` is one of `keys`.
pub open spec fn holds_key(keys: Seq<Key>, key: Key) -> bool {
    exists|j: int| 0 <= j < keys.len() && #[trigger] keys[j] == key
}

/// The soft assertions for the first `n` of `outlines`: of each package,
/// that it is switched off, with the weight of a package.
pub open spec fn toggles_first(outlines: Seq<PackageOutline>, n: nat) -> Seq<(TermView, usize)>
    decreases n,
{
    if n == 0 || n > outlines.len() {
        Seq::empty()
    } else {
        toggles_first(outlines, (n - 1) as nat).push(
            (
                TermView::Not(Box::new(TermView::Var(outlines[n - 1].name@, Sort::Bool))),
                SOFT_PACKAGE_WEIGHT,
            ),
        )
    }
}

/// What the solver is asked softly where the soft assertions of a
/// problem are those for the outlines: of each package, in the order of
/// the outlines, that its switch be off, at the price of one where it is
/// on. So an answer of the solver that pays the least has the fewest
/// packages switched on that the rest of the problem allows.
pub proof fn lemma_switches_are_posed(outlines: Seq<PackageOutline>, soft: Seq<(Term, usize)>)
    requires
        soft_view(soft) == toggles_first(outlines, outlines.len()),
    ensures
        posed_soft(soft).len() == outlines.len(),
        forall|i: int|
            0 <= i < outlines.len() ==> #[trigger] posed_soft(soft)[i] == (
                TermView::Not(Box::new(TermView::Var(outlines[i].name@, Sort::Bool))),
                1nat,
            ),
{
    lemma_toggles_first(outlines, outlines.len());
    assert forall|i: int| 0 <= i < outlines.len() implies #[trigger] posed_soft(soft)[i] == (
        TermView::Not(Box::new(TermView::Var(outlines[i].name@, Sort::Bool))),
        1nat,
    ) by {
        assert(soft_view(soft)[i] == (soft[i].0@, soft[i].1));
        assert(toggles_first(outlines, outlines.len())[i] == (
            TermView::Not(Box::new(TermView::Var(outlines[i].name@, Sort::Bool))),
            SOFT_PACKAGE_WEIGHT,
        ));
        reveal_with_fuel(lowered, 3);
    }
}

proof fn lemma_toggles_first(outlines: Seq<PackageOutline>, n: nat)
    requires
        n <= outlines.len(),
    ensures
        toggles_first(outlines, n).len() == n,
        forall|i: int|
            0 <= i < n ==> #[trigger] toggles_first(outlines, n)[i] == (
                TermView::Not(Box::new(TermView::Var(outlines[i].name@, Sort::Bool))),
                SOFT_PACKAGE_WEIGHT,
            ),
    decreases n,
{
    if n > 0 {
        lemma_toggles_first(outlines, (n - 1) as nat);
        let init = toggles_first(outlines, (n - 1) as nat);
        assert forall|i: int| 0 <= i < n implies #[trigger] toggles_first(outlines, n)[i] == (
            TermView::Not(Box::new(TermView::Var(outlines[i].name@, Sort::Bool))),
            SOFT_PACKAGE_WEIGHT,
        ) by {
            if i < n - 1 {
                assert(toggles_first(outlines, n)[i] == init[i]);
            }
        }
    }
}

/// Whether `after` is `before` with a variable for each of `keys` that had
/// none: the lines are the same but for that, and the variable of an
/// option is named by package and option, that of a switch by the package.
pub open spec fn declared_table(before: Seq<EntryView>, keys: Seq<Key>, after: Seq<EntryView>) -> bool {
    &&& after.len() == before.len()
    &&& forall|i: int|
        0 <= i < before.len() ==> {
            &&& (#[trigger] after[i]).package == before[i].package
            &&& after[i].option == before[i].option
            &&& after[i].dtype == before[i].dtype
            &&& after[i].variable == match before[i].variable {
                Some(v) => Some(v),
                None => if holds_key(keys, (before[i].package, before[i].option)) {
                    Some(full_name(before[i].package, before[i].option))
                } else {
                    None
                },
            }
        }
}

/// The views of `keys`.
pub open spec fn key_views(keys: Seq<(String, Option<String>)>) -> Seq<Key> {
    keys.map_values(|k: (String, Option<String>)| (k.0@, text_view(k.1)))
}

fn gather_keys(outlines: &Vec<PackageOutline>) -> (found: Vec<(String, Option<String>)>)
    ensures
        key_views(found@) == all_keys(outlines@),
{
    let mut found: Vec<(String, Option<String>)> = Vec::new();
    let mut i: usize = 0;
    assert(key_views(found@) =~= all_keys_first(outlines@, 0));
    while i < outlines.len()
        invariant
            i <= outlines.len(),
            key_views(found@) == all_keys_first(outlines@, i as nat),
        decreases outlines.len() - i,
    {
        let o = &outlines[i];
        let ghost start = key_views(found@);
        found.push((o.name.clone(), None));
        let ghost toggled = key_views(found@);
        assert(toggled =~= start + seq![(o.name@, None::<Seq<char>>)]);
        let mut k: usize = 0;
        assert(key_views(found@) =~= toggled + set_keys_first(o.name@, o.set_options@, 0));
        while k < o.set_options.len()
            invariant
                k <= o.set_options.len(),
                key_views(found@) == toggled + set_keys_first(o.name@, o.set_options@, k as nat),
            decreases o.set_options.len() - k,
        {
            let ghost before = key_views(found@);
            found.push((o.name.clone(), Some(o.set_options[k].0.clone())));
            assert(key_views(found@) =~= before.push((o.name@, Some(o.set_options@[k as int].0@))));
            assert(key_views(found@) =~= toggled + set_keys_first(
                o.name@,
                o.set_options@,
                (k + 1) as nat,
            ));
            k = k + 1;
        }
        let ghost pinned = key_views(found@);
        let mut k: usize = 0;
        assert(key_views(found@) =~= pinned + ref_keys_first(o.constraints@, 0));
        while k < o.constraints.len()
            invariant
                k <= o.constraints.len(),
                key_views(found@) == pinned + ref_keys_first(o.constraints@, k as nat),
            decreases o.constraints.len() - k,
        {
            let refs = o.constraints[k].extract_spec_options();
            let ghost before = key_views(found@);
            let ghost wanted = ref_keys(option_refs(o.constraints@[k as int]));
            let mut j: usize = 0;
            assert(wanted.take(0) =~= Seq::<Key>::empty());
            while j < refs.len()
                invariant
                    j <= refs.len(),
                    wanted.len() == refs@.len(),
                    forall|x: int|
                        0 <= x < refs@.len() ==> #[trigger] wanted[x] == (
                            refs@[x].0@,
                            Some(refs@[x].1@),
                        ),
                    key_views(found@) == before + wanted.take(j as int),
                decreases refs.len() - j,
            {
                let ghost sofar = key_views(found@);
                found.push((refs[j].0.clone(), Some(refs[j].1.clone())));
                assert(key_views(found@) =~= sofar.push((refs@[j as int].0@, Some(refs@[j as int].1@))));
                assert(wanted[j as int] == (refs@[j as int].0@, Some(refs@[j as int].1@)));
                assert(wanted.take(j + 1) =~= wanted.take(j as int).push(wanted[j as int]));
                assert(key_views(found@) =~= before + wanted.take(j + 1));
                j = j + 1;
            }
            assert(wanted.take(j as int) =~= wanted);
            assert(key_views(found@) =~= pinned + ref_keys_first(o.constraints@, (k + 1) as nat));
            k = k + 1;
        }
        assert(key_views(found@) =~= start + outline_keys(outlines@[i as int]));
        i = i + 1;
    }
    found
}

/// Whether `table` has a line for each of the first `n` of `keys`.
pub open spec fn lines_for_first(table: Seq<EntryView>, keys: Seq<Key>, n: int) -> bool {
    forall|j: int| 0 <= j < n && j < keys.len() ==> has_line(table, (#[trigger] keys[j]).0, keys[j].1)
}

/// Gives `option` of `package` its variable, if it has none.
fn declare(registry: &mut WipRegistry, package: &str, option: Option<&str>) -> (r: Result<
    (),
    SolverError,
>)
    requires
        old(registry).wf(),
    ensures
        final(registry).wf(),
        final(registry).descriptions() == old(registry).descriptions(),
        final(registry).versions() == old(registry).versions(),
        match r {
            Ok(_) => has_line(old(registry).table(), package@, str_view(option))
                && declared_table(
                old(registry).table(),
                seq![(package@, str_view(option))],
                final(registry).table(),
            ),
            Err(e) => final(registry).table() == old(registry).table() && !has_line(
                old(registry).table(),
                package@,
                str_view(option),
            ) && names_missing(e, (package@, str_view(option))),
        },
{
    let ghost before = registry.table();
    let ghost key = (package@, str_view(option));
    let ghost keys = seq![key];
    match registry.lookup_option(package, option) {
        None => Err(
            match option {
                Some(name) => SolverError::MissingVariable {
                    package: String::from_str(package),
                    name: String::from_str(name),
                },
                None => SolverError::MissingPackage { dep: String::from_str(package) },
            },
        ),
        Some(idx) => {
            assert(is_line_of(before, idx as int, key.0, key.1));
            match registry.option_variable(idx) {
                Some(_) => {
                    proof {
                        assert forall|i: int| 0 <= i < before.len() implies (
                        #[trigger] before[i]).variable == match before[i].variable {
                            Some(v) => Some(v),
                            None => if holds_key(keys, (before[i].package, before[i].option)) {
                                Some(full_name(before[i].package, before[i].option))
                            } else {
                                None
                            },
                        } by {
                            if before[i].variable is None && holds_key(
                                keys,
                                (before[i].package, before[i].option),
                            ) {
                                assert(is_line_of(before, i, key.0, key.1));
                                lemma_line_unique(before, i, idx as int, key.0, key.1);
                            }
                        }
                    }
                    Ok(())
                },
                None => {
                    let name = write_full_name(package, option);
                    match registry.set_option_value(package, option, name) {
                        Ok(_) => {
                            proof {
                                let after = registry.table();
                                let at = choose|at: int|
                                    {
                                        &&& #[trigger] is_line_of(before, at, key.0, key.1)
                                        &&& before[at].variable is None
                                        &&& after == before.update(
                                            at,
                                            EntryView {
                                                variable: Some(name@),
                                                ..before[at]
                                            },
                                        )
                                    };
                                lemma_line_unique(before, at, idx as int, key.0, key.1);
                                assert forall|i: int| 0 <= i < before.len() implies {
                                    &&& (#[trigger] after[i]).package == before[i].package
                                    &&& after[i].option == before[i].option
                                    &&& after[i].dtype == before[i].dtype
                                    &&& after[i].variable == match before[i].variable {
                                        Some(v) => Some(v),
                                        None => if holds_key(
                                            keys,
                                            (before[i].package, before[i].option),
                                        ) {
                                            Some(full_name(before[i].package, before[i].option))
                                        } else {
                                            None
                                        },
                                    }
                                } by {
                                    if i == at {
                                        assert(keys[0] == (before[i].package, before[i].option));
                                    } else if holds_key(
                                        keys,
                                        (before[i].package, before[i].option),
                                    ) {
                                        assert(is_line_of(before, i, key.0, key.1));
                                        lemma_line_unique(before, i, at, key.0, key.1);
                                    }
                                }
                            }
                            Ok(())
                        },
                        Err(e) => {
                            assert(false);
                            Err(e)
                        },
                    }
                },
            }
        },
    }
}

/// Variables given for some keys and then for one more are variables
/// given for all of them.
proof fn lemma_declared_more(
    start: Seq<EntryView>,
    keys: Seq<Key>,
    mid: Seq<EntryView>,
    key: Key,
    after: Seq<EntryView>,
)
    requires
        declared_table(start, keys, mid),
        declared_table(mid, seq![key], after),
    ensures
        declared_table(start, keys.push(key), after),
{
    let more = keys.push(key);
    assert forall|i: int| 0 <= i < start.len() implies {
        &&& (#[trigger] after[i]).package == start[i].package
        &&& after[i].option == start[i].option
        &&& after[i].dtype == start[i].dtype
        &&& after[i].variable == match start[i].variable {
            Some(v) => Some(v),
            None => if holds_key(more, (start[i].package, start[i].option)) {
                Some(full_name(start[i].package, start[i].option))
            } else {
                None
            },
        }
    } by {
        let k = (start[i].package, start[i].option);
        assert(mid[i].package == start[i].package);
        assert(after[i].package == mid[i].package);
        if holds_key(keys, k) {
            let j = choose|j: int| 0 <= j < keys.len() && #[trigger] keys[j] == k;
            assert(more[j] == k);
        }
        if holds_key(seq![key], k) {
            assert(more[keys.len() as int] == k);
        }
        if holds_key(more, k) {
            let j = choose|j: int| 0 <= j < more.len() && #[trigger] more[j] == k;
            if j < keys.len() {
                assert(keys[j] == k);
            } else {
                assert(seq![key][0] == k);
            }
        }
    }
}

/// A table with more variables has a line for an option exactly where the
/// table before had one.
proof fn lemma_declared_keeps_lines(before: Seq<EntryView>, keys: Seq<Key>, after: Seq<EntryView>, key: Key)
    requires
        declared_table(before, keys, after),
    ensures
        has_line(after, key.0, key.1) == has_line(before, key.0, key.1),
        distinct_keys(before) ==> distinct_keys(after),
{
    if has_line(after, key.0, key.1) {
        let i = choose|i: int| is_line_of(after, i, key.0, key.1);
        assert(is_line_of(before, i, key.0, key.1));
    }
    if has_line(before, key.0, key.1) {
        let i = choose|i: int| is_line_of(before, i, key.0, key.1);
        assert(is_line_of(after, i, key.0, key.1));
    }
    if distinct_keys(before) {
        assert forall|i: int, j: int| 0 <= i < j < after.len() implies !((
        #[trigger] after[i]).package == (#[trigger] after[j]).package && after[i].option
            == after[j].option) by {
            assert(!(before[i].package == before[j].package && before[i].option
                == before[j].option));
        }
    }
}

/// The table `table` with a line for the switch of each of the first `n`
/// of `outlines` that had none: a truth value that has no variable yet.
pub open spec fn with_switches(table: Seq<EntryView>, outlines: Seq<PackageOutline>, n: nat) -> Seq<
    EntryView,
>
    decreases n,
{
    if n == 0 || n > outlines.len() {
        table
    } else {
        let before = with_switches(table, outlines, (n - 1) as nat);
        if has_line(before, outlines[n - 1].name@, None) {
            before
        } else {
            before.push(
                EntryView {
                    package: outlines[n - 1].name@,
                    option: None,
                    dtype: SpecOptionType::Bool,
                    variable: None,
                },
            )
        }
    }
}

/// A table that has a line for the switch of each package gets no more
/// lines for switches.
pub proof fn lemma_switches_are_there(table: Seq<EntryView>, outlines: Seq<PackageOutline>, n: nat)
    requires
        n <= outlines.len(),
        forall|i: int| 0 <= i < n ==> has_line(table, (#[trigger] outlines[i]).name@, None),
    ensures
        with_switches(table, outlines, n) == table,
    decreases n,
{
    if n > 0 {
        lemma_switches_are_there(table, outlines, (n - 1) as nat);
        assert(has_line(table, outlines[n - 1].name@, None));
    }
}

/// A table of the types that the outlines give has a line for the switch
/// of each package.
pub proof fn lemma_typed_has_switches(outlines: Seq<PackageOutline>, typed: Seq<EntryView>)
    requires
        distinct_keys(typed),
        satisfies(typed, all_facts(outlines)),
    ensures
        forall|i: int| 0 <= i < outlines.len() ==> has_line(typed, (#[trigger] outlines[i]).name@, None),
        with_switches(typed, outlines, outlines.len()) == typed,
{
    let stated = all_facts(outlines);
    assert forall|i: int| 0 <= i < outlines.len() implies has_line(
        typed,
        (#[trigger] outlines[i]).name@,
        None,
    ) by {
        let key = (outlines[i].name@, None::<Seq<char>>);
        let f = FactView::Is(key, SpecOptionType::Bool);
        assert(outline_facts(outlines[i])[0] == f);
        assert(holds_fact(outline_facts(outlines[i]), f));
        lemma_outline_held(outlines, outlines.len(), f);
        let j = choose|j: int| 0 <= j < stated.len() && #[trigger] stated[j] == f;
        assert(type_in(typed, key) == Some(SpecOptionType::Bool));
        super::constraint::typing::lemma_type_in(typed, key);
    }
    lemma_switches_are_there(typed, outlines, outlines.len());
}

/// Enters the switch of each package that has none in the registry.
fn enter_switches(outlines: &Vec<PackageOutline>, registry: &mut WipRegistry)
    requires
        old(registry).wf(),
    ensures
        final(registry).wf(),
        final(registry).descriptions() == old(registry).descriptions(),
        final(registry).versions() == old(registry).versions(),
        final(registry).table() == with_switches(old(registry).table(), outlines@, outlines@.len()),
{
    let mut i: usize = 0;
    while i < outlines.len()
        invariant
            i <= outlines.len(),
            registry.wf(),
            registry.descriptions() == old(registry).descriptions(),
            registry.versions() == old(registry).versions(),
            registry.table() == with_switches(old(registry).table(), outlines@, i as nat),
        decreases outlines.len() - i,
    {
        match registry.lookup_option(outlines[i].name.as_str(), None) {
            Some(_) => {},
            None => {
                let _ = registry.insert_option_type(
                    outlines[i].name.as_str(),
                    None,
                    SpecOptionType::Bool,
                );
            },
        }
        i = i + 1;
    }
}

impl SpecOutline {
    /// Gives each package its switch and each option its variable, and
    /// asks softly of each package that it be switched off.
    ///
    /// A switch that the registry does not know is entered as a truth
    /// value. The variable of a switch has the name of the package; that
    /// of an option the package, a slash and the option. An option that
    /// has a variable keeps it. An option that the registry does not know
    /// is an error, and the first such option is named in it; nothing is
    /// asked of the packages then.
    pub fn create_tracking_variables(&self, problem: &mut Problem, registry: &mut WipRegistry) -> (res:
        Result<(), SolverError>)
        requires
            old(registry).wf(),
        ensures
            final(registry).wf(),
            final(registry).descriptions() == old(registry).descriptions(),
            final(registry).versions() == old(registry).versions(),
            final(problem).asserted == old(problem).asserted,
            final(problem).objectives == old(problem).objectives,
            res is Ok <==> lines_for_first(
                with_switches(old(registry).table(), self.packages(), self.packages().len()),
                all_keys(self.packages()),
                all_keys(self.packages()).len() as int,
            ),
            match res {
                Ok(_) => {
                    &&& declared_table(
                        with_switches(old(registry).table(), self.packages(), self.packages().len()),
                        all_keys(self.packages()),
                        final(registry).table(),
                    )
                    &&& soft_view(final(problem).soft@) == soft_view(old(problem).soft@)
                        + toggles_first(self.packages(), self.packages().len())
                },
                Err(e) => final(problem).soft == old(problem).soft && exists|j: int|
                    0 <= j < all_keys(self.packages()).len() && lines_for_first(
                        with_switches(old(registry).table(), self.packages(), self.packages().len()),
                        all_keys(self.packages()),
                        j,
                    ) && !has_line(
                        with_switches(old(registry).table(), self.packages(), self.packages().len()),
                        (#[trigger] all_keys(self.packages())[j]).0,
                        all_keys(self.packages())[j].1,
                    ) && names_missing(e, all_keys(self.packages())[j]),
            },
    {
        let outlines = self.outlines();
        enter_switches(outlines, registry);
        let keys = gather_keys(outlines);
        let ghost start = registry.table();
        let ghost wanted = all_keys(self.packages());
        let mut j: usize = 0;
        proof {
            assert(wanted.take(0) =~= Seq::<Key>::empty());
            assert(declared_table(start, wanted.take(0), start)) by {
                assert forall|i: int| 0 <= i < start.len() implies (#[trigger] start[i]).variable
                    == match start[i].variable {
                    Some(v) => Some(v),
                    None => if holds_key(wanted.take(0), (start[i].package, start[i].option)) {
                        Some(full_name(start[i].package, start[i].option))
                    } else {
                        None
                    },
                } by {}
            }
        }
        while j < keys.len()
            invariant
                j <= keys.len(),
                registry.wf(),
                registry.descriptions() == old(registry).descriptions(),
                registry.versions() == old(registry).versions(),
                *problem == *old(problem),
                start == with_switches(
                    old(registry).table(),
                    self.packages(),
                    self.packages().len(),
                ),
                wanted == all_keys(self.packages()),
                key_views(keys@) == wanted,
                declared_table(start, wanted.take(j as int), registry.table()),
                lines_for_first(start, wanted, j as int),
            decreases keys.len() - j,
        {
            let ghost mid = registry.table();
            let ghost key = wanted[j as int];
            assert(key == (keys@[j as int].0@, text_view(keys@[j as int].1)));
            proof {
                lemma_declared_keeps_lines(start, wanted.take(j as int), mid, key);
            }
            match declare(registry, keys[j].0.as_str(), as_str_option(&keys[j].1)) {
                Err(e) => {
                    assert(!has_line(start, wanted[j as int].0, wanted[j as int].1));
                    return Err(e);
                },
                Ok(_) => {},
            }
            proof {
                lemma_declared_more(start, wanted.take(j as int), mid, key, registry.table());
                assert(wanted.take(j + 1) =~= wanted.take(j as int).push(key));
            }
            j = j + 1;
        }
        assert(wanted.take(j as int) =~= wanted);
        let ghost soft0 = soft_view(problem.soft@);
        let mut i: usize = 0;
        assert(soft_view(problem.soft@) =~= soft0 + toggles_first(outlines@, 0));
        while i < outlines.len()
            invariant
                i <= outlines.len(),
                outlines@ == self.packages(),
                problem.asserted == old(problem).asserted,
                problem.objectives == old(problem).objectives,
                soft0 == soft_view(old(problem).soft@),
                soft_view(problem.soft@) == soft0 + toggles_first(outlines@, i as nat),
            decreases outlines.len() - i,
        {
            let ghost before = soft_view(problem.soft@);
            let toggle = Term::Var(outlines[i].name.clone(), Sort::Bool);
            let term = Term::Not(Box::new(toggle));
            proof {
                reveal_with_fuel(crate::solver::term::term_view, 3);
            }
            assert(term@ == TermView::Not(
                Box::new(TermView::Var(outlines@[i as int].name@, Sort::Bool)),
            ));
            problem.soft.push((term, SOFT_PACKAGE_WEIGHT));
            assert(soft_view(problem.soft@) =~= before.push((term@, SOFT_PACKAGE_WEIGHT)));
            assert(soft_view(problem.soft@) =~= soft0 + toggles_first(outlines@, (i + 1) as nat));
            i = i + 1;
        }
        Ok(())
    }
}

/// The text that describes the assertion that `option` of `package` is
/// `value`.
pub open spec fn pin_text(package: Seq<char>, option: Seq<char>, value: ValueView) -> Seq<char> {
    "[ Package '"@ + package + "' -> Option '"@ + option + "' ] == [ "@ + value_text(value)
        + " ]"@
}

/// The assertion for a fixed option: where the package is switched on, the
/// option has the value.
pub open spec fn pin_assertion(
    table: Seq<EntryView>,
    versions: Seq<Seq<PartView>>,
    package: Seq<char>,
    option: Seq<char>,
    value: ValueView,
) -> Result<Assertion, ClauseFault> {
    match variable_term(table, package, None) {
        Err(f) => Err(f),
        Ok(toggle) => match as_truth(toggle) {
            Err(f) => Err(f),
            Ok(_) => match variable_term(table, package, Some(option)) {
                Err(f) => Err(f),
                Ok(var) => match compared(CmpType::Equal, var, literal_term(value, versions)) {
                    Err(f) => Err(f),
                    Ok(eq) => Ok(
                        Assertion {
                            term: TermView::Implies(Box::new(toggle), Box::new(eq)),
                            description: pin_text(package, option, value),
                        },
                    ),
                },
            },
        },
    }
}

/// `done` and behind it the assertions for the first `n` fixed options of
/// `package`; or the first fault.
pub open spec fn pins_into(
    done: Seq<Assertion>,
    table: Seq<EntryView>,
    versions: Seq<Seq<PartView>>,
    package: Seq<char>,
    options: Seq<(String, SpecOptionValue)>,
    n: nat,
) -> Result<Seq<Assertion>, ClauseFault>
    decreases n,
{
    if n == 0 || n > options.len() {
        Ok(done)
    } else {
        match pins_into(done, table, versions, package, options, (n - 1) as nat) {
            Err(f) => Err(f),
            Ok(list) => match pin_assertion(
                table,
                versions,
                package,
                options[n - 1].0@,
                options[n - 1].1@,
            ) {
                Err(f) => Err(f),
                Ok(a) => Ok(list.push(a)),
            },
        }
    }
}

/// The assertions for the fixed options of the first `n` of `outlines`; or
/// the first fault.
pub open spec fn all_pins_first(
    outlines: Seq<PackageOutline>,
    n: nat,
    table: Seq<EntryView>,
    versions: Seq<Seq<PartView>>,
) -> Result<Seq<Assertion>, ClauseFault>
    decreases n,
{
    if n == 0 || n > outlines.len() {
        Ok(Seq::empty())
    } else {
        match all_pins_first(outlines, (n - 1) as nat, table, versions) {
            Err(f) => Err(f),
            Ok(list) => pins_into(
                list,
                table,
                versions,
                outlines[n - 1].name@,
                outlines[n - 1].set_options@,
                outlines[n - 1].set_options@.len(),
            ),
        }
    }
}

/// The assertions that the first `n` of the packages `wanted` are switched
/// on; or the first fault.
pub open spec fn required_first(table: Seq<EntryView>, wanted: Seq<Seq<char>>, n: nat) -> Result<
    Seq<Assertion>,
    ClauseFault,
>
    decreases n,
{
    if n == 0 || n > wanted.len() {
        Ok(Seq::empty())
    } else {
        match required_first(table, wanted, (n - 1) as nat) {
            Err(f) => Err(f),
            Ok(list) => match variable_term(table, wanted[n - 1], None) {
                Err(f) => Err(f),
                Ok(toggle) => match as_truth(toggle) {
                    Err(f) => Err(f),
                    Ok(_) => Ok(
                        list.push(
                            Assertion {
                                term: toggle,
                                description: wanted[n - 1] + " required explicitly"@,
                            },
                        ),
                    ),
                },
            },
        }
    }
}

/// What the constraints of packages come to: assertions and objectives.
pub struct Planned {
    pub assertions: Seq<Assertion>,
    pub objectives: Seq<ObjectiveView>,
}

/// What is to be small or large, as a term with an order that the solver
/// can follow: an integer.
pub open spec fn objective_term(item: Constraint, table: Seq<EntryView>, versions: Seq<Seq<PartView>>) -> Result<
    TermView,
    ClauseFault,
> {
    match clause(item, table, versions) {
        Err(f) => Err(f),
        Ok(t) => match sort_of(t) {
            Some(Sort::Int) => Ok(t),
            Some(other) => Err(ClauseFault::Sort(Sort::Int, other)),
            None => Err(ClauseFault::Invalid(super::error::InvalidReason::Objective)),
        },
    }
}

/// `done` with what the constraint `c` of `package` comes to: an
/// objective, or the assertion that `c` holds where the package is
/// switched on.
pub open spec fn with_constraint(
    done: Planned,
    table: Seq<EntryView>,
    versions: Seq<Seq<PartView>>,
    package: Seq<char>,
    c: Constraint,
) -> Result<Planned, ClauseFault> {
    match c {
        Constraint::Maximize(b) => match objective_term(b.item, table, versions) {
            Err(f) => Err(f),
            Ok(t) => Ok(
                Planned { objectives: done.objectives.push(ObjectiveView::Maximize(t)), ..done },
            ),
        },
        Constraint::Minimize(b) => match objective_term(b.item, table, versions) {
            Err(f) => Err(f),
            Ok(t) => Ok(
                Planned { objectives: done.objectives.push(ObjectiveView::Minimize(t)), ..done },
            ),
        },
        _ => match variable_term(table, package, None) {
            Err(f) => Err(f),
            Ok(toggle) => match as_truth(toggle) {
                Err(f) => Err(f),
                Ok(_) => match clause(c, table, versions) {
                    Err(f) => Err(f),
                    Ok(t) => match as_truth(t) {
                        Err(f) => Err(f),
                        Ok(_) => Ok(
                            Planned {
                                assertions: done.assertions.push(
                                    Assertion {
                                        term: TermView::Implies(Box::new(toggle), Box::new(t)),
                                        description: describe(c),
                                    },
                                ),
                                ..done
                            },
                        ),
                    },
                },
            },
        },
    }
}

/// `done` with what the first `n` of the constraints of `package` come to;
/// or the first fault.
pub open spec fn constraints_into(
    done: Planned,
    table: Seq<EntryView>,
    versions: Seq<Seq<PartView>>,
    package: Seq<char>,
    constraints: Seq<Constraint>,
    n: nat,
) -> Result<Planned, ClauseFault>
    decreases n,
{
    if n == 0 || n > constraints.len() {
        Ok(done)
    } else {
        match constraints_into(done, table, versions, package, constraints, (n - 1) as nat) {
            Err(f) => Err(f),
            Ok(p) => with_constraint(p, table, versions, package, constraints[n - 1]),
        }
    }
}

/// What the constraints of the packages at the first `n` places of
/// `order` come to; or the first fault.
pub open spec fn ordered_first(
    outlines: Seq<PackageOutline>,
    order: Seq<usize>,
    n: nat,
    table: Seq<EntryView>,
    versions: Seq<Seq<PartView>>,
) -> Result<Planned, ClauseFault>
    decreases n,
{
    if n == 0 || n > order.len() {
        Ok(Planned { assertions: Seq::empty(), objectives: Seq::empty() })
    } else {
        match ordered_first(outlines, order, (n - 1) as nat, table, versions) {
            Err(f) => Err(f),
            Ok(p) => constraints_into(
                p,
                table,
                versions,
                outlines[order[n - 1] as int].name@,
                outlines[order[n - 1] as int].constraints@,
                outlines[order[n - 1] as int].constraints@.len(),
            ),
        }
    }
}

proof fn lemma_pins_into_fails(
    done: Seq<Assertion>,
    table: Seq<EntryView>,
    versions: Seq<Seq<PartView>>,
    package: Seq<char>,
    options: Seq<(String, SpecOptionValue)>,
    n: nat,
    m: nat,
)
    requires
        n <= m <= options.len(),
        pins_into(done, table, versions, package, options, n) is Err,
    ensures
        pins_into(done, table, versions, package, options, m) == pins_into(
            done,
            table,
            versions,
            package,
            options,
            n,
        ),
    decreases m - n,
{
    if n < m {
        lemma_pins_into_fails(done, table, versions, package, options, n, (m - 1) as nat);
    }
}

proof fn lemma_all_pins_first_fails(
    outlines: Seq<PackageOutline>,
    n: nat,
    m: nat,
    table: Seq<EntryView>,
    versions: Seq<Seq<PartView>>,
)
    requires
        n <= m <= outlines.len(),
        all_pins_first(outlines, n, table, versions) is Err,
    ensures
        all_pins_first(outlines, m, table, versions) == all_pins_first(outlines, n, table, versions),
    decreases m - n,
{
    if n < m {
        lemma_all_pins_first_fails(outlines, n, (m - 1) as nat, table, versions);
    }
}

proof fn lemma_required_first_fails(table: Seq<EntryView>, wanted: Seq<Seq<char>>, n: nat, m: nat)
    requires
        n <= m <= wanted.len(),
        required_first(table, wanted, n) is Err,
    ensures
        required_first(table, wanted, m) == required_first(table, wanted, n),
    decreases m - n,
{
    if n < m {
        lemma_required_first_fails(table, wanted, n, (m - 1) as nat);
    }
}

proof fn lemma_constraints_into_fails(
    done: Planned,
    table: Seq<EntryView>,
    versions: Seq<Seq<PartView>>,
    package: Seq<char>,
    constraints: Seq<Constraint>,
    n: nat,
    m: nat,
)
    requires
        n <= m <= constraints.len(),
        constraints_into(done, table, versions, package, constraints, n) is Err,
    ensures
        constraints_into(done, table, versions, package, constraints, m) == constraints_into(
            done,
            table,
            versions,
            package,
            constraints,
            n,
        ),
    decreases m - n,
{
    if n < m {
        lemma_constraints_into_fails(
            done,
            table,
            versions,
            package,
            constraints,
            n,
            (m - 1) as nat,
        );
    }
}

proof fn lemma_ordered_first_fails(
    outlines: Seq<PackageOutline>,
    order: Seq<usize>,
    n: nat,
    m: nat,
    table: Seq<EntryView>,
    versions: Seq<Seq<PartView>>,
)
    requires
        n <= m <= order.len(),
        ordered_first(outlines, order, n, table, versions) is Err,
    ensures
        ordered_first(outlines, order, m, table, versions) == ordered_first(
            outlines,
            order,
            n,
            table,
            versions,
        ),
    decreases m - n,
{
    if n < m {
        lemma_ordered_first_fails(outlines, order, n, (m - 1) as nat, table, versions);
    }
}

/// One more assertion gets the next label.
proof fn lemma_labelled_push(list: Seq<Assertion>, a: Assertion, start: nat)
    ensures
        labelled(list.push(a), start) == labelled(list, start).push(
            (a.term, decimal_text(start + list.len())),
        ),
        descriptions_of(list.push(a)) == descriptions_of(list).push(a.description),
{
    assert(labelled(list.push(a), start) =~= labelled(list, start).push(
        (a.term, decimal_text(start + list.len())),
    ));
    assert(descriptions_of(list.push(a)) =~= descriptions_of(list).push(a.description));
}

/// Whether `problem` and `registry` are what they were, with the
/// assertions `list` added: each with the label under which its
/// description was filed.
pub open spec fn asserted_more(
    before: Seq<(TermView, Seq<char>)>,
    filed: Seq<Seq<char>>,
    list: Seq<Assertion>,
    after: Seq<(TermView, Seq<char>)>,
    descriptions: Seq<Seq<char>>,
) -> bool {
    &&& after == before + labelled(list, filed.len())
    &&& descriptions == filed + descriptions_of(list)
}

proof fn lemma_asserted_none(before: Seq<(TermView, Seq<char>)>, filed: Seq<Seq<char>>)
    ensures
        asserted_more(before, filed, Seq::empty(), before, filed),
{
    assert(before =~= before + labelled(Seq::<Assertion>::empty(), filed.len()));
    assert(filed =~= filed + descriptions_of(Seq::<Assertion>::empty()));
}

proof fn lemma_asserted_one(
    before: Seq<(TermView, Seq<char>)>,
    filed: Seq<Seq<char>>,
    list: Seq<Assertion>,
    mid: Seq<(TermView, Seq<char>)>,
    descriptions: Seq<Seq<char>>,
    a: Assertion,
)
    requires
        asserted_more(before, filed, list, mid, descriptions),
    ensures
        asserted_more(
            before,
            filed,
            list.push(a),
            mid.push((a.term, decimal_text(descriptions.len()))),
            descriptions.push(a.description),
        ),
{
    lemma_labelled_push(list, a, filed.len());
    assert(mid.push((a.term, decimal_text(descriptions.len()))) =~= before + labelled(
        list.push(a),
        filed.len(),
    ));
    assert(descriptions.push(a.description) =~= filed + descriptions_of(list.push(a)));
}

fn write_pin_text(package: &str, option: &str, value: &SpecOptionValue) -> (s: String)
    ensures
        s@ == pin_text(package@, option@, value@),
{
    let mut s = String::from_str("[ Package '");
    s.append(package);
    s.append("' -> Option '");
    s.append(option);
    s.append("' ] == [ ");
    s.append(value.to_text().as_str());
    s.append(" ]");
    s
}

fn pin_term(registry: &BuiltRegistry, package: &str, option: &str, value: &SpecOptionValue) -> (res:
    Result<Term, SolverError>)
    requires
        registry.wf(),
    ensures
        match res {
            Ok(t) => pin_assertion(
                registry.table(),
                registry.versions().interned(),
                package@,
                option@,
                value@,
            ) matches Ok(a) && a.term == t@ && sort_of(t@) == Some(Sort::Bool),
            Err(e) => clause_fault_of(e) matches Some(f) && pin_assertion(
                registry.table(),
                registry.versions().interned(),
                package@,
                option@,
                value@,
            ) == Err::<Assertion, ClauseFault>(f),
        },
{
    let toggle = match variable_of(registry, package, None) {
        Ok(t) => t,
        Err(e) => {
            return Err(e);
        },
    };
    match toggle.sort() {
        Some(Sort::Bool) => {},
        Some(other) => {
            return Err(SolverError::IncorrectSolverType { expected: Sort::Bool, received: other });
        },
        None => {
            return Err(
                SolverError::InvalidConstraint(super::error::InvalidReason::NotBoolean),
            );
        },
    }
    let var = match variable_of(registry, package, Some(option)) {
        Ok(t) => t,
        Err(e) => {
            return Err(e);
        },
    };
    let lit = literal_of(value, registry);
    let eq = match equal_terms(var, lit) {
        Ok(t) => t,
        Err(e) => {
            return Err(e);
        },
    };
    let ghost tv = toggle@;
    let ghost ev = eq@;
    let t = Term::Implies(Box::new(toggle), Box::new(eq));
    proof {
        reveal_with_fuel(term_view, 2);
        reveal_with_fuel(sort_of, 2);
    }
    assert(t@ == TermView::Implies(Box::new(tv), Box::new(ev)));
    Ok(t)
}

fn equal_terms(a: Term, b: Term) -> (res: Result<Term, SolverError>)
    ensures
        agrees(res, compared(CmpType::Equal, a@, b@)),
{
    match (a.sort(), b.sort()) {
        (Some(x), Some(y)) => {
            if x != y {
                Err(SolverError::IncorrectSolverType { expected: x, received: y })
            } else {
                let ghost av = a@;
                let ghost bv = b@;
                let t = Term::Eq(Box::new(a), Box::new(b));
                proof {
                    reveal_with_fuel(term_view, 2);
                    reveal_with_fuel(sort_of, 2);
                }
                assert(t@ == TermView::Eq(Box::new(av), Box::new(bv)));
                Ok(t)
            }
        },
        _ => Err(SolverError::InvalidConstraint(super::error::InvalidReason::NotBoolean)),
    }
}

fn truth_term(registry: &BuiltRegistry, package: &str) -> (res: Result<Term, SolverError>)
    requires
        registry.wf(),
    ensures
        match res {
            Ok(t) => variable_term(registry.table(), package@, None) == Ok::<
                TermView,
                ClauseFault,
            >(t@) && as_truth(t@) is Ok && sort_of(t@) == Some(Sort::Bool),
            Err(e) => clause_fault_of(e) matches Some(f) && (match variable_term(
                registry.table(),
                package@,
                None,
            ) {
                Err(g) => g == f,
                Ok(t) => as_truth(t) == Err::<TermView, ClauseFault>(f),
            }),
        },
{
    let toggle = match variable_of(registry, package, None) {
        Ok(t) => t,
        Err(e) => {
            return Err(e);
        },
    };
    match toggle.sort() {
        Some(Sort::Bool) => Ok(toggle),
        Some(other) => Err(
            SolverError::IncorrectSolverType { expected: Sort::Bool, received: other },
        ),
        None => Err(SolverError::InvalidConstraint(super::error::InvalidReason::NotBoolean)),
    }
}

impl SpecOutline {
    /// Asserts each fixed option: where the package is switched on, the
    /// option has its value.
    pub fn handle_explicit_options(&self, problem: &mut Problem, registry: &mut BuiltRegistry) -> (res:
        Result<(), SolverError>)
        requires
            old(registry).wf(),
        ensures
            final(registry).wf(),
            final(registry).table() == old(registry).table(),
            final(registry).versions() == old(registry).versions(),
            final(problem).soft == old(problem).soft,
            final(problem).objectives == old(problem).objectives,
            match res {
                Ok(_) => all_pins_first(
                    self.packages(),
                    self.packages().len(),
                    old(registry).table(),
                    old(registry).versions().interned(),
                ) matches Ok(list) && asserted_more(
                    labelled_view(old(problem).asserted@),
                    old(registry).descriptions(),
                    list,
                    labelled_view(final(problem).asserted@),
                    final(registry).descriptions(),
                ),
                Err(e) => clause_fault_of(e) matches Some(f) && all_pins_first(
                    self.packages(),
                    self.packages().len(),
                    old(registry).table(),
                    old(registry).versions().interned(),
                ) == Err::<Seq<Assertion>, ClauseFault>(f),
            },
    {
        let outlines = self.outlines();
        let ghost table = registry.table();
        let ghost versions = registry.versions().interned();
        let ghost before = labelled_view(problem.asserted@);
        let ghost filed = registry.descriptions();
        let ghost mut list: Seq<Assertion> = Seq::empty();
        proof {
            lemma_asserted_none(before, filed);
        }
        let mut i: usize = 0;
        while i < outlines.len()
            invariant
                i <= outlines.len(),
                outlines@ == self.packages(),
                registry.wf(),
                registry.table() == table,
                registry.versions() == old(registry).versions(),
                versions == registry.versions().interned(),
                problem.soft == old(problem).soft,
                problem.objectives == old(problem).objectives,
                before == labelled_view(old(problem).asserted@),
                filed == old(registry).descriptions(),
                table == old(registry).table(),
                all_pins_first(outlines@, i as nat, table, versions) == Ok::<
                    Seq<Assertion>,
                    ClauseFault,
                >(list),
                asserted_more(
                    before,
                    filed,
                    list,
                    labelled_view(problem.asserted@),
                    registry.descriptions(),
                ),
            decreases outlines.len() - i,
        {
            let o = &outlines[i];
            let ghost done = list;
            let mut k: usize = 0;
            while k < o.set_options.len()
                invariant
                    k <= o.set_options.len(),
                    i < outlines.len(),
                    outlines@ == self.packages(),
                    *o == outlines@[i as int],
                    registry.wf(),
                    registry.table() == table,
                    registry.versions() == old(registry).versions(),
                    versions == registry.versions().interned(),
                    problem.soft == old(problem).soft,
                    problem.objectives == old(problem).objectives,
                    before == labelled_view(old(problem).asserted@),
                    filed == old(registry).descriptions(),
                    table == old(registry).table(),
                    all_pins_first(outlines@, i as nat, table, versions) == Ok::<
                        Seq<Assertion>,
                        ClauseFault,
                    >(done),
                    pins_into(done, table, versions, o.name@, o.set_options@, k as nat) == Ok::<
                        Seq<Assertion>,
                        ClauseFault,
                    >(list),
                    asserted_more(
                        before,
                        filed,
                        list,
                        labelled_view(problem.asserted@),
                        registry.descriptions(),
                    ),
                decreases o.set_options.len() - k,
            {
                let (option, value) = &o.set_options[k];
                match pin_term(registry, o.name.as_str(), option.as_str(), value) {
                    Err(e) => {
                        proof {
                            lemma_pins_into_fails(
                                done,
                                table,
                                versions,
                                o.name@,
                                o.set_options@,
                                (k + 1) as nat,
                                o.set_options@.len(),
                            );
                            lemma_all_pins_first_fails(
                                outlines@,
                                (i + 1) as nat,
                                outlines@.len(),
                                table,
                                versions,
                            );
                        }
                        return Err(e);
                    },
                    Ok(term) => {
                        let description = write_pin_text(
                            o.name.as_str(),
                            option.as_str(),
                            value,
                        );
                        proof {
                            let a = pin_assertion(table, versions, o.name@, option@, value@)->Ok_0;
                            lemma_asserted_one(
                                before,
                                filed,
                                list,
                                labelled_view(problem.asserted@),
                                registry.descriptions(),
                                a,
                            );
                            list = list.push(a);
                        }
                        problem.track(registry, term, description);
                    },
                }
                k = k + 1;
            }
            i = i + 1;
        }
        Ok(())
    }

    /// Asserts of each package that was asked for that it is switched on.
    pub fn require_packages(&self, problem: &mut Problem, registry: &mut BuiltRegistry) -> (res:
        Result<(), SolverError>)
        requires
            old(registry).wf(),
        ensures
            final(registry).wf(),
            final(registry).table() == old(registry).table(),
            final(registry).versions() == old(registry).versions(),
            final(problem).soft == old(problem).soft,
            final(problem).objectives == old(problem).objectives,
            match res {
                Ok(_) => required_first(
                    old(registry).table(),
                    self.wanted(),
                    self.wanted().len(),
                ) matches Ok(list) && asserted_more(
                    labelled_view(old(problem).asserted@),
                    old(registry).descriptions(),
                    list,
                    labelled_view(final(problem).asserted@),
                    final(registry).descriptions(),
                ),
                Err(e) => clause_fault_of(e) matches Some(f) && required_first(
                    old(registry).table(),
                    self.wanted(),
                    self.wanted().len(),
                ) == Err::<Seq<Assertion>, ClauseFault>(f),
            },
    {
        let required = self.required_names();
        let ghost wanted = self.wanted();
        let ghost table = registry.table();
        let ghost before = labelled_view(problem.asserted@);
        let ghost filed = registry.descriptions();
        let ghost mut list: Seq<Assertion> = Seq::empty();
        proof {
            lemma_asserted_none(before, filed);
        }
        let mut i: usize = 0;
        while i < required.len()
            invariant
                i <= required.len(),
                wanted == self.wanted(),
                wanted == crate::package::constraint::tree::texts(required@),
                registry.wf(),
                registry.table() == table,
                registry.versions() == old(registry).versions(),
                problem.soft == old(problem).soft,
                problem.objectives == old(problem).objectives,
                before == labelled_view(old(problem).asserted@),
                filed == old(registry).descriptions(),
                table == old(registry).table(),
                required_first(table, wanted, i as nat) == Ok::<Seq<Assertion>, ClauseFault>(list),
                asserted_more(
                    before,
                    filed,
                    list,
                    labelled_view(problem.asserted@),
                    registry.descriptions(),
                ),
            decreases required.len() - i,
        {
            let name = &required[i];
            assert(wanted[i as int] == name@);
            match truth_term(registry, name.as_str()) {
                Err(e) => {
                    proof {
                        lemma_required_first_fails(table, wanted, (i + 1) as nat, wanted.len());
                    }
                    return Err(e);
                },
                Ok(term) => {
                    let mut description = name.clone();
                    description.append(" required explicitly");
                    proof {
                        let a = Assertion {
                            term: term@,
                            description: name@ + " required explicitly"@,
                        };
                        lemma_asserted_one(
                            before,
                            filed,
                            list,
                            labelled_view(problem.asserted@),
                            registry.descriptions(),
                            a,
                        );
                        list = list.push(a);
                    }
                    problem.track(registry, term, description);
                },
            }
            i = i + 1;
        }
        Ok(())
    }
}

fn objective_of(item: &Constraint, registry: &BuiltRegistry) -> (res: Result<Term, SolverError>)
    requires
        registry.wf(),
    ensures
        agrees(res, objective_term(*item, registry.table(), registry.versions().interned())),
{
    match item.to_clause(registry) {
        Err(e) => Err(e),
        Ok(t) => match t.sort() {
            Some(Sort::Int) => Ok(t),
            Some(other) => Err(
                SolverError::IncorrectSolverType { expected: Sort::Int, received: other },
            ),
            None => Err(SolverError::InvalidConstraint(super::error::InvalidReason::Objective)),
        },
    }
}

fn guarded_clause(c: &Constraint, package: &str, registry: &BuiltRegistry) -> (res: Result<
    Term,
    SolverError,
>)
    requires
        registry.wf(),
        !(*c is Maximize),
        !(*c is Minimize),
    ensures
        match res {
            Ok(t) => forall|done: Planned|
                #[trigger] with_constraint(
                    done,
                    registry.table(),
                    registry.versions().interned(),
                    package@,
                    *c,
                ) == Ok::<Planned, ClauseFault>(
                    Planned {
                        assertions: done.assertions.push(
                            Assertion { term: t@, description: describe(*c) },
                        ),
                        ..done
                    },
                ),
            Err(e) => clause_fault_of(e) matches Some(f) && forall|done: Planned|
                #[trigger] with_constraint(
                    done,
                    registry.table(),
                    registry.versions().interned(),
                    package@,
                    *c,
                ) == Err::<Planned, ClauseFault>(f),
        },
{
    let toggle = match truth_term(registry, package) {
        Ok(t) => t,
        Err(e) => {
            return Err(e);
        },
    };
    let body = match c.to_clause(registry) {
        Ok(t) => t,
        Err(e) => {
            return Err(e);
        },
    };
    match truth_of(&body) {
        Ok(_) => {},
        Err(e) => {
            return Err(e);
        },
    }
    let ghost tv = toggle@;
    let ghost bv = body@;
    let t = Term::Implies(Box::new(toggle), Box::new(body));
    proof {
        reveal_with_fuel(term_view, 2);
    }
    assert(t@ == TermView::Implies(Box::new(tv), Box::new(bv)));
    Ok(t)
}

/// Whether `problem` and `registry` are what they were, with what the
/// constraints of the packages come to added, the packages taken in the
/// order `order`.
pub open spec fn constraints_added(
    outlines: Seq<PackageOutline>,
    order: Seq<usize>,
    table: Seq<EntryView>,
    versions: Seq<Seq<PartView>>,
    before: Seq<(TermView, Seq<char>)>,
    filed: Seq<Seq<char>>,
    objectives: Seq<ObjectiveView>,
    after: Seq<(TermView, Seq<char>)>,
    descriptions: Seq<Seq<char>>,
    objectives_after: Seq<ObjectiveView>,
) -> bool {
    ordered_first(outlines, order, order.len(), table, versions) matches Ok(p) && asserted_more(
        before,
        filed,
        p.assertions,
        after,
        descriptions,
    ) && objectives_after == objectives + p.objectives
}

impl SpecOutline {
    /// Asserts the constraints of each package, to hold where the package
    /// is switched on, and hands the objectives to the problem. The
    /// packages are taken in an order in which each stands before the
    /// packages it depends on.
    pub fn add_constraints(&self, problem: &mut Problem, registry: &mut BuiltRegistry) -> (res:
        Result<(), SolverError>)
        requires
            self.wf(),
            old(registry).wf(),
        ensures
            final(registry).wf(),
            final(registry).table() == old(registry).table(),
            final(registry).versions() == old(registry).versions(),
            final(problem).soft == old(problem).soft,
            match res {
                Ok(_) => exists|order: Seq<usize>|
                    #[trigger] is_topological(order, self.packages().len(), self.edges())
                        && constraints_added(
                        self.packages(),
                        order,
                        old(registry).table(),
                        old(registry).versions().interned(),
                        labelled_view(old(problem).asserted@),
                        old(registry).descriptions(),
                        objectives_view(old(problem).objectives@),
                        labelled_view(final(problem).asserted@),
                        final(registry).descriptions(),
                        objectives_view(final(problem).objectives@),
                    ),
                Err(e) => if e is Cycle {
                    exists|path: Seq<usize>| #[trigger] is_cycle(path, self.edges())
                } else {
                    clause_fault_of(e) is Some && exists|order: Seq<usize>|
                        #[trigger] is_topological(order, self.packages().len(), self.edges())
                            && ordered_first(
                            self.packages(),
                            order,
                            order.len(),
                            old(registry).table(),
                            old(registry).versions().interned(),
                        ) == Err::<Planned, ClauseFault>(clause_fault_of(e)->0)
                },
            },
    {
        let outlines = self.outlines();
        let sorted = match self.sorted() {
            Ok(sorted) => sorted,
            Err(_) => {
                return Err(SolverError::Cycle);
            },
        };
        let ghost order = sorted@;
        let ghost table = registry.table();
        let ghost versions = registry.versions().interned();
        let ghost before = labelled_view(problem.asserted@);
        let ghost filed = registry.descriptions();
        let ghost aims = objectives_view(problem.objectives@);
        let ghost mut planned = Planned { assertions: Seq::empty(), objectives: Seq::empty() };
        proof {
            lemma_asserted_none(before, filed);
            assert(aims =~= aims + planned.objectives);
        }
        let mut i: usize = 0;
        while i < sorted.len()
            invariant
                i <= sorted.len(),
                order == sorted@,
                outlines@ == self.packages(),
                is_topological(order, self.packages().len(), self.edges()),
                registry.wf(),
                registry.table() == table,
                registry.versions() == old(registry).versions(),
                versions == registry.versions().interned(),
                problem.soft == old(problem).soft,
                before == labelled_view(old(problem).asserted@),
                filed == old(registry).descriptions(),
                aims == objectives_view(old(problem).objectives@),
                table == old(registry).table(),
                ordered_first(outlines@, order, i as nat, table, versions) == Ok::<
                    Planned,
                    ClauseFault,
                >(planned),
                asserted_more(
                    before,
                    filed,
                    planned.assertions,
                    labelled_view(problem.asserted@),
                    registry.descriptions(),
                ),
                objectives_view(problem.objectives@) == aims + planned.objectives,
            decreases sorted.len() - i,
        {
            let at = sorted[i];
            assert(order[i as int] < outlines@.len());
            let o = &outlines[at];
            let ghost done = planned;
            let mut k: usize = 0;
            while k < o.constraints.len()
                invariant
                    k <= o.constraints.len(),
                    i < sorted.len(),
                    order == sorted@,
                    at == order[i as int],
                    at < outlines@.len(),
                    outlines@ == self.packages(),
                    *o == outlines@[at as int],
                    is_topological(order, self.packages().len(), self.edges()),
                    registry.wf(),
                    registry.table() == table,
                    registry.versions() == old(registry).versions(),
                    versions == registry.versions().interned(),
                    problem.soft == old(problem).soft,
                    before == labelled_view(old(problem).asserted@),
                    filed == old(registry).descriptions(),
                    aims == objectives_view(old(problem).objectives@),
                    table == old(registry).table(),
                    ordered_first(outlines@, order, i as nat, table, versions) == Ok::<
                        Planned,
                        ClauseFault,
                    >(done),
                    constraints_into(done, table, versions, o.name@, o.constraints@, k as nat)
                        == Ok::<Planned, ClauseFault>(planned),
                    asserted_more(
                        before,
                        filed,
                        planned.assertions,
                        labelled_view(problem.asserted@),
                        registry.descriptions(),
                    ),
                    objectives_view(problem.objectives@) == aims + planned.objectives,
                decreases o.constraints.len() - k,
            {
                let c = &o.constraints[k];
                let ghost was = planned;
                let outcome = match c {
                    Constraint::Maximize(b) => match objective_of(&b.item, registry) {
                        Err(e) => Err(e),
                        Ok(t) => {
                            let ghost sofar = objectives_view(problem.objectives@);
                            proof {
                                planned = Planned {
                                    objectives: was.objectives.push(ObjectiveView::Maximize(t@)),
                                    ..was
                                };
                            }
                            problem.objectives.push(Objective::Maximize(t));
                            assert(objectives_view(problem.objectives@) =~= sofar.push(
                                ObjectiveView::Maximize(t@),
                            ));
                            assert(objectives_view(problem.objectives@) =~= aims
                                + planned.objectives);
                            Ok(())
                        },
                    },
                    Constraint::Minimize(b) => match objective_of(&b.item, registry) {
                        Err(e) => Err(e),
                        Ok(t) => {
                            let ghost sofar = objectives_view(problem.objectives@);
                            proof {
                                planned = Planned {
                                    objectives: was.objectives.push(ObjectiveView::Minimize(t@)),
                                    ..was
                                };
                            }
                            problem.objectives.push(Objective::Minimize(t));
                            assert(objectives_view(problem.objectives@) =~= sofar.push(
                                ObjectiveView::Minimize(t@),
                            ));
                            assert(objectives_view(problem.objectives@) =~= aims
                                + planned.objectives);
                            Ok(())
                        },
                    },
                    _ => match guarded_clause(c, o.name.as_str(), registry) {
                        Err(e) => Err(e),
                        Ok(term) => {
                            let description = c.to_text();
                            proof {
                                let a = Assertion { term: term@, description: describe(*c) };
                                lemma_asserted_one(
                                    before,
                                    filed,
                                    was.assertions,
                                    labelled_view(problem.asserted@),
                                    registry.descriptions(),
                                    a,
                                );
                                planned = Planned { assertions: was.assertions.push(a), ..was };
                                assert(with_constraint(was, table, versions, o.name@, *c) == Ok::<
                                    Planned,
                                    ClauseFault,
                                >(planned));
                            }
                            problem.track(registry, term, description);
                            Ok(())
                        },
                    },
                };
                match outcome {
                    Err(e) => {
                        proof {
                            assert(with_constraint(was, table, versions, o.name@, *c) == Err::<
                                Planned,
                                ClauseFault,
                            >(clause_fault_of(e)->0));
                            lemma_constraints_into_fails(
                                done,
                                table,
                                versions,
                                o.name@,
                                o.constraints@,
                                (k + 1) as nat,
                                o.constraints@.len(),
                            );
                            lemma_ordered_first_fails(
                                outlines@,
                                order,
                                (i + 1) as nat,
                                order.len(),
                                table,
                                versions,
                            );
                            assert(is_topological(order, self.packages().len(), self.edges()));
                        }
                        return Err(e);
                    },
                    Ok(_) => {},
                }
                k = k + 1;
            }
            i = i + 1;
        }
        proof {
            assert(is_topological(order, self.packages().len(), self.edges()));
            assert(constraints_added(
                self.packages(),
                order,
                table,
                versions,
                before,
                filed,
                aims,
                labelled_view(problem.asserted@),
                registry.descriptions(),
                objectives_view(problem.objectives@),
            ));
        }
        Ok(())
    }
}

/// Assertions added and then more added are all of them added.
proof fn lemma_asserted_chain(
    before: Seq<(TermView, Seq<char>)>,
    filed: Seq<Seq<char>>,
    first: Seq<Assertion>,
    mid: Seq<(TermView, Seq<char>)>,
    noted: Seq<Seq<char>>,
    second: Seq<Assertion>,
    after: Seq<(TermView, Seq<char>)>,
    descriptions: Seq<Seq<char>>,
)
    requires
        asserted_more(before, filed, first, mid, noted),
        asserted_more(mid, noted, second, after, descriptions),
    ensures
        asserted_more(before, filed, first + second, after, descriptions),
{
    assert(noted.len() == filed.len() + first.len());
    assert(labelled(first + second, filed.len()) =~= labelled(first, filed.len()) + labelled(
        second,
        noted.len(),
    ));
    assert(after =~= before + labelled(first + second, filed.len()));
    assert(descriptions_of(first + second) =~= descriptions_of(first) + descriptions_of(second));
    assert(descriptions =~= filed + descriptions_of(first + second));
}

/// Whether `asserted`, `filed` and `aims` are the whole of what the
/// outlines ask for, given the table `typed` of the types, the table
/// `table` with the variables, the numbered versions `versions`, and the
/// order `order` of the packages: the fixed options, then the packages
/// that were asked for, then the constraints, each assertion under the
/// number of its description.
pub open spec fn planned_for(
    outlines: Seq<PackageOutline>,
    wanted: Seq<Seq<char>>,
    edges: Seq<(usize, usize)>,
    typed: Seq<EntryView>,
    order: Seq<usize>,
    table: Seq<EntryView>,
    versions: Seq<Seq<PartView>>,
    asserted: Seq<(TermView, Seq<char>)>,
    filed: Seq<Seq<char>>,
    aims: Seq<ObjectiveView>,
) -> bool {
    &&& typed_for(outlines, typed)
    &&& lines_for_first(typed, all_keys(outlines), all_keys(outlines).len() as int)
    &&& declared_table(typed, all_keys(outlines), table)
    &&& numbered_for(outlines, versions)
    &&& is_topological(order, outlines.len(), edges)
    &&& all_pins_first(outlines, outlines.len(), table, versions) is Ok
    &&& required_first(table, wanted, wanted.len()) is Ok
    &&& ordered_first(outlines, order, order.len(), table, versions) is Ok
    &&& asserted_more(
        Seq::empty(),
        Seq::empty(),
        all_pins_first(outlines, outlines.len(), table, versions)->Ok_0 + required_first(
            table,
            wanted,
            wanted.len(),
        )->Ok_0 + ordered_first(outlines, order, order.len(), table, versions)->Ok_0.assertions,
        asserted,
        filed,
    )
    &&& aims == ordered_first(outlines, order, order.len(), table, versions)->Ok_0.objectives
}

/// Whether `typed` is a table of the types of the options as the
/// outlines tell them: each line is told by the facts, the facts hold of
/// it, and each constraint is well typed under it.
pub open spec fn typed_for(outlines: Seq<PackageOutline>, typed: Seq<EntryView>) -> bool {
    &&& table_for(Seq::empty(), all_facts(outlines), typed)
    &&& all_well_typed(outlines, typed)
}

/// Whether `versions` are the numbered versions of the outlines: those
/// that the outlines write out and that can be ordered, in their order.
pub open spec fn numbered_for(outlines: Seq<PackageOutline>, versions: Seq<Seq<PartView>>) -> bool {
    &&& !holds_clash(all_versions_first(outlines, outlines.len()))
    &&& strictly_sorted(versions)
    &&& numbers_cover(versions, all_versions_first(outlines, outlines.len()))
}

/// Whether `e` is the error with which the work on the outlines ends
/// before there is a problem for the solver, given what the work had come
/// to: the table `typed` of the types, the table `table` with the
/// variables, the numbered versions `versions`, and the order `order` of
/// the packages. The steps are taken in turn, and each error belongs to
/// the first step that fails:
///
/// - the types: there is no table of the types under which each
///   constraint is well typed, because two facts give one option two
///   types, or a fact names options of which none has a type, or a
///   constraint is not well typed;
/// - the variables: an option that needs one has no line in the table;
/// - the versions: two of them cannot be ordered against each other;
/// - the fixed options, the packages that were asked for, and the
///   constraints, in this order: one of them cannot be written as a term;
///   or, for the constraints, the packages depend on each other in a
///   circle.
pub open spec fn refused_at(
    outlines: Seq<PackageOutline>,
    wanted: Seq<Seq<char>>,
    edges: Seq<(usize, usize)>,
    typed: Seq<EntryView>,
    table: Seq<EntryView>,
    versions: Seq<Seq<PartView>>,
    order: Seq<usize>,
    e: SolverError,
) -> bool {
    let stated = all_facts(outlines);
    let keys = all_keys(outlines);
    ||| {
        &&& !well_typed_over(Seq::empty(), outlines)
        &&& grounded(Seq::empty(), stated, typed)
        &&& {
            ||| e is IncorrectConstraintType && conflicting(Seq::empty(), stated)
            ||| e is UnknownType && exists|i: int| leaves_open(typed, stated, i)
            ||| tells_fault(e, outlines, typed)
        }
    }
    ||| {
        &&& typed_for(outlines, typed)
        &&& exists|j: int|
            0 <= j < keys.len() && lines_for_first(typed, keys, j) && !has_line(
                typed,
                (#[trigger] keys[j]).0,
                keys[j].1,
            ) && names_missing(e, keys[j])
    }
    ||| {
        &&& typed_for(outlines, typed)
        &&& declared_table(typed, keys, table)
        &&& holds_clash(all_versions_first(outlines, outlines.len()))
        &&& e matches SolverError::InvalidConstraint(InvalidReason::VersionOrder)
    }
    ||| {
        &&& typed_for(outlines, typed)
        &&& declared_table(typed, keys, table)
        &&& numbered_for(outlines, versions)
        &&& clause_fault_of(e) is Some
        &&& match all_pins_first(outlines, outlines.len(), table, versions) {
            Err(f) => clause_fault_of(e) == Some(f),
            Ok(_) => match required_first(table, wanted, wanted.len()) {
                Err(f) => clause_fault_of(e) == Some(f),
                Ok(_) => is_topological(order, outlines.len(), edges) && ordered_first(
                    outlines,
                    order,
                    order.len(),
                    table,
                    versions,
                ) == Err::<Planned, ClauseFault>(clause_fault_of(e)->0),
            },
        }
    }
    ||| {
        &&& typed_for(outlines, typed)
        &&& declared_table(typed, keys, table)
        &&& numbered_for(outlines, versions)
        &&& all_pins_first(outlines, outlines.len(), table, versions) is Ok
        &&& required_first(table, wanted, wanted.len()) is Ok
        &&& e is Cycle
        &&& exists|path: Seq<usize>| #[trigger] is_cycle(path, edges)
    }
}

/// Whether `e` is an error with which the work on the outlines ends
/// before there is a problem for the solver.
pub open spec fn refused(
    outlines: Seq<PackageOutline>,
    wanted: Seq<Seq<char>>,
    edges: Seq<(usize, usize)>,
    e: SolverError,
) -> bool {
    exists|
        typed: Seq<EntryView>,
        table: Seq<EntryView>,
        versions: Seq<Seq<PartView>>,
        order: Seq<usize>,
    |
        #[trigger] refused_at(outlines, wanted, edges, typed, table, versions, order, e)
}

impl SpecOutline {
    /// Writes down the problem for the solver: the types are told, the
    /// variables are made, and what the outlines ask for is asserted. The
    /// registry that comes with the problem has the descriptions of the
    /// assertions.
    ///
    /// The steps are taken in turn; the first that fails ends the work,
    /// and its error is handed out.
    pub fn gen_spec_solver(&self) -> (res: Result<(Problem, BuiltRegistry), SolverError>)
        requires
            self.wf(),
        ensures
            match res {
                Ok((problem, registry)) => {
                    &&& registry.wf()
                    &&& labels_match(problem.asserted@, registry.descriptions())
                    &&& soft_view(problem.soft@) == toggles_first(
                        self.packages(),
                        self.packages().len(),
                    )
                    &&& exists|typed: Seq<EntryView>, order: Seq<usize>|
                        #[trigger] planned_for(
                            self.packages(),
                            self.wanted(),
                            self.edges(),
                            typed,
                            order,
                            registry.table(),
                            registry.versions().interned(),
                            labelled_view(problem.asserted@),
                            registry.descriptions(),
                            objectives_view(problem.objectives@),
                        )
                },
                Err(e) => refused(self.packages(), self.wanted(), self.edges(), e),
            },
    {
        let ghost outlines = self.packages();
        let ghost wanted = self.wanted();
        let ghost edges = self.edges();
        let ghost blank: Seq<Seq<PartView>> = Seq::empty();
        let ghost idle: Seq<usize> = Seq::empty();
        let mut problem = Problem::new();
        let mut wip = WipRegistry::new();
        assert(wip.table() =~= Seq::empty());
        assert(wip.versions().pushed() =~= Seq::empty());
        match self.type_check(&mut wip) {
            Err(e) => {
                assert(refused_at(outlines, wanted, edges, wip.table(), wip.table(), blank, idle, e));
                return Err(e);
            },
            Ok(_) => {},
        }
        let ghost typed = wip.table();
        let ghost noted = wip.versions().pushed();
        assert(noted =~= all_versions_first(outlines, outlines.len()));
        assert(typed_for(outlines, typed));
        proof {
            lemma_typed_has_switches(outlines, typed);
        }
        match self.create_tracking_variables(&mut problem, &mut wip) {
            Err(e) => {
                assert(refused_at(outlines, wanted, edges, typed, typed, blank, idle, e));
                return Err(e);
            },
            Ok(_) => {},
        }
        let ghost table = wip.table();
        assert(soft_view(problem.soft@) =~= toggles_first(self.packages(), self.packages().len()));
        let mut registry = match wip.build() {
            Ok(registry) => registry,
            Err(e) => {
                assert(refused_at(outlines, wanted, edges, typed, table, blank, idle, e));
                return Err(e);
            },
        };
        assert(numbered_for(outlines, registry.versions().interned()));
        let ghost versions = registry.versions().interned();
        let ghost none = labelled_view(problem.asserted@);
        let ghost filed0 = registry.descriptions();
        assert(none =~= Seq::empty());
        assert(filed0 =~= Seq::empty());
        match self.handle_explicit_options(&mut problem, &mut registry) {
            Err(e) => {
                assert(refused_at(outlines, wanted, edges, typed, table, versions, idle, e));
                return Err(e);
            },
            Ok(_) => {},
        }
        let ghost pins = all_pins_first(self.packages(), self.packages().len(), table, versions)->Ok_0;
        let ghost pinned = labelled_view(problem.asserted@);
        let ghost filed1 = registry.descriptions();
        match self.require_packages(&mut problem, &mut registry) {
            Err(e) => {
                assert(refused_at(outlines, wanted, edges, typed, table, versions, idle, e));
                return Err(e);
            },
            Ok(_) => {},
        }
        let ghost reqs = required_first(table, self.wanted(), self.wanted().len())->Ok_0;
        let ghost required = labelled_view(problem.asserted@);
        let ghost filed2 = registry.descriptions();
        let ghost aims0 = objectives_view(problem.objectives@);
        assert(aims0 =~= Seq::empty());
        match self.add_constraints(&mut problem, &mut registry) {
            Err(e) => {
                proof {
                    if e is Cycle {
                        assert(refused_at(outlines, wanted, edges, typed, table, versions, idle, e));
                    } else {
                        let order = choose|order: Seq<usize>|
                            #[trigger] is_topological(order, outlines.len(), edges)
                                && ordered_first(outlines, order, order.len(), table, versions)
                                == Err::<Planned, ClauseFault>(clause_fault_of(e)->0);
                        assert(refused_at(
                            outlines,
                            wanted,
                            edges,
                            typed,
                            table,
                            versions,
                            order,
                            e,
                        ));
                    }
                }
                return Err(e);
            },
            Ok(_) => {},
        }
        proof {
            let order = choose|order: Seq<usize>|
                #[trigger] is_topological(order, self.packages().len(), self.edges())
                    && constraints_added(
                    self.packages(),
                    order,
                    table,
                    versions,
                    required,
                    filed2,
                    aims0,
                    labelled_view(problem.asserted@),
                    registry.descriptions(),
                    objectives_view(problem.objectives@),
                );
            let planned = ordered_first(self.packages(), order, order.len(), table, versions)->Ok_0;
            lemma_asserted_chain(none, filed0, pins, pinned, filed1, reqs, required, filed2);
            lemma_asserted_chain(
                none,
                filed0,
                pins + reqs,
                required,
                filed2,
                planned.assertions,
                labelled_view(problem.asserted@),
                registry.descriptions(),
            );
            assert(objectives_view(problem.objectives@) =~= planned.objectives);
            assert(planned_for(
                self.packages(),
                self.wanted(),
                self.edges(),
                typed,
                order,
                registry.table(),
                registry.versions().interned(),
                labelled_view(problem.asserted@),
                registry.descriptions(),
                objectives_view(problem.objectives@),
            ));
            let list = pins + reqs + planned.assertions;
            assert(labelled_view(problem.asserted@) =~= labelled(list, 0));
            assert(registry.descriptions() =~= descriptions_of(list));
            assert forall|k: int| 0 <= k < problem.asserted@.len() implies (
            #[trigger] problem.asserted@[k]).1@ == decimal_text(k as nat) by {
                assert(labelled_view(problem.asserted@)[k] == (
                    problem.asserted@[k].0@,
                    problem.asserted@[k].1@,
                ));
            }
        }
        Ok((problem, registry))
    }

    /// Finds a plan for the outlines: which packages are switched on, and
    /// the values of their options.
    ///
    /// The plan is read off an answer of the solver to the problem that
    /// the outlines come to. Where there is no plan, the error holds the
    /// descriptions of assertions that exclude each other; each of them is
    /// the description of a constraint, of a fixed option, or of a package
    /// that was asked for.
    pub fn solve(&self) -> (res: Result<Vec<PackagePlan>, SolverError>)
        requires
            self.wf(),
        ensures
            match res {
                Ok(plans) => reads_an_answer(
                    self.packages(),
                    self.wanted(),
                    self.edges(),
                    plans@,
                ),
                Err(SolverError::Unsat(core)) => tells_what_clashes(
                    self.packages(),
                    self.wanted(),
                    self.edges(),
                    core@,
                ),
                Err(e) => refused(self.packages(), self.wanted(), self.edges(), e) || stopped(
                    self.packages(),
                    self.wanted(),
                    self.edges(),
                    e,
                ),
            },
    {
        let (problem, registry) = match self.gen_spec_solver() {
            Ok(made) => made,
            Err(e) => {
                assert(!(e is Unsat)) by {
                    let (typed, table, versions, order) = choose|
                        typed: Seq<EntryView>,
                        table: Seq<EntryView>,
                        versions: Seq<Seq<PartView>>,
                        order: Seq<usize>,
                    |
                        #[trigger] refused_at(
                            self.packages(),
                            self.wanted(),
                            self.edges(),
                            typed,
                            table,
                            versions,
                            order,
                            e,
                        );
                }
                return Err(e);
            },
        };
        let ghost nothing: Seq<Option<Scalar>> = Seq::empty();
        let ghost (typed, order) = choose|typed: Seq<EntryView>, order: Seq<usize>|
            #[trigger] planned_for(
                self.packages(),
                self.wanted(),
                self.edges(),
                typed,
                order,
                registry.table(),
                registry.versions().interned(),
                labelled_view(problem.asserted@),
                registry.descriptions(),
                objectives_view(problem.objectives@),
            );
        assert(came_to(
            self.packages(),
            self.wanted(),
            self.edges(),
            problem,
            registry.table(),
            registry.versions().interned(),
            registry.descriptions(),
        ));
        match run(&problem, &registry) {
            Err(e) => {
                assert(stopped_at(
                    self.packages(),
                    self.wanted(),
                    self.edges(),
                    problem,
                    registry.table(),
                    registry.versions().interned(),
                    registry.descriptions(),
                    nothing,
                    e,
                ));
                Err(e)
            },
            Ok(Outcome::Unknown) => {
                let e = SolverError::Inconclusive;
                assert(stopped_at(
                    self.packages(),
                    self.wanted(),
                    self.edges(),
                    problem,
                    registry.table(),
                    registry.versions().interned(),
                    registry.descriptions(),
                    nothing,
                    e,
                ));
                Err(e)
            },
            Ok(Outcome::Unsat(core)) => {
                let descriptions = registry.explain_core(&core);
                proof {
                    assert forall|i: int| 0 <= i < descriptions@.len() implies is_one_of(
                        registry.descriptions(),
                        (#[trigger] descriptions@[i])@,
                    ) by {
                        lemma_core_is_explained(
                            problem.asserted@,
                            registry.descriptions(),
                            core@,
                            descriptions@,
                            i,
                        );
                        let k = choose|k: int|
                            0 <= k < problem.asserted@.len() && (#[trigger] problem.asserted@[k]).1@
                                == super::registry::bare_label(core@[i]@) && descriptions@[i]@
                                == registry.descriptions()[k];
                        assert(registry.descriptions()[k] == descriptions@[i]@);
                    }
                }
                Err(SolverError::Unsat(descriptions))
            },
            Ok(Outcome::Sat(values)) => {
                match self.decode(&registry, &values) {
                    Ok(plans) => {
                        assert(answers(
                            self.packages(),
                            registry.table(),
                            registry.versions().interned(),
                            values@,
                            plans@,
                        ));
                        Ok(plans)
                    },
                    Err(e) => {
                        assert(stopped_at(
                            self.packages(),
                            self.wanted(),
                            self.edges(),
                            problem,
                            registry.table(),
                            registry.versions().interned(),
                            registry.descriptions(),
                            values@,
                            e,
                        ));
                        assert(!(e is Unsat)) by {
                            let i = choose|i: int|
                                0 <= i < self.packages().len() && tells_unread(
                                    e,
                                    (#[trigger] self.packages()[i]).name@,
                                    registry.table(),
                                    registry.versions().interned(),
                                    values@,
                                );
                        }
                        Err(e)
                    },
                }
            },
        }
    }
}

/// Whether `problem` is the problem that the outlines come to, with the
/// table `table` of the options and their variables, the numbered
/// versions `versions`, and the descriptions `filed` of its assertions.
pub open spec fn came_to(
    outlines: Seq<PackageOutline>,
    wanted: Seq<Seq<char>>,
    edges: Seq<(usize, usize)>,
    problem: Problem,
    table: Seq<EntryView>,
    versions: Seq<Seq<PartView>>,
    filed: Seq<Seq<char>>,
) -> bool {
    &&& soft_view(problem.soft@) == toggles_first(outlines, outlines.len())
    &&& exists|typed: Seq<EntryView>, order: Seq<usize>|
        #[trigger] planned_for(
            outlines,
            wanted,
            edges,
            typed,
            order,
            table,
            versions,
            labelled_view(problem.asserted@),
            filed,
            objectives_view(problem.objectives@),
        )
}

/// Whether `e` is the error with which the work ends once the outlines
/// have come to the problem `problem`: the solver cannot take the
/// problem; or it can, and cannot tell whether there is an answer; or it
/// gives the answer `values`, off which the plan of one of the packages
/// cannot be read.
pub open spec fn stopped_at(
    outlines: Seq<PackageOutline>,
    wanted: Seq<Seq<char>>,
    edges: Seq<(usize, usize)>,
    problem: Problem,
    table: Seq<EntryView>,
    versions: Seq<Seq<PartView>>,
    filed: Seq<Seq<char>>,
    values: Seq<Option<Scalar>>,
    e: SolverError,
) -> bool {
    &&& came_to(outlines, wanted, edges, problem, table, versions, filed)
    &&& {
        ||| e is Unsupported && !well_posed(problem)
        ||| e is Inconclusive && well_posed(problem)
        ||| {
            &&& well_posed(problem)
            &&& values.len() == table.len()
            &&& forall|i: int| 0 <= i < values.len() ==> fits(#[trigger] values[i], table[i])
            &&& exists|i: int|
                0 <= i < outlines.len() && tells_unread(
                    e,
                    (#[trigger] outlines[i]).name@,
                    table,
                    versions,
                    values,
                )
        }
    }
}

/// Whether `e` is an error with which the work ends once the outlines
/// have come to a problem for the solver.
pub open spec fn stopped(
    outlines: Seq<PackageOutline>,
    wanted: Seq<Seq<char>>,
    edges: Seq<(usize, usize)>,
    e: SolverError,
) -> bool {
    exists|
        problem: Problem,
        table: Seq<EntryView>,
        versions: Seq<Seq<PartView>>,
        filed: Seq<Seq<char>>,
        values: Seq<Option<Scalar>>,
    |
        #[trigger] stopped_at(outlines, wanted, edges, problem, table, versions, filed, values, e)
}

/// Whether `plans` is what the answer `values` says of each of
/// `outlines`, in their order.
pub open spec fn answers(
    outlines: Seq<PackageOutline>,
    table: Seq<EntryView>,
    versions: Seq<Seq<PartView>>,
    values: Seq<Option<Scalar>>,
    plans: Seq<PackagePlan>,
) -> bool {
    &&& plans.len() == outlines.len()
    &&& forall|i: int|
        0 <= i < plans.len() ==> plan_reads(
            #[trigger] plans[i],
            outlines[i].name@,
            table,
            versions,
            values,
        )
}

/// Whether `plans` is read off an answer to the problem that the outlines
/// come to: there is a table of the options with their variables, as the
/// outlines ask for it, and values for the variables, of which `plans`
/// tells package by package.
pub open spec fn reads_an_answer(
    outlines: Seq<PackageOutline>,
    wanted: Seq<Seq<char>>,
    edges: Seq<(usize, usize)>,
    plans: Seq<PackagePlan>,
) -> bool {
    exists|
        typed: Seq<EntryView>,
        order: Seq<usize>,
        table: Seq<EntryView>,
        versions: Seq<Seq<PartView>>,
        asserted: Seq<(TermView, Seq<char>)>,
        filed: Seq<Seq<char>>,
        aims: Seq<ObjectiveView>,
        values: Seq<Option<Scalar>>,
    |
        #[trigger] planned_for(
            outlines,
            wanted,
            edges,
            typed,
            order,
            table,
            versions,
            asserted,
            filed,
            aims,
        ) && #[trigger] answers(outlines, table, versions, values, plans)
}

/// Whether each of `core` is the description of an assertion of the
/// problem that the outlines come to.
pub open spec fn tells_what_clashes(
    outlines: Seq<PackageOutline>,
    wanted: Seq<Seq<char>>,
    edges: Seq<(usize, usize)>,
    core: Seq<String>,
) -> bool {
    exists|
        typed: Seq<EntryView>,
        order: Seq<usize>,
        table: Seq<EntryView>,
        versions: Seq<Seq<PartView>>,
        asserted: Seq<(TermView, Seq<char>)>,
        filed: Seq<Seq<char>>,
        aims: Seq<ObjectiveView>,
    |
        #[trigger] planned_for(
            outlines,
            wanted,
            edges,
            typed,
            order,
            table,
            versions,
            asserted,
            filed,
            aims,
        ) && forall|i: int| 0 <= i < core.len() ==> is_one_of(filed, (#[trigger] core[i])@)
}

} // verus!
