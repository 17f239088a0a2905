//! How the types of options are told from the constraints that name them.
//!
//! Each constraint states facts: this option has that type, these two
//! options have one type. The facts of all constraints are put to the
//! registry until nothing more follows from them.

use super::kinds::ConstraintType;
use super::tree::{Constraint, IfThen};
use crate::package::error::SolverError;
use crate::package::registry::{
    distinct_keys, has_line, is_line_of, lemma_line_unique, str_view, text_view, EntryView,
    Registry, WipRegistry,
};
use crate::spec::spec_option::{type_of, SpecOptionType};
use vstd::prelude::*;
use vstd::string::StringExecFns;

verus! {

/// An option of a package, or with no option the switch of the package.
pub type Key = (Seq<char>, Option<Seq<char>>);

/// What a constraint says of the types of options.
pub enum FactView {
    /// The option has this type.
    Is(Key, SpecOptionType),
    /// The two options have one type.
    Same(Key, Key),
}

/// What a constraint says of the types of options.
#[derive(Debug)]
pub enum Fact {
    /// The option has this type.
    Is { package: String, option: Option<String>, dtype: SpecOptionType },
    /// The two options have one type.
    Same { package: String, option: String, other_package: String, other_option: String },
}

impl View for Fact {
    type V = FactView;

    open spec fn view(&self) -> FactView {
        match self {
            Fact::Is { package, option, dtype } => FactView::Is(
                (package@, text_view(*option)),
                *dtype,
            ),
            Fact::Same { package, option, other_package, other_option } => FactView::Same(
                (package@, Some(option@)),
                (other_package@, Some(other_option@)),
            ),
        }
    }
}

/// The views of `facts`, in order.
pub open spec fn fact_views(facts: Seq<Fact>) -> Seq<FactView> {
    facts.map_values(|f: Fact| f@)
}

/// The option that `c` is, where it is nothing but an option.
pub open spec fn option_key(c: Constraint) -> Option<Key> {
    match c {
        Constraint::SpecOption(o) => Some((o.package_name@, Some(o.option_name@))),
        _ => None,
    }
}

/// The type of the value that `c` is, where that can be told from `c`
/// alone: a value that is written out, or a count.
pub open spec fn value_type(c: Constraint) -> Option<SpecOptionType> {
    match c {
        Constraint::Value(v) => Some(type_of(v.value@)),
        Constraint::NumOf(_) => Some(SpecOptionType::Int),
        _ => None,
    }
}

/// What follows for the types of options where `l` is held against `r`.
pub open spec fn relate(l: Constraint, r: Constraint) -> Seq<FactView> {
    match (option_key(l), option_key(r)) {
        (Some(a), Some(b)) => seq![FactView::Same(a, b)],
        (Some(a), None) => match value_type(r) {
            Some(t) => seq![FactView::Is(a, t)],
            None => Seq::empty(),
        },
        (None, Some(b)) => match value_type(l) {
            Some(t) => seq![FactView::Is(b, t)],
            None => Seq::empty(),
        },
        (None, None) => Seq::empty(),
    }
}

/// What follows where `c` stands for a truth value: an option is of type
/// `Bool`.
pub open spec fn must_be_bool(c: Constraint) -> Seq<FactView> {
    match option_key(c) {
        Some(k) => seq![FactView::Is(k, SpecOptionType::Bool)],
        None => Seq::empty(),
    }
}

/// The facts that `c` states, in the order of the tree.
pub open spec fn facts(c: Constraint) -> Seq<FactView>
    decreases c, 0nat,
{
    match c {
        Constraint::Depends(_) => Seq::empty(),
        Constraint::SpecOption(_) => Seq::empty(),
        Constraint::Value(_) => Seq::empty(),
        Constraint::Cmp(b) => facts(b.lhs) + facts(b.rhs) + relate(b.lhs, b.rhs),
        Constraint::IfThen(b) => match *b {
            IfThen { cond, then } => facts(cond) + facts(then) + must_be_bool(cond) + must_be_bool(
                then,
            ),
        },
        Constraint::Maximize(b) => facts(b.item),
        Constraint::Minimize(b) => facts(b.item),
        Constraint::NumOf(b) => facts_first(b.of@, b.of@.len()),
    }
}

/// The facts of the first `n` of `children`, each of which stands for a
/// truth value.
pub open spec fn facts_first(children: Seq<Constraint>, n: nat) -> Seq<FactView>
    decreases children, n,
{
    if n == 0 || n > children.len() {
        Seq::empty()
    } else {
        facts_first(children, (n - 1) as nat) + facts(children[n - 1]) + must_be_bool(
            children[n - 1],
        )
    }
}

/// The type that `table` has for `key`: that of the last line for it.
pub open spec fn type_in(table: Seq<EntryView>, key: Key) -> Option<SpecOptionType>
    decreases table.len(),
{
    if table.len() == 0 {
        None
    } else if table.last().package == key.0 && table.last().option == key.1 {
        Some(table.last().dtype)
    } else {
        type_in(table.drop_last(), key)
    }
}

/// [`type_in`] gives the type of the line for the option, if there is one.
pub proof fn lemma_type_in(table: Seq<EntryView>, key: Key)
    requires
        distinct_keys(table),
    ensures
        forall|i: int| is_line_of(table, i, key.0, key.1) ==> type_in(table, key) == Some(table[i].dtype),
        !has_line(table, key.0, key.1) ==> type_in(table, key) is None,
        type_in(table, key) is Some ==> has_line(table, key.0, key.1),
    decreases table.len(),
{
    if table.len() > 0 {
        let init = table.drop_last();
        let last = table.len() - 1;
        assert(distinct_keys(init)) by {
            assert forall|i: int, j: int| 0 <= i < j < init.len() implies !((
            #[trigger] init[i]).package == (#[trigger] init[j]).package && init[i].option
                == init[j].option) by {
                assert(init[i] == table[i] && init[j] == table[j]);
            }
        }
        lemma_type_in(init, key);
        if table.last().package == key.0 && table.last().option == key.1 {
            assert(is_line_of(table, last, key.0, key.1));
            assert forall|i: int| is_line_of(table, i, key.0, key.1) implies type_in(table, key)
                == Some(table[i].dtype) by {
                lemma_line_unique(table, i, last, key.0, key.1);
            }
        } else {
            assert forall|i: int| is_line_of(table, i, key.0, key.1) implies type_in(table, key)
                == Some(table[i].dtype) by {
                assert(is_line_of(init, i, key.0, key.1));
            }
            if has_line(init, key.0, key.1) {
                let i = choose|i: int| is_line_of(init, i, key.0, key.1);
                assert(is_line_of(table, i, key.0, key.1));
            }
            if has_line(table, key.0, key.1) {
                let i = choose|i: int| is_line_of(table, i, key.0, key.1);
                assert(is_line_of(init, i, key.0, key.1));
            }
        }
    }
}

/// Whether `key` has the type `t` by the fact `f` alone, or by `f` and a
/// type that the option on its other side has in at most `n` steps.
pub open spec fn follows_from(
    base: Seq<EntryView>,
    facts: Seq<FactView>,
    n: nat,
    f: FactView,
    key: Key,
    t: SpecOptionType,
) -> bool
    decreases n, 0nat,
{
    match f {
        FactView::Is(k, dtype) => k == key && dtype == t,
        FactView::Same(a, b) => n > 0 && ((a == key && derives(base, facts, (n - 1) as nat, b, t))
            || (b == key && derives(base, facts, (n - 1) as nat, a, t))),
    }
}

/// Whether the facts `facts` give `key` the type `t` in at most `n` steps
/// from one option to another, starting from what `base` holds.
pub open spec fn derives(
    base: Seq<EntryView>,
    facts: Seq<FactView>,
    n: nat,
    key: Key,
    t: SpecOptionType,
) -> bool
    decreases n, 1nat,
{
    ||| type_in(base, key) == Some(t)
    ||| exists|i: int| 0 <= i < facts.len() && follows_from(base, facts, n, #[trigger] facts[i], key, t)
}

/// Whether the facts give `key` the type `t` in some number of steps.
pub open spec fn derivable(base: Seq<EntryView>, facts: Seq<FactView>, key: Key, t: SpecOptionType) -> bool {
    exists|n: nat| derives(base, facts, n, key, t)
}

/// Whether the facts give some option two types.
pub open spec fn conflicting(base: Seq<EntryView>, facts: Seq<FactView>) -> bool {
    exists|key: Key, a: SpecOptionType, b: SpecOptionType|
        a != b && #[trigger] derivable(base, facts, key, a) && #[trigger] derivable(
            base,
            facts,
            key,
            b,
        )
}

/// Whether `table` agrees with each of `facts`.
pub open spec fn satisfies(table: Seq<EntryView>, facts: Seq<FactView>) -> bool {
    forall|i: int|
        0 <= i < facts.len() ==> match #[trigger] facts[i] {
            FactView::Is(k, t) => type_in(table, k) == Some(t),
            FactView::Same(a, b) => type_in(table, a) is Some && type_in(table, a) == type_in(
                table,
                b,
            ),
        }
}

/// Whether `table` starts with the lines of `base`.
pub open spec fn keeps(base: Seq<EntryView>, table: Seq<EntryView>) -> bool {
    &&& base.len() <= table.len()
    &&& forall|i: int| 0 <= i < base.len() ==> #[trigger] table[i] == base[i]
}

/// Whether each line of `table` has a type that the facts give it.
pub open spec fn grounded(base: Seq<EntryView>, facts: Seq<FactView>, table: Seq<EntryView>) -> bool {
    forall|i: int|
        0 <= i < table.len() ==> derivable(
            base,
            facts,
            ((#[trigger] table[i]).package, table[i].option),
            table[i].dtype,
        )
}

/// A table that agrees with the facts has, for each option, the type that
/// the facts give it.
pub proof fn lemma_derived_type_holds(
    base: Seq<EntryView>,
    facts: Seq<FactView>,
    table: Seq<EntryView>,
    n: nat,
    key: Key,
    t: SpecOptionType,
)
    requires
        distinct_keys(table),
        keeps(base, table),
        satisfies(table, facts),
        derives(base, facts, n, key, t),
    ensures
        type_in(table, key) == Some(t),
    decreases n,
{
    if type_in(base, key) == Some(t) {
        lemma_kept_type(base, table, key);
    } else {
        let i = choose|i: int|
            0 <= i < facts.len() && follows_from(base, facts, n, #[trigger] facts[i], key, t);
        match facts[i] {
            FactView::Is(_, _) => {},
            FactView::Same(a, b) => {
                if a == key && derives(base, facts, (n - 1) as nat, b, t) {
                    lemma_derived_type_holds(base, facts, table, (n - 1) as nat, b, t);
                } else {
                    lemma_derived_type_holds(base, facts, table, (n - 1) as nat, a, t);
                }
            },
        }
    }
}

/// A table that starts with the lines of another has the types of that
/// other.
pub proof fn lemma_kept_type(base: Seq<EntryView>, table: Seq<EntryView>, key: Key)
    requires
        distinct_keys(table),
        keeps(base, table),
        type_in(base, key) is Some,
    ensures
        type_in(table, key) == type_in(base, key),
{
    assert(distinct_keys(base)) by {
        assert forall|i: int, j: int| 0 <= i < j < base.len() implies !((
        #[trigger] base[i]).package == (#[trigger] base[j]).package && base[i].option
            == base[j].option) by {
            assert(table[i] == base[i] && table[j] == base[j]);
        }
    }
    lemma_type_in(base, key);
    lemma_type_in(table, key);
    let i = choose|i: int| is_line_of(base, i, key.0, key.1);
    assert(is_line_of(table, i, key.0, key.1));
}

/// Whether `f` is one of `list`.
pub open spec fn holds_fact(list: Seq<FactView>, f: FactView) -> bool {
    exists|j: int| 0 <= j < list.len() && #[trigger] list[j] == f
}

/// Whether `list` holds each fact of `facts`.
pub open spec fn holds_all(list: Seq<FactView>, facts: Seq<FactView>) -> bool {
    forall|i: int| 0 <= i < facts.len() ==> holds_fact(list, #[trigger] facts[i])
}

/// The type of an option does not hang on the order of the constraints:
/// where two lists hold the same facts, in whatever order and however
/// often, and each of two tables agrees with one of them and has no type
/// but what its facts give, both tables give each option the same type.
pub proof fn lemma_types_determined(
    base: Seq<EntryView>,
    first: Seq<FactView>,
    second: Seq<FactView>,
    one: Seq<EntryView>,
    other: Seq<EntryView>,
    key: Key,
)
    requires
        holds_all(second, first),
        holds_all(first, second),
        distinct_keys(one),
        distinct_keys(other),
        keeps(base, one),
        keeps(base, other),
        satisfies(one, first),
        satisfies(other, second),
        grounded(base, first, one),
        grounded(base, second, other),
    ensures
        type_in(one, key) == type_in(other, key),
{
    lemma_type_in(one, key);
    lemma_type_in(other, key);
    if type_in(one, key) is Some {
        let i = choose|i: int| is_line_of(one, i, key.0, key.1);
        let t = one[i].dtype;
        assert(derivable(base, first, (one[i].package, one[i].option), t));
        let n = choose|n: nat| derives(base, first, n, key, t);
        lemma_derives_moved(base, first, second, n, key, t);
        lemma_derived_type_holds(base, second, other, n, key, t);
    }
    if type_in(other, key) is Some {
        let i = choose|i: int| is_line_of(other, i, key.0, key.1);
        let t = other[i].dtype;
        assert(derivable(base, second, (other[i].package, other[i].option), t));
        let n = choose|n: nat| derives(base, second, n, key, t);
        lemma_derives_moved(base, second, first, n, key, t);
        lemma_derived_type_holds(base, first, one, n, key, t);
    }
}

/// What one list of facts gives, any list that holds these facts gives.
pub proof fn lemma_derives_moved(
    base: Seq<EntryView>,
    first: Seq<FactView>,
    second: Seq<FactView>,
    n: nat,
    key: Key,
    t: SpecOptionType,
)
    requires
        holds_all(second, first),
        derives(base, first, n, key, t),
    ensures
        derives(base, second, n, key, t),
    decreases n,
{
    if type_in(base, key) != Some(t) {
        let i = choose|i: int|
            0 <= i < first.len() && follows_from(base, first, n, #[trigger] first[i], key, t);
        assert(holds_fact(second, first[i]));
        let j = choose|j: int| 0 <= j < second.len() && #[trigger] second[j] == first[i];
        match first[i] {
            FactView::Is(_, _) => {},
            FactView::Same(a, b) => {
                if a == key && derives(base, first, (n - 1) as nat, b, t) {
                    lemma_derives_moved(base, first, second, (n - 1) as nat, b, t);
                } else {
                    lemma_derives_moved(base, first, second, (n - 1) as nat, a, t);
                }
            },
        }
        assert(follows_from(base, second, n, second[j], key, t));
    }
}

/// A borrowed view of a text that may be missing.
pub fn as_str_option(o: &Option<String>) -> (r: Option<&str>)
    ensures
        str_view(r) == text_view(*o),
{
    match o {
        Some(s) => Some(s.as_str()),
        None => None,
    }
}

fn key_of(c: &Constraint) -> (r: Option<(String, String)>)
    ensures
        match r {
            Some((p, o)) => option_key(*c) == Some((p@, Some(o@))),
            None => option_key(*c) is None,
        },
{
    match c {
        Constraint::SpecOption(o) => Some((o.package_name.clone(), o.option_name.clone())),
        _ => None,
    }
}

fn value_type_of(c: &Constraint) -> (r: Option<SpecOptionType>)
    ensures
        r == value_type(*c),
{
    match c {
        Constraint::Value(v) => Some(v.value.to_type()),
        Constraint::NumOf(_) => Some(SpecOptionType::Int),
        _ => None,
    }
}

fn push_relate(l: &Constraint, r: &Constraint, out: &mut Vec<Fact>)
    ensures
        fact_views(final(out)@) == fact_views(old(out)@) + relate(*l, *r),
{
    let ghost start = fact_views(out@);
    match (key_of(l), key_of(r)) {
        (Some((p, o)), Some((q, u))) => {
            out.push(Fact::Same { package: p, option: o, other_package: q, other_option: u });
        },
        (Some((p, o)), None) => match value_type_of(r) {
            Some(t) => {
                out.push(Fact::Is { package: p, option: Some(o), dtype: t });
            },
            None => {},
        },
        (None, Some((q, u))) => match value_type_of(l) {
            Some(t) => {
                out.push(Fact::Is { package: q, option: Some(u), dtype: t });
            },
            None => {},
        },
        (None, None) => {},
    }
    assert(fact_views(out@) =~= start + relate(*l, *r));
}

fn push_bool(c: &Constraint, out: &mut Vec<Fact>)
    ensures
        fact_views(final(out)@) == fact_views(old(out)@) + must_be_bool(*c),
{
    let ghost start = fact_views(out@);
    match key_of(c) {
        Some((p, o)) => {
            out.push(Fact::Is { package: p, option: Some(o), dtype: SpecOptionType::Bool });
        },
        None => {},
    }
    assert(fact_views(out@) =~= start + must_be_bool(*c));
}

impl Constraint {
    #[verifier::loop_isolation(false)]
    pub(crate) fn collect_facts(&self, out: &mut Vec<Fact>)
        ensures
            fact_views(final(out)@) == fact_views(old(out)@) + facts(*self),
        decreases self,
    {
        let ghost start = fact_views(out@);
        match self {
            Constraint::Depends(_) => {
                assert(fact_views(out@) =~= start + facts(*self));
            },
            Constraint::SpecOption(_) => {
                assert(fact_views(out@) =~= start + facts(*self));
            },
            Constraint::Value(_) => {
                assert(fact_views(out@) =~= start + facts(*self));
            },
            Constraint::Cmp(b) => {
                b.lhs.collect_facts(out);
                b.rhs.collect_facts(out);
                push_relate(&b.lhs, &b.rhs, out);
                assert(fact_views(out@) =~= start + facts(*self));
            },
            Constraint::IfThen(b) => {
                let IfThen { cond, then } = &**b;
                cond.collect_facts(out);
                then.collect_facts(out);
                push_bool(cond, out);
                push_bool(then, out);
                assert(fact_views(out@) =~= start + facts(*self));
            },
            Constraint::Maximize(b) => {
                b.item.collect_facts(out);
            },
            Constraint::Minimize(b) => {
                b.item.collect_facts(out);
            },
            Constraint::NumOf(b) => {
                let mut i: usize = 0;
                assert(fact_views(out@) =~= start + facts_first(b.of@, 0));
                while i < b.of.len()
                    invariant
                        i <= b.of.len(),
                        fact_views(out@) == start + facts_first(b.of@, i as nat),
                    decreases b.of.len() - i,
                {
                    proof {
                        assert(decreases_to!(b.of => b.of@));
                        assert(decreases_to!(b.of@ => b.of@[i as int]));
                    }
                    b.of[i].collect_facts(out);
                    push_bool(&b.of[i], out);
                    assert(fact_views(out@) =~= start + facts_first(b.of@, (i + 1) as nat));
                    i = i + 1;
                }
            },
        }
    }

    /// What the constraint says of the types of options.
    pub fn extract_facts(&self) -> (found: Vec<Fact>)
        ensures
            fact_views(found@) == facts(*self),
    {
        let mut found: Vec<Fact> = Vec::new();
        assert(fact_views(found@) =~= Seq::<FactView>::empty());
        self.collect_facts(&mut found);
        assert(fact_views(found@) =~= facts(*self));
        found
    }
}

/// The type that the registry has for `option` of `package`.
pub fn type_of_key<V>(registry: &Registry<V>, package: &str, option: Option<&str>) -> (r: Option<
    SpecOptionType,
>)
    requires
        registry.wf(),
    ensures
        r == type_in(registry.table(), (package@, str_view(option))),
{
    proof {
        lemma_type_in(registry.table(), (package@, str_view(option)));
    }
    match registry.lookup_option(package, option) {
        Some(idx) => Some(registry.option_type(idx)),
        None => None,
    }
}

/// Whether `e` tells that an option would need the two types `held` and
/// `wanted`.
pub open spec fn is_mismatch(e: SolverError, held: SpecOptionType, wanted: SpecOptionType) -> bool {
    e matches SolverError::IncorrectConstraintType { expected, received } && expected
        == ConstraintType::Value(held) && received == ConstraintType::Value(wanted)
}

/// Gives `option` of `package` the type `t`, unless it has one; the answer
/// says whether the table has a new line.
fn put_type(registry: &mut WipRegistry, package: &str, option: Option<&str>, t: SpecOptionType) -> (r:
    Result<bool, SolverError>)
    requires
        old(registry).wf(),
    ensures
        final(registry).wf(),
        final(registry).descriptions() == old(registry).descriptions(),
        final(registry).versions() == old(registry).versions(),
        match r {
            Ok(changed) => {
                &&& type_in(final(registry).table(), (package@, str_view(option))) == Some(t)
                &&& if changed {
                    &&& type_in(old(registry).table(), (package@, str_view(option))) is None
                    &&& final(registry).table() == old(registry).table().push(
                        EntryView {
                            package: package@,
                            option: str_view(option),
                            dtype: t,
                            variable: None,
                        },
                    )
                } else {
                    final(registry).table() == old(registry).table()
                }
            },
            Err(e) => {
                &&& final(registry).table() == old(registry).table()
                &&& type_in(old(registry).table(), (package@, str_view(option))) matches Some(held)
                &&& held != t
                &&& is_mismatch(e, held, t)
            },
        },
{
    let ghost key = (package@, str_view(option));
    proof {
        lemma_type_in(registry.table(), key);
    }
    match registry.lookup_option(package, option) {
        Some(idx) => {
            let held = registry.option_type(idx);
            if held == t {
                Ok(false)
            } else {
                Err(
                    SolverError::IncorrectConstraintType {
                        expected: ConstraintType::Value(held),
                        received: ConstraintType::Value(t),
                    },
                )
            }
        },
        None => {
            match registry.insert_option_type(package, option, t) {
                Ok(_) => {
                    proof {
                        lemma_type_in(registry.table(), key);
                        let last = registry.table().len() - 1;
                        assert(is_line_of(registry.table(), last, key.0, key.1));
                    }
                    Ok(true)
                },
                Err(e) => {
                    assert(false);
                    Err(e)
                },
            }
        },
    }
}

/// Whether line `i` of `facts` names an option that `table` has no type
/// for.
pub open spec fn leaves_open(table: Seq<EntryView>, facts: Seq<FactView>, i: int) -> bool {
    0 <= i < facts.len() && match facts[i] {
        FactView::Is(k, _) => type_in(table, k) is None,
        FactView::Same(a, b) => type_in(table, a) is None && type_in(table, b) is None,
    }
}

proof fn lemma_grounded_grows(
    base: Seq<EntryView>,
    fv: Seq<FactView>,
    table: Seq<EntryView>,
    key: Key,
    t: SpecOptionType,
)
    requires
        grounded(base, fv, table),
        derivable(base, fv, key, t),
    ensures
        grounded(
            base,
            fv,
            table.push(EntryView { package: key.0, option: key.1, dtype: t, variable: None }),
        ),
{
    let after = table.push(EntryView { package: key.0, option: key.1, dtype: t, variable: None });
    assert forall|i: int| 0 <= i < after.len() implies derivable(
        base,
        fv,
        ((#[trigger] after[i]).package, after[i].option),
        after[i].dtype,
    ) by {
        if i < table.len() {
            assert(after[i] == table[i]);
        }
    }
}

proof fn lemma_typed_is_derivable(
    base: Seq<EntryView>,
    fv: Seq<FactView>,
    table: Seq<EntryView>,
    key: Key,
    t: SpecOptionType,
)
    requires
        distinct_keys(table),
        grounded(base, fv, table),
        type_in(table, key) == Some(t),
    ensures
        derivable(base, fv, key, t),
{
    lemma_type_in(table, key);
    let i = choose|i: int| is_line_of(table, i, key.0, key.1);
    assert(derivable(base, fv, (table[i].package, table[i].option), table[i].dtype));
}

proof fn lemma_step_derivable(
    base: Seq<EntryView>,
    fv: Seq<FactView>,
    i: int,
    from: Key,
    to: Key,
    t: SpecOptionType,
)
    requires
        0 <= i < fv.len(),
        fv[i] == FactView::Same(from, to) || fv[i] == FactView::Same(to, from),
        derivable(base, fv, from, t),
    ensures
        derivable(base, fv, to, t),
{
    let n = choose|n: nat| derives(base, fv, n, from, t);
    assert(follows_from(base, fv, n + 1, fv[i], to, t));
    assert(derives(base, fv, n + 1, to, t));
}

proof fn lemma_two_types(
    base: Seq<EntryView>,
    fv: Seq<FactView>,
    key: Key,
    a: SpecOptionType,
    b: SpecOptionType,
)
    requires
        a != b,
        derivable(base, fv, key, a),
        derivable(base, fv, key, b),
    ensures
        conflicting(base, fv),
{
}

proof fn lemma_fact_derivable(base: Seq<EntryView>, fv: Seq<FactView>, i: int, key: Key, t: SpecOptionType)
    requires
        0 <= i < fv.len(),
        fv[i] == FactView::Is(key, t),
    ensures
        derivable(base, fv, key, t),
{
    assert(follows_from(base, fv, 0, fv[i], key, t));
    assert(derives(base, fv, 0, key, t));
}

/// Whether `f` names an option without type under `table`.
pub open spec fn is_open(table: Seq<EntryView>, f: FactView) -> bool {
    match f {
        FactView::Is(k, _) => type_in(table, k) is None,
        FactView::Same(a, b) => type_in(table, a) is None || type_in(table, b) is None,
    }
}

/// How many of the first `n` of `facts` name an option without type.
pub open spec fn open_count(table: Seq<EntryView>, facts: Seq<FactView>, n: nat) -> nat
    decreases n,
{
    if n == 0 || n > facts.len() {
        0
    } else {
        open_count(table, facts, (n - 1) as nat) + if is_open(table, facts[n - 1]) {
            1nat
        } else {
            0nat
        }
    }
}

/// Whether nothing more follows from `f` under `table`: an option of
/// which it tells the type has one, and of two that it holds alike both
/// have a type or none has.
pub open spec fn is_settled(table: Seq<EntryView>, f: FactView) -> bool {
    match f {
        FactView::Is(k, _) => type_in(table, k) is Some,
        FactView::Same(a, b) => type_in(table, a) is Some <==> type_in(table, b) is Some,
    }
}

/// Whether nothing more follows from the first `n` of `facts` under
/// `table`.
pub open spec fn settled_first(table: Seq<EntryView>, facts: Seq<FactView>, n: int) -> bool {
    forall|j: int| 0 <= j < n && j < facts.len() ==> is_settled(table, #[trigger] facts[j])
}

/// Whether the facts tell of no type for the options that the fact at
/// place `i` holds alike.
pub open spec fn nothing_tells(base: Seq<EntryView>, facts: Seq<FactView>, i: int) -> bool {
    0 <= i < facts.len() && match facts[i] {
        FactView::Is(_, _) => false,
        FactView::Same(a, b) => forall|t: SpecOptionType|
            !#[trigger] derivable(base, facts, a, t) && !derivable(base, facts, b, t),
    }
}

/// Whether the facts give each option that they name one type: no option
/// gets two, and of two options that a fact holds alike the facts tell
/// the type.
pub open spec fn typable(base: Seq<EntryView>, facts: Seq<FactView>) -> bool {
    &&& !conflicting(base, facts)
    &&& forall|i: int| 0 <= i < facts.len() ==> !nothing_tells(base, facts, i)
}

proof fn lemma_open_stays_shut(before: Seq<EntryView>, after: Seq<EntryView>, f: FactView)
    requires
        distinct_keys(after),
        keeps(before, after),
        is_open(after, f),
    ensures
        is_open(before, f),
{
    match f {
        FactView::Is(k, _) => {
            if type_in(before, k) is Some {
                lemma_kept_type(before, after, k);
            }
        },
        FactView::Same(a, b) => {
            if type_in(before, a) is Some {
                lemma_kept_type(before, after, a);
            }
            if type_in(before, b) is Some {
                lemma_kept_type(before, after, b);
            }
        },
    }
}

/// A table with more lines leaves no more facts open, and fewer where a
/// fact that was open is open no more.
proof fn lemma_open_count_falls(
    before: Seq<EntryView>,
    after: Seq<EntryView>,
    facts: Seq<FactView>,
    n: nat,
    j: int,
)
    requires
        distinct_keys(after),
        keeps(before, after),
        n <= facts.len(),
    ensures
        open_count(after, facts, n) <= open_count(before, facts, n),
        0 <= j < n && is_open(before, facts[j]) && !is_open(after, facts[j]) ==> open_count(
            after,
            facts,
            n,
        ) < open_count(before, facts, n),
    decreases n,
{
    if n > 0 {
        lemma_open_count_falls(before, after, facts, (n - 1) as nat, j);
        if is_open(after, facts[n - 1]) {
            lemma_open_stays_shut(before, after, facts[n - 1]);
        }
    }
}

/// Under a table from which nothing more follows, each option has a type
/// of which the facts tell one.
proof fn lemma_settled_holds_all(
    base: Seq<EntryView>,
    facts: Seq<FactView>,
    table: Seq<EntryView>,
    n: nat,
    key: Key,
    t: SpecOptionType,
)
    requires
        distinct_keys(table),
        keeps(base, table),
        settled_first(table, facts, facts.len() as int),
        derives(base, facts, n, key, t),
    ensures
        type_in(table, key) is Some,
    decreases n,
{
    if type_in(base, key) == Some(t) {
        lemma_kept_type(base, table, key);
    } else {
        let i = choose|i: int|
            0 <= i < facts.len() && follows_from(base, facts, n, #[trigger] facts[i], key, t);
        assert(is_settled(table, facts[i]));
        match facts[i] {
            FactView::Is(_, _) => {},
            FactView::Same(a, b) => {
                if a == key && derives(base, facts, (n - 1) as nat, b, t) {
                    lemma_settled_holds_all(base, facts, table, (n - 1) as nat, b, t);
                } else {
                    lemma_settled_holds_all(base, facts, table, (n - 1) as nat, a, t);
                }
            },
        }
    }
}

/// Where a table agrees with the facts and has no type but what they
/// give, the facts give each option that they name one type.
pub proof fn lemma_table_shows_typable(base: Seq<EntryView>, facts: Seq<FactView>, table: Seq<EntryView>)
    requires
        distinct_keys(table),
        keeps(base, table),
        grounded(base, facts, table),
        satisfies(table, facts),
    ensures
        typable(base, facts),
{
    if conflicting(base, facts) {
        let (key, a, b) = choose|key: Key, a: SpecOptionType, b: SpecOptionType|
            a != b && #[trigger] derivable(base, facts, key, a) && #[trigger] derivable(
                base,
                facts,
                key,
                b,
            );
        let n = choose|n: nat| derives(base, facts, n, key, a);
        let m = choose|m: nat| derives(base, facts, m, key, b);
        lemma_derived_type_holds(base, facts, table, n, key, a);
        lemma_derived_type_holds(base, facts, table, m, key, b);
    }
    assert forall|i: int| 0 <= i < facts.len() implies !nothing_tells(base, facts, i) by {
        match facts[i] {
            FactView::Is(_, _) => {},
            FactView::Same(a, b) => {
                let t = type_in(table, a)->0;
                lemma_typed_is_derivable(base, facts, table, a, t);
            },
        }
    }
}

/// Whether the facts give each option one type does not hang on the
/// order of the facts, nor on how often each is stated.
pub proof fn lemma_typable_moved(base: Seq<EntryView>, first: Seq<FactView>, second: Seq<FactView>)
    requires
        holds_all(second, first),
        holds_all(first, second),
        typable(base, first),
    ensures
        typable(base, second),
{
    if conflicting(base, second) {
        let (key, a, b) = choose|key: Key, a: SpecOptionType, b: SpecOptionType|
            a != b && #[trigger] derivable(base, second, key, a) && #[trigger] derivable(
                base,
                second,
                key,
                b,
            );
        let n = choose|n: nat| derives(base, second, n, key, a);
        let m = choose|m: nat| derives(base, second, m, key, b);
        lemma_derives_moved(base, second, first, n, key, a);
        lemma_derives_moved(base, second, first, m, key, b);
        assert(derivable(base, first, key, a) && derivable(base, first, key, b));
    }
    assert forall|i: int| 0 <= i < second.len() implies !nothing_tells(base, second, i) by {
        match second[i] {
            FactView::Is(_, _) => {},
            FactView::Same(a, b) => {
                assert(holds_fact(first, second[i]));
                let j = choose|j: int| 0 <= j < first.len() && #[trigger] first[j] == second[i];
                assert(!nothing_tells(base, first, j));
                let t = choose|t: SpecOptionType|
                    #[trigger] derivable(base, first, a, t) || derivable(base, first, b, t);
                if derivable(base, first, a, t) {
                    let n = choose|n: nat| derives(base, first, n, a, t);
                    lemma_derives_moved(base, first, second, n, a, t);
                    assert(derivable(base, second, a, t));
                } else {
                    let n = choose|n: nat| derives(base, first, n, b, t);
                    lemma_derives_moved(base, first, second, n, b, t);
                    assert(derivable(base, second, b, t));
                    assert(derivable(base, second, a, t) || derivable(base, second, b, t));
                }
            },
        }
    }
}

/// Puts the facts to the registry until nothing more follows from them.
///
/// The registry gets a line for each option of which the facts tell the
/// type, and no other. Where the facts give an option two types, or leave
/// one without a type that another is to share, there is no result; there
/// is one wherever the facts give each option that they name one type.
pub fn solve_facts(facts: &Vec<Fact>, registry: &mut WipRegistry) -> (r: Result<(), SolverError>)
    requires
        old(registry).wf(),
    ensures
        final(registry).wf(),
        final(registry).descriptions() == old(registry).descriptions(),
        final(registry).versions() == old(registry).versions(),
        keeps(old(registry).table(), final(registry).table()),
        grounded(old(registry).table(), fact_views(facts@), final(registry).table()),
        r is Ok <==> typable(old(registry).table(), fact_views(facts@)),
        match r {
            Ok(_) => satisfies(final(registry).table(), fact_views(facts@)) && !conflicting(
                old(registry).table(),
                fact_views(facts@),
            ),
            Err(SolverError::IncorrectConstraintType { .. }) => conflicting(
                old(registry).table(),
                fact_views(facts@),
            ),
            Err(SolverError::UnknownType { .. }) => exists|i: int|
                leaves_open(final(registry).table(), fact_views(facts@), i) && nothing_tells(
                    old(registry).table(),
                    fact_views(facts@),
                    i,
                ),
            Err(_) => false,
        },
{
    let ghost base = registry.table();
    let ghost fv = fact_views(facts@);
    proof {
        assert forall|i: int| 0 <= i < base.len() implies derivable(
            base,
            fv,
            ((#[trigger] base[i]).package, base[i].option),
            base[i].dtype,
        ) by {
            let key = (base[i].package, base[i].option);
            lemma_type_in(base, key);
            assert(is_line_of(base, i, key.0, key.1));
            assert(derives(base, fv, 0, key, base[i].dtype));
        }
    }
    let mut changed = true;
    while changed
        invariant
            registry.wf(),
            registry.descriptions() == old(registry).descriptions(),
            registry.versions() == old(registry).versions(),
            base == old(registry).table(),
            fv == fact_views(facts@),
            fv.len() == facts@.len(),
            keeps(base, registry.table()),
            grounded(base, fv, registry.table()),
            !changed ==> settled_first(registry.table(), fv, fv.len() as int),
        decreases open_count(registry.table(), fv, fv.len()), changed as int,
    {
        changed = false;
        let ghost start = registry.table();
        let mut i: usize = 0;
        proof {
            lemma_open_count_falls(start, start, fv, fv.len(), 0);
        }
        while i < facts.len()
            invariant
                i <= facts.len(),
                registry.wf(),
                registry.descriptions() == old(registry).descriptions(),
                registry.versions() == old(registry).versions(),
                base == old(registry).table(),
                fv == fact_views(facts@),
                fv.len() == facts@.len(),
                keeps(base, registry.table()),
                grounded(base, fv, registry.table()),
                distinct_keys(start),
                keeps(start, registry.table()),
                !changed ==> registry.table() == start && settled_first(start, fv, i as int),
                changed ==> open_count(registry.table(), fv, fv.len()) < open_count(
                    start,
                    fv,
                    fv.len(),
                ),
            decreases facts.len() - i,
        {
            let ghost table = registry.table();
            let ghost was = changed;
            assert(fv[i as int] == facts@[i as int]@);
            proof {
                lemma_open_count_falls(start, table, fv, fv.len(), 0);
            }
            match &facts[i] {
                Fact::Is { package, option, dtype } => {
                    let ghost key = (package@, text_view(*option));
                    proof {
                        lemma_fact_derivable(base, fv, i as int, key, *dtype);
                    }
                    match put_type(registry, package.as_str(), as_str_option(option), *dtype) {
                        Ok(new) => {
                            if new {
                                proof {
                                    lemma_grounded_grows(base, fv, table, key, *dtype);
                                }
                                changed = true;
                            }
                        },
                        Err(e) => {
                            proof {
                                let held = type_in(table, key)->0;
                                lemma_typed_is_derivable(base, fv, table, key, held);
                                lemma_two_types(base, fv, key, held, *dtype);
                            }
                            return Err(e);
                        },
                    }
                },
                Fact::Same { package, option, other_package, other_option } => {
                    let ghost a = (package@, Some(option@));
                    let ghost b = (other_package@, Some(other_option@));
                    let left = type_of_key(registry, package.as_str(), Some(option.as_str()));
                    let right = type_of_key(
                        registry,
                        other_package.as_str(),
                        Some(other_option.as_str()),
                    );
                    match (left, right) {
                        (Some(x), Some(y)) => {
                            if x != y {
                                proof {
                                    lemma_typed_is_derivable(base, fv, table, a, x);
                                    lemma_typed_is_derivable(base, fv, table, b, y);
                                    lemma_step_derivable(base, fv, i as int, b, a, y);
                                    lemma_two_types(base, fv, a, x, y);
                                }
                                return Err(
                                    SolverError::IncorrectConstraintType {
                                        expected: ConstraintType::Value(x),
                                        received: ConstraintType::Value(y),
                                    },
                                );
                            }
                        },
                        (Some(x), None) => {
                            proof {
                                lemma_typed_is_derivable(base, fv, table, a, x);
                                lemma_step_derivable(base, fv, i as int, a, b, x);
                            }
                            match put_type(
                                registry,
                                other_package.as_str(),
                                Some(other_option.as_str()),
                                x,
                            ) {
                                Ok(_) => {
                                    proof {
                                        lemma_grounded_grows(base, fv, table, b, x);
                                    }
                                    changed = true;
                                },
                                Err(e) => {
                                    assert(false);
                                    return Err(e);
                                },
                            }
                        },
                        (None, Some(y)) => {
                            proof {
                                lemma_typed_is_derivable(base, fv, table, b, y);
                                lemma_step_derivable(base, fv, i as int, b, a, y);
                            }
                            match put_type(registry, package.as_str(), Some(option.as_str()), y) {
                                Ok(_) => {
                                    proof {
                                        lemma_grounded_grows(base, fv, table, a, y);
                                    }
                                    changed = true;
                                },
                                Err(e) => {
                                    assert(false);
                                    return Err(e);
                                },
                            }
                        },
                        (None, None) => {},
                    }
                },
            }
            proof {
                let now = registry.table();
                if changed && !was {
                    assert(now != table);
                }
                if now != table {
                    assert(keeps(table, now));
                    match fv[i as int] {
                        FactView::Is(k, _) => {},
                        FactView::Same(a, b) => {
                            if type_in(table, a) is Some {
                                lemma_kept_type(table, now, a);
                            }
                            if type_in(table, b) is Some {
                                lemma_kept_type(table, now, b);
                            }
                        },
                    }
                    assert(is_open(table, fv[i as int]));
                    assert(!is_open(now, fv[i as int]));
                    lemma_open_count_falls(table, now, fv, fv.len(), i as int);
                } else {
                    assert(is_settled(table, fv[i as int]));
                }
            }
            i = i + 1;
        }
    }
    let ghost rest = registry.table();
    let mut i: usize = 0;
    while i < facts.len()
        invariant
            i <= facts.len(),
            registry.wf(),
            registry.descriptions() == old(registry).descriptions(),
            registry.versions() == old(registry).versions(),
            base == old(registry).table(),
            fv == fact_views(facts@),
            fv.len() == facts@.len(),
            keeps(base, registry.table()),
            grounded(base, fv, registry.table()),
            distinct_keys(rest),
            keeps(base, rest),
            keeps(rest, registry.table()),
            settled_first(rest, fv, fv.len() as int),
            forall|j: int|
                0 <= j < i ==> match #[trigger] fv[j] {
                    FactView::Is(k, t) => type_in(registry.table(), k) == Some(t),
                    FactView::Same(a, b) => type_in(registry.table(), a) is Some && type_in(
                        registry.table(),
                        a,
                    ) == type_in(registry.table(), b),
                },
        decreases facts.len() - i,
    {
        let ghost table = registry.table();
        assert(fv[i as int] == facts@[i as int]@);
        match &facts[i] {
            Fact::Is { package, option, dtype } => {
                let ghost key = (package@, text_view(*option));
                match type_of_key(registry, package.as_str(), as_str_option(option)) {
                    Some(held) => {
                        if held != *dtype {
                            proof {
                                lemma_typed_is_derivable(base, fv, table, key, held);
                                lemma_fact_derivable(base, fv, i as int, key, *dtype);
                                lemma_two_types(base, fv, key, held, *dtype);
                            }
                            return Err(
                                SolverError::IncorrectConstraintType {
                                    expected: ConstraintType::Value(held),
                                    received: ConstraintType::Value(*dtype),
                                },
                            );
                        }
                    },
                    None => {
                        proof {
                            assert(is_settled(rest, fv[i as int]));
                            lemma_kept_type(rest, table, key);
                            assert(false);
                        }
                        return Err(
                            SolverError::UnknownType {
                                package: package.clone(),
                                option: match option {
                                    Some(o) => o.clone(),
                                    None => String::from_str(""),
                                },
                            },
                        );
                    },
                }
            },
            Fact::Same { package, option, other_package, other_option } => {
                let ghost a = (package@, Some(option@));
                let ghost b = (other_package@, Some(other_option@));
                let left = type_of_key(registry, package.as_str(), Some(option.as_str()));
                let right = type_of_key(
                    registry,
                    other_package.as_str(),
                    Some(other_option.as_str()),
                );
                match (left, right) {
                    (Some(x), Some(y)) => {
                        if x != y {
                            proof {
                                lemma_typed_is_derivable(base, fv, table, a, x);
                                lemma_typed_is_derivable(base, fv, table, b, y);
                                lemma_step_derivable(base, fv, i as int, b, a, y);
                                lemma_two_types(base, fv, a, x, y);
                            }
                            return Err(
                                SolverError::IncorrectConstraintType {
                                    expected: ConstraintType::Value(x),
                                    received: ConstraintType::Value(y),
                                },
                            );
                        }
                    },
                    (Some(x), None) => {
                        proof {
                            lemma_typed_is_derivable(base, fv, table, a, x);
                            lemma_step_derivable(base, fv, i as int, a, b, x);
                        }
                        match put_type(
                            registry,
                            other_package.as_str(),
                            Some(other_option.as_str()),
                            x,
                        ) {
                            Ok(_) => {
                                proof {
                                    lemma_grounded_grows(base, fv, table, b, x);
                                }
                            },
                            Err(e) => {
                                assert(false);
                                return Err(e);
                            },
                        }
                        proof {
                            assert(keeps(table, registry.table()));
                            lemma_later_line_keeps_types(table, registry.table(), fv, i as int);
                            lemma_kept_type(table, registry.table(), a);
                        }
                    },
                    (None, Some(y)) => {
                        proof {
                            lemma_typed_is_derivable(base, fv, table, b, y);
                            lemma_step_derivable(base, fv, i as int, b, a, y);
                        }
                        match put_type(registry, package.as_str(), Some(option.as_str()), y) {
                            Ok(_) => {
                                proof {
                                    lemma_grounded_grows(base, fv, table, a, y);
                                }
                            },
                            Err(e) => {
                                assert(false);
                                return Err(e);
                            },
                        }
                        proof {
                            assert(keeps(table, registry.table()));
                            lemma_later_line_keeps_types(table, registry.table(), fv, i as int);
                            lemma_kept_type(table, registry.table(), b);
                        }
                    },
                    (None, None) => {
                        assert(leaves_open(table, fv, i as int));
                        proof {
                            assert forall|t: SpecOptionType|
                                !#[trigger] derivable(base, fv, a, t) && !derivable(
                                    base,
                                    fv,
                                    b,
                                    t,
                                ) by {
                                if derivable(base, fv, a, t) {
                                    let n = choose|n: nat| derives(base, fv, n, a, t);
                                    lemma_settled_holds_all(base, fv, rest, n, a, t);
                                    lemma_kept_type(rest, table, a);
                                }
                                if derivable(base, fv, b, t) {
                                    let n = choose|n: nat| derives(base, fv, n, b, t);
                                    lemma_settled_holds_all(base, fv, rest, n, b, t);
                                    lemma_kept_type(rest, table, b);
                                }
                            }
                            assert(nothing_tells(base, fv, i as int));
                        }
                        return Err(
                            SolverError::UnknownType {
                                package: package.clone(),
                                option: option.clone(),
                            },
                        );
                    },
                }
            },
        }
        i = i + 1;
    }
    proof {
        let table = registry.table();
        if conflicting(base, fv) {
            let (key, a, b) = choose|key: Key, a: SpecOptionType, b: SpecOptionType|
                a != b && #[trigger] derivable(base, fv, key, a) && #[trigger] derivable(
                    base,
                    fv,
                    key,
                    b,
                );
            let n = choose|n: nat| derives(base, fv, n, key, a);
            let m = choose|m: nat| derives(base, fv, m, key, b);
            lemma_derived_type_holds(base, fv, table, n, key, a);
            lemma_derived_type_holds(base, fv, table, m, key, b);
        }
        lemma_table_shows_typable(base, fv, table);
    }
    Ok(())
}

/// A table that got one more line has the types it had.
proof fn lemma_later_line_keeps_types(
    before: Seq<EntryView>,
    after: Seq<EntryView>,
    fv: Seq<FactView>,
    i: int,
)
    requires
        distinct_keys(after),
        keeps(before, after),
        0 <= i <= fv.len(),
        forall|j: int|
            0 <= j < i ==> match #[trigger] fv[j] {
                FactView::Is(k, t) => type_in(before, k) == Some(t),
                FactView::Same(a, b) => type_in(before, a) is Some && type_in(before, a) == type_in(
                    before,
                    b,
                ),
            },
    ensures
        forall|j: int|
            0 <= j < i ==> match #[trigger] fv[j] {
                FactView::Is(k, t) => type_in(after, k) == Some(t),
                FactView::Same(a, b) => type_in(after, a) is Some && type_in(after, a) == type_in(
                    after,
                    b,
                ),
            },
{
    assert forall|j: int| 0 <= j < i implies match #[trigger] fv[j] {
        FactView::Is(k, t) => type_in(after, k) == Some(t),
        FactView::Same(a, b) => type_in(after, a) is Some && type_in(after, a) == type_in(after, b),
    } by {
        match fv[j] {
            FactView::Is(k, t) => {
                lemma_kept_type(before, after, k);
            },
            FactView::Same(a, b) => {
                lemma_kept_type(before, after, a);
                lemma_kept_type(before, after, b);
            },
        }
    }
}

} // verus!
