//! The tree of a constraint, and what can be read off it without knowing
//! any types: the packages it depends on, the options it names, and the
//! text that describes it.

use super::kinds::{operator_text, CmpType};
use crate::spec::spec_option::{value_text, SpecOptionValue};
use crate::spec::spec_option;
use crate::util::parse::consumer::same_text;
use vstd::prelude::*;
use vstd::string::StringExecFns;

verus! {

/// The package is needed.
#[derive(Debug)]
pub struct Depends {
    on: String,
}

/// The value of an option of a package.
#[derive(Debug)]
pub struct SpecOption {
    pub package_name: String,
    pub option_name: String,
}

/// A value that is written out.
#[derive(Debug)]
pub struct Value {
    pub value: SpecOptionValue,
}

/// Two constraints held against each other.
#[derive(Debug)]
pub struct Cmp {
    pub lhs: Constraint,
    pub rhs: Constraint,
    pub op: CmpType,
}

/// Where the condition holds, so does what follows.
#[derive(Debug)]
pub struct IfThen {
    pub cond: Constraint,
    pub then: Constraint,
}

/// What is held is to be as large as it can be.
#[derive(Debug)]
pub struct Maximize {
    pub item: Constraint,
}

/// What is held is to be as small as it can be.
#[derive(Debug)]
pub struct Minimize {
    pub item: Constraint,
}

/// The number of the constraints that hold.
#[derive(Debug)]
pub struct NumOf {
    pub of: Vec<Constraint>,
}

/// A constraint of an outline.
#[derive(Debug)]
pub enum Constraint {
    Cmp(Box<Cmp>),
    Depends(Box<Depends>),
    IfThen(Box<IfThen>),
    Maximize(Box<Maximize>),
    Minimize(Box<Minimize>),
    NumOf(Box<NumOf>),
    SpecOption(Box<SpecOption>),
    Value(Box<Value>),
}

impl Depends {
    /// The name of the package that is needed.
    pub closed spec fn name(self) -> Seq<char> {
        self.on@
    }

    pub fn new(on: String) -> (d: Self)
        ensures
            d.name() == on@,
    {
        Self { on }
    }

    /// The name of the package that is needed.
    pub fn on(&self) -> (name: &String)
        ensures
            name@ == self.name(),
    {
        &self.on
    }
}

/// The views of `texts`, in order.
pub open spec fn texts(v: Seq<String>) -> Seq<Seq<char>> {
    v.map_values(|s: String| s@)
}

/// The names of the packages that `c` depends on, as they come when the
/// tree is read from the top and from left to right; a name comes as often
/// as it stands in the tree.
pub open spec fn mentions(c: Constraint) -> Seq<Seq<char>>
    decreases c, 0nat,
{
    match c {
        Constraint::Depends(d) => seq![d.name()],
        Constraint::SpecOption(_) => Seq::empty(),
        Constraint::Value(_) => Seq::empty(),
        Constraint::Cmp(b) => mentions(b.lhs) + mentions(b.rhs),
        Constraint::IfThen(b) => match *b {
            IfThen { cond, then } => mentions(cond) + mentions(then),
        },
        Constraint::Maximize(b) => mentions(b.item),
        Constraint::Minimize(b) => mentions(b.item),
        Constraint::NumOf(b) => mentions_first(b.of@, b.of@.len()),
    }
}

/// [`mentions`] of the first `n` of `children`, one after the other.
pub open spec fn mentions_first(children: Seq<Constraint>, n: nat) -> Seq<Seq<char>>
    decreases children, n,
{
    if n == 0 || n > children.len() {
        Seq::empty()
    } else {
        mentions_first(children, (n - 1) as nat) + mentions(children[n - 1])
    }
}

/// The options that `c` names, each as package and option, as they come
/// when the tree is read from the top and from left to right.
pub open spec fn option_refs(c: Constraint) -> Seq<(Seq<char>, Seq<char>)>
    decreases c, 0nat,
{
    match c {
        Constraint::Depends(_) => Seq::empty(),
        Constraint::SpecOption(o) => seq![(o.package_name@, o.option_name@)],
        Constraint::Value(_) => Seq::empty(),
        Constraint::Cmp(b) => option_refs(b.lhs) + option_refs(b.rhs),
        Constraint::IfThen(b) => match *b {
            IfThen { cond, then } => option_refs(cond) + option_refs(then),
        },
        Constraint::Maximize(b) => option_refs(b.item),
        Constraint::Minimize(b) => option_refs(b.item),
        Constraint::NumOf(b) => option_refs_first(b.of@, b.of@.len()),
    }
}

/// [`option_refs`] of the first `n` of `children`, one after the other.
pub open spec fn option_refs_first(children: Seq<Constraint>, n: nat) -> Seq<
    (Seq<char>, Seq<char>),
>
    decreases children, n,
{
    if n == 0 || n > children.len() {
        Seq::empty()
    } else {
        option_refs_first(children, (n - 1) as nat) + option_refs(children[n - 1])
    }
}

/// The text that describes `c`.
pub open spec fn describe(c: Constraint) -> Seq<char>
    decreases c, 0nat,
{
    match c {
        Constraint::Depends(d) => "Depends( "@ + d.name() + " )"@,
        Constraint::SpecOption(o) => "Package '"@ + o.package_name@ + "' -> Option '"@
            + o.option_name@ + "'"@,
        Constraint::Value(v) => value_text(v.value@),
        Constraint::Cmp(b) => "[ "@ + describe(b.lhs) + " ] "@ + operator_text(b.op) + " [ "@
            + describe(b.rhs) + " ]"@,
        Constraint::IfThen(b) => match *b {
            IfThen { cond, then } => "If( "@ + describe(cond) + " ) Then [ "@ + describe(then)
                + " ]"@,
        },
        Constraint::Maximize(b) => "Maximize( "@ + describe(b.item) + " )"@,
        Constraint::Minimize(b) => "Minimize( "@ + describe(b.item) + " )"@,
        Constraint::NumOf(b) => "NumOf( "@ + describe_first(b.of@, b.of@.len()) + " )"@,
    }
}

/// The descriptions of the first `n` of `children`, each with a comma and a
/// space behind it.
pub open spec fn describe_first(children: Seq<Constraint>, n: nat) -> Seq<char>
    decreases children, n,
{
    if n == 0 || n > children.len() {
        Seq::empty()
    } else {
        describe_first(children, (n - 1) as nat) + describe(children[n - 1]) + ", "@
    }
}

/// `names` without the names that came before: each name once, where it
/// came first.
pub open spec fn first_occurrences(names: Seq<Seq<char>>) -> Seq<Seq<char>>
    decreases names.len(),
{
    if names.len() == 0 {
        Seq::empty()
    } else {
        let head = first_occurrences(names.drop_last());
        if occurs(head, names.last()) {
            head
        } else {
            head.push(names.last())
        }
    }
}

/// Whether `name` is one of `names`.
pub open spec fn occurs(names: Seq<Seq<char>>, name: Seq<char>) -> bool {
    exists|i: int| 0 <= i < names.len() && #[trigger] names[i] == name
}

/// [`first_occurrences`] holds the names of the list it was made of, and
/// none twice.
pub proof fn lemma_first_occurrences(names: Seq<Seq<char>>)
    ensures
        forall|name: Seq<char>|
            #[trigger] occurs(first_occurrences(names), name) <==> occurs(names, name),
        forall|i: int, j: int|
            0 <= i < j < first_occurrences(names).len() ==> #[trigger] first_occurrences(names)[i]
                != #[trigger] first_occurrences(names)[j],
    decreases names.len(),
{
    if names.len() > 0 {
        let init = names.drop_last();
        let head = first_occurrences(init);
        let last = names.last();
        let all = first_occurrences(names);
        lemma_first_occurrences(init);
        assert forall|name: Seq<char>| #[trigger] occurs(all, name) <==> occurs(names, name) by {
            if occurs(all, name) {
                let i = choose|i: int| 0 <= i < all.len() && #[trigger] all[i] == name;
                if i < head.len() {
                    assert(head[i] == name);
                    assert(occurs(head, name));
                    assert(occurs(init, name));
                    let k = choose|k: int| 0 <= k < init.len() && #[trigger] init[k] == name;
                    assert(names[k] == name);
                } else {
                    assert(names[names.len() - 1] == name);
                }
            }
            if occurs(names, name) {
                let k = choose|k: int| 0 <= k < names.len() && #[trigger] names[k] == name;
                if k < init.len() {
                    assert(init[k] == name);
                    assert(occurs(init, name));
                    assert(occurs(head, name));
                    let i = choose|i: int| 0 <= i < head.len() && #[trigger] head[i] == name;
                    assert(all[i] == name);
                } else if occurs(head, last) {
                } else {
                    assert(all[head.len() as int] == name);
                }
            }
        }
        assert forall|i: int, j: int| 0 <= i < j < all.len() implies #[trigger] all[i]
            != #[trigger] all[j] by {
            if j < head.len() {
                assert(head[i] != head[j]);
            } else {
                assert(head[i] == all[i]);
            }
        }
    }
}

/// Whether `name` is among `names`.
pub fn holds_name(names: &Vec<String>, name: &str) -> (b: bool)
    ensures
        b == occurs(texts(names@), name@),
{
    let mut i: usize = 0;
    while i < names.len()
        invariant
            i <= names.len(),
            forall|j: int| 0 <= j < i ==> texts(names@)[j] != name@,
        decreases names.len() - i,
    {
        if same_text(names[i].as_str(), name) {
            assert(texts(names@)[i as int] == name@);
            return true;
        }
        i = i + 1;
    }
    false
}

/// Keeps of each name the first that comes.
pub fn keep_first_occurrences(names: &Vec<String>) -> (kept: Vec<String>)
    ensures
        texts(kept@) == first_occurrences(texts(names@)),
{
    let mut kept: Vec<String> = Vec::new();
    let mut i: usize = 0;
    assert(texts(names@).take(0) =~= Seq::<Seq<char>>::empty());
    assert(texts(kept@) =~= Seq::<Seq<char>>::empty());
    while i < names.len()
        invariant
            i <= names.len(),
            texts(kept@) == first_occurrences(texts(names@).take(i as int)),
        decreases names.len() - i,
    {
        proof {
            let longer = texts(names@).take(i + 1);
            assert(longer.drop_last() =~= texts(names@).take(i as int));
            assert(longer.last() == names@[i as int]@);
        }
        if !holds_name(&kept, names[i].as_str()) {
            let ghost before = texts(kept@);
            kept.push(names[i].clone());
            assert(texts(kept@) =~= before.push(names@[i as int]@));
        }
        i = i + 1;
    }
    assert(texts(names@).take(i as int) =~= texts(names@));
    kept
}

/// The views of the pairs of `refs`, in order.
pub open spec fn ref_views(refs: Seq<(String, String, spec_option::SpecOption)>) -> Seq<
    (Seq<char>, Seq<char>),
> {
    refs.map_values(|r: (String, String, spec_option::SpecOption)| (r.0@, r.1@))
}

impl Constraint {
    #[verifier::loop_isolation(false)]
    fn collect_mentions(&self, out: &mut Vec<String>)
        ensures
            texts(final(out)@) == texts(old(out)@) + mentions(*self),
        decreases self,
    {
        let ghost start = texts(out@);
        match self {
            Constraint::Depends(d) => {
                out.push(d.on().clone());
                assert(texts(out@) =~= start + mentions(*self));
            },
            Constraint::SpecOption(_) => {
                assert(texts(out@) =~= start + mentions(*self));
            },
            Constraint::Value(_) => {
                assert(texts(out@) =~= start + mentions(*self));
            },
            Constraint::Cmp(b) => {
                b.lhs.collect_mentions(out);
                b.rhs.collect_mentions(out);
                assert(texts(out@) =~= start + mentions(*self));
            },
            Constraint::IfThen(b) => {
                let IfThen { cond, then } = &**b;
                cond.collect_mentions(out);
                then.collect_mentions(out);
                assert(texts(out@) =~= start + mentions(*self));
            },
            Constraint::Maximize(b) => {
                b.item.collect_mentions(out);
            },
            Constraint::Minimize(b) => {
                b.item.collect_mentions(out);
            },
            Constraint::NumOf(b) => {
                let mut i: usize = 0;
                assert(texts(out@) =~= start + mentions_first(b.of@, 0));
                while i < b.of.len()
                    invariant
                        i <= b.of.len(),
                        texts(out@) == start + mentions_first(b.of@, i as nat),
                    decreases b.of.len() - i,
                {
                    proof {
                        assert(decreases_to!(b.of => b.of@));
                        assert(decreases_to!(b.of@ => b.of@[i as int]));
                    }
                    b.of[i].collect_mentions(out);
                    assert(texts(out@) =~= start + mentions_first(b.of@, (i + 1) as nat));
                    i = i + 1;
                }
            },
        }
    }

    /// The names of the packages that the constraint depends on, in the
    /// order of the tree, each as often as it is named.
    pub fn all_mentions(&self) -> (names: Vec<String>)
        ensures
            texts(names@) == mentions(*self),
    {
        let mut all: Vec<String> = Vec::new();
        assert(texts(all@) =~= Seq::<Seq<char>>::empty());
        self.collect_mentions(&mut all);
        assert(texts(all@) =~= mentions(*self));
        all
    }

    /// The names of the packages that the constraint depends on, each once,
    /// in the order in which they first come in the tree.
    pub fn extract_dependencies(&self) -> (names: Vec<String>)
        ensures
            texts(names@) == first_occurrences(mentions(*self)),
            forall|name: Seq<char>|
                #[trigger] occurs(texts(names@), name) <==> occurs(mentions(*self), name),
            forall|i: int, j: int|
                0 <= i < j < names@.len() ==> #[trigger] texts(names@)[i] != #[trigger] texts(
                    names@,
                )[j],
    {
        let mut all: Vec<String> = Vec::new();
        assert(texts(all@) =~= Seq::<Seq<char>>::empty());
        self.collect_mentions(&mut all);
        assert(texts(all@) =~= mentions(*self));
        proof {
            lemma_first_occurrences(mentions(*self));
        }
        keep_first_occurrences(&all)
    }

    #[verifier::loop_isolation(false)]
    fn collect_spec_options(&self, out: &mut Vec<(String, String, spec_option::SpecOption)>)
        ensures
            ref_views(final(out)@) == ref_views(old(out)@) + option_refs(*self),
        decreases self,
    {
        let ghost start = ref_views(out@);
        match self {
            Constraint::Depends(_) => {
                assert(ref_views(out@) =~= start + option_refs(*self));
            },
            Constraint::SpecOption(o) => {
                out.push(
                    (
                        o.package_name.clone(),
                        o.option_name.clone(),
                        spec_option::SpecOption { value: None, default: None, valid: None },
                    ),
                );
                assert(ref_views(out@) =~= start + option_refs(*self));
            },
            Constraint::Value(_) => {
                assert(ref_views(out@) =~= start + option_refs(*self));
            },
            Constraint::Cmp(b) => {
                b.lhs.collect_spec_options(out);
                b.rhs.collect_spec_options(out);
                assert(ref_views(out@) =~= start + option_refs(*self));
            },
            Constraint::IfThen(b) => {
                let IfThen { cond, then } = &**b;
                cond.collect_spec_options(out);
                then.collect_spec_options(out);
                assert(ref_views(out@) =~= start + option_refs(*self));
            },
            Constraint::Maximize(b) => {
                b.item.collect_spec_options(out);
            },
            Constraint::Minimize(b) => {
                b.item.collect_spec_options(out);
            },
            Constraint::NumOf(b) => {
                let mut i: usize = 0;
                assert(ref_views(out@) =~= start + option_refs_first(b.of@, 0));
                while i < b.of.len()
                    invariant
                        i <= b.of.len(),
                        ref_views(out@) == start + option_refs_first(b.of@, i as nat),
                    decreases b.of.len() - i,
                {
                    proof {
                        assert(decreases_to!(b.of => b.of@));
                        assert(decreases_to!(b.of@ => b.of@[i as int]));
                    }
                    b.of[i].collect_spec_options(out);
                    assert(ref_views(out@) =~= start + option_refs_first(b.of@, (i + 1) as nat));
                    i = i + 1;
                }
            },
        }
    }

    /// The options that the constraint names, each with its package and
    /// with room for what will be known of it, in the order of the tree.
    pub fn extract_spec_options(&self) -> (refs: Vec<(String, String, spec_option::SpecOption)>)
        ensures
            ref_views(refs@) == option_refs(*self),
            forall|i: int|
                0 <= i < refs@.len() ==> (#[trigger] refs@[i]).2.value is None && refs@[i].2.default
                    is None && refs@[i].2.valid is None,
    {
        let mut refs: Vec<(String, String, spec_option::SpecOption)> = Vec::new();
        assert(ref_views(refs@) =~= Seq::<(Seq<char>, Seq<char>)>::empty());
        self.collect_spec_options(&mut refs);
        assert(ref_views(refs@) =~= option_refs(*self));
        let mut i: usize = 0;
        while i < refs.len()
            invariant
                i <= refs.len(),
                ref_views(refs@) == option_refs(*self),
                forall|j: int|
                    0 <= j < i ==> (#[trigger] refs@[j]).2.value is None && refs@[j].2.default
                        is None && refs@[j].2.valid is None,
            decreases refs.len() - i,
        {
            let ghost before = ref_views(refs@);
            let (package, option, _) = &refs[i];
            let shell = (
                package.clone(),
                option.clone(),
                spec_option::SpecOption { value: None, default: None, valid: None },
            );
            refs.set(i, shell);
            assert(ref_views(refs@) =~= before);
            i = i + 1;
        }
        refs
    }

    /// The text that describes the constraint.
    #[verifier::loop_isolation(false)]
    pub fn to_text(&self) -> (s: String)
        ensures
            s@ == describe(*self),
        decreases self,
    {
        match self {
            Constraint::Depends(d) => {
                let mut s = String::from_str("Depends( ");
                s.append(d.on().as_str());
                s.append(" )");
                s
            },
            Constraint::SpecOption(o) => {
                let mut s = String::from_str("Package '");
                s.append(o.package_name.as_str());
                s.append("' -> Option '");
                s.append(o.option_name.as_str());
                s.append("'");
                s
            },
            Constraint::Value(v) => v.value.to_text(),
            Constraint::Cmp(b) => {
                let mut s = String::from_str("[ ");
                s.append(b.lhs.to_text().as_str());
                s.append(" ] ");
                s.append(b.op.to_text().as_str());
                s.append(" [ ");
                s.append(b.rhs.to_text().as_str());
                s.append(" ]");
                s
            },
            Constraint::IfThen(b) => {
                let IfThen { cond, then } = &**b;
                let mut s = String::from_str("If( ");
                s.append(cond.to_text().as_str());
                s.append(" ) Then [ ");
                s.append(then.to_text().as_str());
                s.append(" ]");
                s
            },
            Constraint::Maximize(b) => {
                let mut s = String::from_str("Maximize( ");
                s.append(b.item.to_text().as_str());
                s.append(" )");
                s
            },
            Constraint::Minimize(b) => {
                let mut s = String::from_str("Minimize( ");
                s.append(b.item.to_text().as_str());
                s.append(" )");
                s
            },
            Constraint::NumOf(b) => {
                let mut s = String::from_str("NumOf( ");
                let mut i: usize = 0;
                assert(s@ =~= "NumOf( "@ + describe_first(b.of@, 0));
                while i < b.of.len()
                    invariant
                        i <= b.of.len(),
                        s@ == "NumOf( "@ + describe_first(b.of@, i as nat),
                    decreases b.of.len() - i,
                {
                    proof {
                        assert(decreases_to!(b.of => b.of@));
                        assert(decreases_to!(b.of@ => b.of@[i as int]));
                    }
                    s.append(b.of[i].to_text().as_str());
                    s.append(", ");
                    assert(s@ =~= "NumOf( "@ + describe_first(b.of@, (i + 1) as nat));
                    i = i + 1;
                }
                s.append(" )");
                s
            },
        }
    }
}

} // verus!
