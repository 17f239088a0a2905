//! Versions: sequences of numbers and names with separators between them,
//! ordered so that a solver can treat them as integers.

use super::order::{
    compare_names, int_order, lemma_name_order_basics, lemma_name_order_transitive, name_order,
    sign_of, Comparison,
};
use crate::util::parse::chars::{char_is_digit, char_is_letter, is_digit, is_letter};
use crate::util::parse::consumer::same_text;
use crate::util::parse::integer::{decimal, parse_decimal};
use crate::util::text::{decimal_text, write_decimal};
use vstd::prelude::*;
use vstd::string::StringExecFns;

verus! {

/// A placeholder in a version.
///
/// `Single` is written `*` and stands for any one number or name; `Rest` is
/// written `>` and stands for whatever follows.
#[derive(Debug, Clone, Copy, PartialEq, Eq, Hash, Structural)]
pub enum WildcardType {
    Single,
    Rest,
}

/// One part of a version.
#[derive(Debug, Clone, PartialEq, Eq, Hash)]
pub enum Part {
    /// A number.
    Int(usize),
    /// A name made of letters and digits.
    Str(String),
    /// A placeholder.
    Wildcard(WildcardType),
    /// What stands between two of the others: `.`, `-` or `+`.
    Sep(char),
}

/// What a part is, as a value of mathematics.
pub enum PartView {
    Int(nat),
    Str(Seq<char>),
    Wildcard(WildcardType),
    Sep(char),
}

impl View for Part {
    type V = PartView;

    open spec fn view(&self) -> PartView {
        match self {
            Part::Int(n) => PartView::Int(*n as nat),
            Part::Str(s) => PartView::Str(s@),
            Part::Wildcard(w) => PartView::Wildcard(*w),
            Part::Sep(c) => PartView::Sep(*c),
        }
    }
}

/// The views of the parts of `parts`, in order.
pub open spec fn parts_view(parts: Seq<Part>) -> Seq<PartView> {
    parts.map_values(|p: Part| p@)
}

/// Whether `c` is one of the three separators.
pub open spec fn is_separator(c: char) -> bool {
    c == '.' || c == '-' || c == '+'
}

/// Whether `p` can stand where a version has a value: anything but a
/// separator.
pub open spec fn is_value(p: PartView) -> bool {
    !(p is Sep)
}

/// Whether `p` is a number or a name.
pub open spec fn is_concrete_value(p: PartView) -> bool {
    p is Int || p is Str
}

/// Whether `parts` are the parts of a version: values and separators in
/// turn, a value first and last, and `>` nowhere but at the end.
pub open spec fn well_formed(parts: Seq<PartView>) -> bool {
    &&& parts.len() % 2 == 1
    &&& forall|i: int|
        0 <= i < parts.len() ==> if i % 2 == 0 {
            is_value(#[trigger] parts[i])
        } else {
            parts[i] matches PartView::Sep(c) && is_separator(c)
        }
    &&& forall|i: int|
        0 <= i < parts.len() && #[trigger] parts[i] == PartView::Wildcard(WildcardType::Rest) ==> i
            == parts.len() - 1
}

/// Whether `parts` hold no placeholder.
pub open spec fn concrete(parts: Seq<PartView>) -> bool {
    forall|i: int| 0 <= i < parts.len() ==> !(#[trigger] parts[i] is Wildcard)
}

/// How two values of a version compare: a name is below every number,
/// numbers go by size, names by [`name_order`].
pub open spec fn value_sign(a: PartView, b: PartView) -> int
    recommends
        is_concrete_value(a),
        is_concrete_value(b),
{
    match (a, b) {
        (PartView::Int(x), PartView::Int(y)) => int_order(x as int, y as int),
        (PartView::Str(_), PartView::Int(_)) => -1,
        (PartView::Int(_), PartView::Str(_)) => 1,
        (PartView::Str(x), PartView::Str(y)) => name_order(x, y),
        _ => 0,
    }
}

/// How two parts compare as values of a version, where both are numbers or
/// names; see [`value_sign`].
pub open spec fn value_order(a: PartView, b: PartView) -> Option<int> {
    if is_concrete_value(a) && is_concrete_value(b) {
        Some(value_sign(a, b))
    } else {
        None
    }
}

/// How the versions `a` and `b` compare from position `i` on, given that
/// they agree before it: -1, 0 or 1, or nothing where they cannot be
/// compared.
///
/// Values are compared first to last. Where two separators at the same
/// place differ, there is no answer. Where one version ends and the other
/// goes on, the one that ends is the greater.
pub open spec fn order_from(a: Seq<PartView>, b: Seq<PartView>, i: int) -> Option<int>
    decreases a.len() + b.len() - i,
{
    if i < 0 {
        None
    } else if i >= a.len() && i >= b.len() {
        Some(0)
    } else if i >= a.len() {
        Some(1)
    } else if i >= b.len() {
        Some(-1)
    } else if i % 2 == 0 {
        match value_order(a[i], b[i]) {
            None => None,
            Some(s) => if s != 0 {
                Some(s)
            } else {
                order_from(a, b, i + 1)
            },
        }
    } else if a[i] == b[i] {
        order_from(a, b, i + 1)
    } else {
        None
    }
}

/// How the versions `a` and `b` compare; see [`order_from`].
pub open spec fn version_order(a: Seq<PartView>, b: Seq<PartView>) -> Option<int> {
    order_from(a, b, 0)
}

/// Whether `a` and `b` hold numbers and names at every even place, so that
/// each pair of values can be compared.
pub open spec fn ordered_values(a: Seq<PartView>) -> bool {
    forall|i: int| 0 <= i < a.len() && i % 2 == 0 ==> is_concrete_value(#[trigger] a[i])
}

proof fn lemma_value_order_basics(a: PartView, b: PartView)
    requires
        is_concrete_value(a),
        is_concrete_value(b),
    ensures
        value_sign(a, b) == 0 <==> a == b,
        value_sign(b, a) == -value_sign(a, b),
        -1 <= value_sign(a, b) <= 1,
{
    match (a, b) {
        (PartView::Str(x), PartView::Str(y)) => {
            lemma_name_order_basics(x, y);
        },
        _ => {},
    }
}

proof fn lemma_value_order_transitive(a: PartView, b: PartView, c: PartView)
    requires
        is_concrete_value(a),
        is_concrete_value(b),
        is_concrete_value(c),
        value_sign(a, b) <= 0,
        value_sign(b, c) <= 0,
    ensures
        value_sign(a, c) <= 0,
        value_sign(a, b) < 0 || value_sign(b, c) < 0 ==> value_sign(a, c) < 0,
{
    match (a, b, c) {
        (PartView::Str(x), PartView::Str(y), PartView::Str(z)) => {
            lemma_name_order_transitive(x, y, z);
        },
        _ => {},
    }
}

proof fn lemma_order_from_equal(a: Seq<PartView>, b: Seq<PartView>, i: int)
    requires
        0 <= i <= a.len(),
        i <= b.len(),
        ordered_values(a),
        ordered_values(b),
        forall|j: int| 0 <= j < i ==> a[j] == b[j],
    ensures
        order_from(a, b, i) == Some(0int) <==> a == b,
        order_from(a, b, i) matches Some(s) ==> -1 <= s <= 1,
    decreases a.len() + b.len() - i,
{
    if i >= a.len() && i >= b.len() {
        assert(a =~= b);
    } else if i >= a.len() || i >= b.len() {
        assert(a.len() != b.len());
    } else {
        if i % 2 == 0 {
            lemma_value_order_basics(a[i], b[i]);
        }
        if a[i] == b[i] {
            lemma_order_from_equal(a, b, i + 1);
        }
    }
}

proof fn lemma_order_from_flips(a: Seq<PartView>, b: Seq<PartView>, i: int)
    requires
        0 <= i,
        ordered_values(a),
        ordered_values(b),
    ensures
        order_from(b, a, i) == match order_from(a, b, i) {
            Some(s) => Some(-s),
            None => None,
        },
    decreases a.len() + b.len() - i,
{
    if i < a.len() && i < b.len() {
        if i % 2 == 0 {
            lemma_value_order_basics(a[i], b[i]);
        }
        lemma_order_from_flips(a, b, i + 1);
    }
}

proof fn lemma_order_from_transitive(a: Seq<PartView>, b: Seq<PartView>, c: Seq<PartView>, i: int)
    requires
        0 <= i,
        ordered_values(a),
        ordered_values(b),
        ordered_values(c),
        order_from(a, b, i) matches Some(s) && s <= 0,
        order_from(b, c, i) matches Some(s) && s <= 0,
    ensures
        order_from(a, c, i) matches Some(s) && s <= 0 && (order_from(a, b, i) == Some(-1int)
            || order_from(b, c, i) == Some(-1int) ==> s == -1),
    decreases a.len() + b.len() + c.len() - i,
{
    if i < a.len() && i < b.len() && i < c.len() {
        if i % 2 == 0 {
            lemma_value_order_basics(a[i], b[i]);
            lemma_value_order_basics(b[i], c[i]);
            lemma_value_order_basics(a[i], c[i]);
            lemma_value_order_transitive(a[i], b[i], c[i]);
            if value_sign(a[i], b[i]) == 0 && value_sign(b[i], c[i]) == 0 {
                lemma_order_from_transitive(a, b, c, i + 1);
            }
        } else {
            lemma_order_from_transitive(a, b, c, i + 1);
        }
    } else if i < a.len() && i < b.len() {
        // `c` has ended, so `b` is below `c` at once and `a` is too.
        if i % 2 == 0 {
            lemma_value_order_basics(a[i], b[i]);
        }
    }
}

/// Of two versions that can be compared, exactly one is the case: the first
/// is below the second, they are the same version, or the first is above
/// the second.
pub proof fn lemma_version_order_total(a: Seq<PartView>, b: Seq<PartView>)
    requires
        ordered_values(a),
        ordered_values(b),
        version_order(a, b) is Some,
    ensures
        version_order(a, b) == Some(-1int) || version_order(a, b) == Some(0int) || version_order(
            a,
            b,
        ) == Some(1int),
        version_order(a, b) == Some(0int) <==> a == b,
        version_order(a, b) == Some(-1int) <==> version_order(b, a) == Some(1int),
        version_order(a, b) == Some(1int) <==> version_order(b, a) == Some(-1int),
{
    lemma_order_from_equal(a, b, 0);
    lemma_order_from_flips(a, b, 0);
}

/// Every version is the equal of itself.
pub proof fn lemma_version_order_reflexive(a: Seq<PartView>)
    requires
        ordered_values(a),
    ensures
        version_order(a, a) == Some(0int),
{
    lemma_order_from_equal(a, a, 0);
}

/// Where `a` is below `b` and `b` is below `c`, `a` is below `c`; the same
/// holds with "below or equal" throughout.
pub proof fn lemma_version_order_transitive(a: Seq<PartView>, b: Seq<PartView>, c: Seq<PartView>)
    requires
        ordered_values(a),
        ordered_values(b),
        ordered_values(c),
        version_order(a, b) matches Some(s) && s <= 0,
        version_order(b, c) matches Some(s) && s <= 0,
    ensures
        version_order(a, c) matches Some(s) && s <= 0,
        version_order(a, b) == Some(-1int) || version_order(b, c) == Some(-1int) ==> version_order(
            a,
            c,
        ) == Some(-1int),
{
    lemma_order_from_transitive(a, b, c, 0);
}

impl Part {
    /// A copy of the part.
    pub fn duplicate(&self) -> (p: Part)
        ensures
            p@ == self@,
    {
        match self {
            Part::Int(n) => Part::Int(*n),
            Part::Str(s) => Part::Str(s.clone()),
            Part::Wildcard(w) => Part::Wildcard(*w),
            Part::Sep(c) => Part::Sep(*c),
        }
    }

    /// Whether two parts are the same.
    pub fn same(&self, other: &Part) -> (b: bool)
        ensures
            b == (self@ == other@),
    {
        match (self, other) {
            (Part::Int(x), Part::Int(y)) => *x == *y,
            (Part::Str(x), Part::Str(y)) => same_text(x.as_str(), y.as_str()),
            (Part::Wildcard(x), Part::Wildcard(y)) => match (x, y) {
                (WildcardType::Single, WildcardType::Single) => true,
                (WildcardType::Rest, WildcardType::Rest) => true,
                _ => false,
            },
            (Part::Sep(x), Part::Sep(y)) => *x == *y,
            _ => false,
        }
    }

    /// Compares two parts as values of a version; there is no answer unless
    /// both are numbers or names.
    pub fn compare(&self, other: &Part) -> (c: Option<Comparison>)
        ensures
            match c {
                Some(c) => value_order(self@, other@) == Some(sign_of(c)),
                None => value_order(self@, other@) is None,
            },
    {
        match (self, other) {
            (Part::Int(x), Part::Int(y)) => Some(
                if *x < *y {
                    Comparison::Less
                } else if *x == *y {
                    Comparison::Equal
                } else {
                    Comparison::Greater
                },
            ),
            (Part::Str(_), Part::Int(_)) => Some(Comparison::Less),
            (Part::Int(_), Part::Str(_)) => Some(Comparison::Greater),
            (Part::Str(x), Part::Str(y)) => Some(compare_names(x.as_str(), y.as_str())),
            _ => None,
        }
    }

    /// The part as it is written.
    pub open spec fn text(p: PartView) -> Seq<char> {
        match p {
            PartView::Int(n) => decimal_text(n),
            PartView::Str(s) => s,
            PartView::Wildcard(WildcardType::Single) => seq!['*'],
            PartView::Wildcard(WildcardType::Rest) => seq!['>'],
            PartView::Sep(c) => seq![c],
        }
    }
}

/// Why a text is no version.
#[derive(Debug, Clone)]
pub enum ParseError {
    /// The text is empty or ends in a separator.
    TrailingSeparator,
    /// A part that is neither a number, a name nor a placeholder.
    InvalidPart(String),
    /// Nothing stands between two separators, or before the first.
    EmptyPart,
    /// Something follows `>`.
    PartAfterRest,
}

/// What a [`ParseError`] is, as a value of mathematics.
pub enum ParseErrorView {
    TrailingSeparator,
    InvalidPart(Seq<char>),
    EmptyPart,
    PartAfterRest,
}

impl View for ParseError {
    type V = ParseErrorView;

    open spec fn view(&self) -> ParseErrorView {
        match self {
            ParseError::TrailingSeparator => ParseErrorView::TrailingSeparator,
            ParseError::InvalidPart(s) => ParseErrorView::InvalidPart(s@),
            ParseError::EmptyPart => ParseErrorView::EmptyPart,
            ParseError::PartAfterRest => ParseErrorView::PartAfterRest,
        }
    }
}

/// Whether every character of `seg` is an ASCII digit.
pub open spec fn all_digits(seg: Seq<char>) -> bool {
    forall|i: int| 0 <= i < seg.len() ==> is_digit(#[trigger] seg[i])
}

/// Whether every character of `seg` is an ASCII letter or digit.
pub open spec fn all_alphanumeric(seg: Seq<char>) -> bool {
    forall|i: int| 0 <= i < seg.len() ==> is_digit(#[trigger] seg[i]) || is_letter(seg[i])
}

/// The value that the text `seg` between two separators stands for;
/// `after_rest` says that a `>` came before it.
pub open spec fn segment_value(seg: Seq<char>, after_rest: bool) -> Result<
    PartView,
    ParseErrorView,
> {
    if after_rest {
        Err(ParseErrorView::PartAfterRest)
    } else if seg == seq!['*'] {
        Ok(PartView::Wildcard(WildcardType::Single))
    } else if seg == seq!['>'] {
        Ok(PartView::Wildcard(WildcardType::Rest))
    } else if seg.len() > 0 && all_digits(seg) && decimal(seg) <= usize::MAX {
        Ok(PartView::Int(decimal(seg)))
    } else if all_alphanumeric(seg) {
        if seg.len() == 0 {
            Err(ParseErrorView::EmptyPart)
        } else {
            Ok(PartView::Str(seg))
        }
    } else {
        Err(ParseErrorView::InvalidPart(seg))
    }
}

/// Where the version in `text` starts: behind a leading `v` that a digit
/// follows, else at the front.
pub open spec fn version_start(text: Seq<char>) -> int {
    if text.len() >= 2 && text[0] == 'v' && is_digit(text[1]) {
        1
    } else {
        0
    }
}

/// The parts that `text` holds from position `from` on, behind the parts
/// `done`; `i` is the position that is looked at, everything from `from` up
/// to it being free of separators.
pub open spec fn parts_from(
    text: Seq<char>,
    from: int,
    i: int,
    after_rest: bool,
    done: Seq<PartView>,
) -> Result<Seq<PartView>, ParseErrorView>
    decreases text.len() - i,
{
    if i < from || from < 0 {
        Err(ParseErrorView::TrailingSeparator)
    } else if i >= text.len() {
        if from >= text.len() {
            Err(ParseErrorView::TrailingSeparator)
        } else {
            match segment_value(text.subrange(from, text.len() as int), after_rest) {
                Ok(p) => Ok(done.push(p)),
                Err(e) => Err(e),
            }
        }
    } else if is_separator(text[i]) {
        match segment_value(text.subrange(from, i), after_rest) {
            Ok(p) => parts_from(
                text,
                i + 1,
                i + 1,
                p == PartView::Wildcard(WildcardType::Rest),
                done.push(p).push(PartView::Sep(text[i])),
            ),
            Err(e) => Err(e),
        }
    } else {
        parts_from(text, from, i + 1, after_rest, done)
    }
}

/// The parts of the version that `text` writes, or why it writes none.
///
/// Values are numbers, names of ASCII letters and digits, `*` and `>`;
/// `.`, `-` and `+` separate them; nothing may follow `>`. A leading `v`
/// in front of a digit is passed over.
pub open spec fn parsed(text: Seq<char>) -> Result<Seq<PartView>, ParseErrorView> {
    parts_from(text, version_start(text), version_start(text), false, Seq::empty())
}

/// Whether `done` is what stands in front of a value of a version:
/// values and separators in turn, a separator last, and no `>` among them
/// unless `after_rest` says so.
pub open spec fn front_formed(done: Seq<PartView>, after_rest: bool) -> bool {
    &&& done.len() % 2 == 0
    &&& forall|i: int|
        0 <= i < done.len() ==> if i % 2 == 0 {
            is_value(#[trigger] done[i])
        } else {
            done[i] matches PartView::Sep(c) && is_separator(c)
        }
    &&& !after_rest ==> forall|i: int|
        0 <= i < done.len() ==> #[trigger] done[i] != PartView::Wildcard(WildcardType::Rest)
}

/// What is read behind a well-formed front is a well-formed version.
pub proof fn lemma_parts_from_well_formed(
    text: Seq<char>,
    from: int,
    i: int,
    after_rest: bool,
    done: Seq<PartView>,
)
    requires
        front_formed(done, after_rest),
    ensures
        parts_from(text, from, i, after_rest, done) matches Ok(parts) ==> well_formed(parts),
    decreases text.len() - i,
{
    if i < from || from < 0 {
    } else if i >= text.len() {
        if from < text.len() {
            let seg = text.subrange(from, text.len() as int);
            if segment_value(seg, after_rest) is Ok {
                let p = segment_value(seg, after_rest)->Ok_0;
                let parts = done.push(p);
                assert(!after_rest);
                assert(is_value(p));
                assert forall|k: int| 0 <= k < parts.len() implies if k % 2 == 0 {
                    is_value(#[trigger] parts[k])
                } else {
                    parts[k] matches PartView::Sep(c) && is_separator(c)
                } by {
                    if k < done.len() {
                        assert(parts[k] == done[k]);
                    }
                }
                assert forall|k: int|
                    0 <= k < parts.len() && #[trigger] parts[k] == PartView::Wildcard(
                        WildcardType::Rest,
                    ) implies k == parts.len() - 1 by {
                    if k < done.len() {
                        assert(parts[k] == done[k]);
                    }
                }
            }
        }
    } else if is_separator(text[i]) {
        if segment_value(text.subrange(from, i), after_rest) is Ok {
            let p = segment_value(text.subrange(from, i), after_rest)->Ok_0;
            let next = done.push(p).push(PartView::Sep(text[i]));
            let rest = p == PartView::Wildcard(WildcardType::Rest);
            assert(!after_rest);
            assert(is_value(p));
            assert(front_formed(next, rest)) by {
                assert forall|k: int| 0 <= k < next.len() implies if k % 2 == 0 {
                    is_value(#[trigger] next[k])
                } else {
                    next[k] matches PartView::Sep(c) && is_separator(c)
                } by {
                    if k < done.len() {
                        assert(next[k] == done[k]);
                    }
                }
                if !rest {
                    assert forall|k: int| 0 <= k < next.len() implies #[trigger] next[k]
                        != PartView::Wildcard(WildcardType::Rest) by {
                        if k < done.len() {
                            assert(next[k] == done[k]);
                        }
                    }
                }
            }
            lemma_parts_from_well_formed(text, i + 1, i + 1, rest, next);
        }
    } else {
        lemma_parts_from_well_formed(text, from, i + 1, after_rest, done);
    }
}

/// A text that writes a version writes a well-formed one: values and
/// separators in turn, a value first and last, and `>` nowhere but at the
/// end.
pub proof fn lemma_parsed_well_formed(text: Seq<char>)
    ensures
        parsed(text) matches Ok(parts) ==> well_formed(parts),
{
    lemma_parts_from_well_formed(
        text,
        version_start(text),
        version_start(text),
        false,
        Seq::empty(),
    );
}

/// A version: numbers, names and placeholders with separators between them.
#[derive(Debug)]
pub struct Version {
    parts: Vec<Part>,
}

impl View for Version {
    type V = Seq<PartView>;

    closed spec fn view(&self) -> Seq<PartView> {
        parts_view(self.parts@)
    }
}

/// The parts of a version written one after the other.
pub open spec fn version_text(parts: Seq<PartView>) -> Seq<char>
    decreases parts.len(),
{
    if parts.len() == 0 {
        Seq::empty()
    } else {
        version_text(parts.drop_last()) + Part::text(parts.last())
    }
}

fn read_segment(text: &str, from: usize, to: usize, after_rest: bool) -> (r: Result<
    Part,
    ParseError,
>)
    requires
        from <= to <= text@.len(),
    ensures
        match r {
            Ok(p) => segment_value(text@.subrange(from as int, to as int), after_rest) == Ok::<
                PartView,
                ParseErrorView,
            >(p@),
            Err(e) => segment_value(text@.subrange(from as int, to as int), after_rest) == Err::<
                PartView,
                ParseErrorView,
            >(e@),
        },
{
    if after_rest {
        return Err(ParseError::PartAfterRest);
    }
    let seg = text.substring_char(from, to);
    let n = seg.unicode_len();
    if n == 1 && seg.get_char(0) == '*' {
        assert(seg@ =~= seq!['*']);
        return Ok(Part::Wildcard(WildcardType::Single));
    }
    if n == 1 && seg.get_char(0) == '>' {
        assert(seg@ =~= seq!['>']);
        return Ok(Part::Wildcard(WildcardType::Rest));
    }
    assert(seg@ != seq!['*'] && seg@ != seq!['>']) by {
        if seg@ == seq!['*'] || seg@ == seq!['>'] {
            assert(seg@.len() == 1);
        }
    }
    let mut digits = true;
    let mut alphanumeric = true;
    let mut i: usize = 0;
    while i < n
        invariant
            n == seg@.len(),
            i <= n,
            digits == all_digits(seg@.take(i as int)),
            alphanumeric == all_alphanumeric(seg@.take(i as int)),
        decreases n - i,
    {
        let c = seg.get_char(i);
        let ghost head = seg@.take(i as int);
        let ghost longer = seg@.take(i + 1);
        proof {
            assert(forall|j: int| 0 <= j < i ==> longer[j] == head[j]);
            assert(longer[i as int] == c);
            if all_digits(longer) {
                assert forall|j: int| 0 <= j < head.len() implies is_digit(#[trigger] head[j]) by {
                    assert(is_digit(longer[j]));
                }
            }
            if all_alphanumeric(longer) {
                assert forall|j: int| 0 <= j < head.len() implies is_digit(#[trigger] head[j])
                    || is_letter(head[j]) by {
                    assert(is_digit(longer[j]) || is_letter(longer[j]));
                }
            }
        }
        let d = char_is_digit(c);
        if !d {
            digits = false;
        }
        if !d && !char_is_letter(c) {
            alphanumeric = false;
        }
        i = i + 1;
    }
    assert(seg@.take(n as int) =~= seg@);
    if n > 0 && digits {
        match parse_decimal(seg) {
            Some(v) => {
                if v <= usize::MAX as i128 {
                    return Ok(Part::Int(v as usize));
                }
            },
            None => {},
        }
    }
    if alphanumeric {
        if n == 0 {
            Err(ParseError::EmptyPart)
        } else {
            Ok(Part::Str(String::from_str(seg)))
        }
    } else {
        Err(ParseError::InvalidPart(String::from_str(seg)))
    }
}

fn char_is_separator(c: char) -> (b: bool)
    ensures
        b == is_separator(c),
{
    c == '.' || c == '-' || c == '+'
}

impl Clone for Version {
    fn clone(&self) -> (v: Self)
        ensures
            v@ == self@,
    {
        self.duplicate()
    }
}

impl Version {
    /// Reads a version. What is read is well formed.
    pub fn new(txt: &str) -> (r: Result<Version, ParseError>)
        ensures
            match r {
                Ok(v) => parsed(txt@) == Ok::<Seq<PartView>, ParseErrorView>(v@) && well_formed(v@),
                Err(e) => parsed(txt@) == Err::<Seq<PartView>, ParseErrorView>(e@),
            },
    {
        proof {
            lemma_parsed_well_formed(txt@);
        }
        let n = txt.unicode_len();
        let start: usize = if n >= 2 && txt.get_char(0) == 'v' && char_is_digit(txt.get_char(1)) {
            1
        } else {
            0
        };
        let mut version = Version::empty();
        let mut after_rest = false;
        let mut from: usize = start;
        let mut i: usize = start;
        while i < n
            invariant
                n == txt@.len(),
                from <= i <= n,
                parsed(txt@) == parts_from(txt@, from as int, i as int, after_rest, version@),
            decreases n - i,
        {
            let c = txt.get_char(i);
            if char_is_separator(c) {
                match read_segment(txt, from, i, after_rest) {
                    Ok(part) => {
                        after_rest = match &part {
                            Part::Wildcard(WildcardType::Rest) => true,
                            _ => false,
                        };
                        version.push(part);
                        version.push(Part::Sep(c));
                        from = i + 1;
                    },
                    Err(e) => {
                        return Err(e);
                    },
                }
            }
            i = i + 1;
        }
        if from >= n {
            return Err(ParseError::TrailingSeparator);
        }
        match read_segment(txt, from, n, after_rest) {
            Ok(part) => {
                version.push(part);
                Ok(version)
            },
            Err(e) => Err(e),
        }
    }

    /// The version as it is written: its parts one after the other.
    pub fn to_text(&self) -> (s: String)
        ensures
            s@ == version_text(self@),
    {
        let mut s = String::from_str("");
        proof {
            reveal_strlit("");
            reveal_strlit("*");
            reveal_strlit(">");
            assert(self@.take(0) =~= Seq::<PartView>::empty());
            assert(s@ =~= version_text(self@.take(0)));
        }
        let mut i: usize = 0;
        while i < self.parts.len()
            invariant
                i <= self.parts.len(),
                s@ == version_text(self@.take(i as int)),
            decreases self.parts.len() - i,
        {
            proof {
                reveal_strlit("*");
                reveal_strlit(">");
                assert(self@.take(i + 1).drop_last() =~= self@.take(i as int));
                assert(self@.take(i + 1).last() == self@[i as int]);
            }
            match &self.parts[i] {
                Part::Int(n) => {
                    let digits = write_decimal(*n as u64);
                    s.append(digits.as_str());
                },
                Part::Str(name) => {
                    s.append(name.as_str());
                },
                Part::Wildcard(WildcardType::Single) => {
                    s.append("*");
                },
                Part::Wildcard(WildcardType::Rest) => {
                    s.append(">");
                },
                Part::Sep(c) => {
                    s.push(*c);
                },
            }
            i = i + 1;
        }
        assert(self@.take(i as int) =~= self@);
        s
    }

    /// A version without parts, to be filled by [`Version::push`].
    pub fn empty() -> (v: Self)
        ensures
            v@ == Seq::<PartView>::empty(),
    {
        let v = Self { parts: Vec::new() };
        assert(v@ =~= Seq::<PartView>::empty());
        v
    }

    /// Adds a part at the end. It is for the caller to keep values and
    /// separators in turn.
    pub fn push(&mut self, part: Part)
        ensures
            final(self)@ == old(self)@.push(part@),
    {
        self.parts.push(part);
        assert(self@ =~= old(self)@.push(part@));
    }

    /// The parts, first to last.
    pub fn parts(&self) -> (parts: &[Part])
        ensures
            parts_view(parts@) == self@,
    {
        self.parts.as_slice()
    }

    /// A copy of the version.
    pub fn duplicate(&self) -> (v: Version)
        ensures
            v@ == self@,
    {
        let mut parts: Vec<Part> = Vec::new();
        let mut i: usize = 0;
        while i < self.parts.len()
            invariant
                i <= self.parts.len(),
                parts@.len() == i,
                forall|j: int| 0 <= j < i ==> parts@[j]@ == self.parts@[j]@,
            decreases self.parts.len() - i,
        {
            parts.push(self.parts[i].duplicate());
            i = i + 1;
        }
        let v = Version { parts };
        assert(v@ =~= self@);
        v
    }

    /// Whether two versions have the same parts.
    pub fn same(&self, other: &Version) -> (b: bool)
        ensures
            b == (self@ == other@),
    {
        if self.parts.len() != other.parts.len() {
            assert(self@.len() != other@.len());
            return false;
        }
        let mut i: usize = 0;
        while i < self.parts.len()
            invariant
                i <= self.parts.len(),
                self.parts.len() == other.parts.len(),
                forall|j: int| 0 <= j < i ==> self.parts@[j]@ == other.parts@[j]@,
            decreases self.parts.len() - i,
        {
            if !self.parts[i].same(&other.parts[i]) {
                assert(self@[i as int] != other@[i as int]);
                return false;
            }
            i = i + 1;
        }
        assert(self@ =~= other@);
        true
    }

    /// The number of values: one more than the number of separators.
    pub fn num_segments(&self) -> (n: usize)
        requires
            self@.len() % 2 == 1,
        ensures
            n == self@.len() / 2 + 1,
    {
        self.parts.len() / 2 + 1
    }

    /// The number of separators.
    pub fn num_separators(&self) -> (n: usize)
        requires
            self@.len() % 2 == 1,
        ensures
            n == self@.len() / 2,
    {
        self.parts.len() / 2
    }

    /// Whether the version holds no placeholder.
    pub fn is_concrete(&self) -> (b: bool)
        ensures
            b == concrete(self@),
    {
        let mut i: usize = 0;
        while i < self.parts.len()
            invariant
                i <= self.parts.len(),
                forall|j: int| 0 <= j < i ==> !(#[trigger] self@[j] is Wildcard),
            decreases self.parts.len() - i,
        {
            match &self.parts[i] {
                Part::Wildcard(_) => {
                    assert(self@[i as int] is Wildcard);
                    return false;
                },
                _ => {},
            }
            i = i + 1;
        }
        true
    }

    /// Whether the version has a number or a name at each place of a
    /// value, so that it can be ordered.
    pub fn is_orderable(&self) -> (b: bool)
        ensures
            b == ordered_values(self@),
    {
        let mut i: usize = 0;
        while i < self.parts.len()
            invariant
                i <= self.parts.len(),
                forall|j: int| 0 <= j < i && j % 2 == 0 ==> is_concrete_value(#[trigger] self@[j]),
            decreases self.parts.len() - i,
        {
            if i % 2 == 0 {
                match &self.parts[i] {
                    Part::Int(_) => {},
                    Part::Str(_) => {},
                    _ => {
                        assert(!is_concrete_value(self@[i as int]));
                        return false;
                    },
                }
            }
            i = i + 1;
        }
        true
    }

    /// Compares two versions; there is no answer where they cannot be
    /// compared.
    pub fn compare(&self, other: &Version) -> (c: Option<Comparison>)
        ensures
            match c {
                Some(c) => version_order(self@, other@) == Some(sign_of(c)),
                None => version_order(self@, other@) is None,
            },
    {
        let n = self.parts.len();
        let m = other.parts.len();
        let mut i: usize = 0;
        while i < n && i < m
            invariant
                n == self@.len(),
                m == other@.len(),
                i <= n,
                i <= m,
                version_order(self@, other@) == order_from(self@, other@, i as int),
            decreases n - i,
        {
            if i % 2 == 0 {
                match self.parts[i].compare(&other.parts[i]) {
                    None => {
                        return None;
                    },
                    Some(Comparison::Equal) => {},
                    Some(c) => {
                        return Some(c);
                    },
                }
            } else if !self.parts[i].same(&other.parts[i]) {
                return None;
            }
            i = i + 1;
        }
        if n == m {
            Some(Comparison::Equal)
        } else if i == n {
            Some(Comparison::Greater)
        } else {
            Some(Comparison::Less)
        }
    }
}

} // verus!
