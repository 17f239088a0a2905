//! The order in which the parts of a version are ranked.

use crate::util::parse::consumer::same_text;
use vstd::prelude::*;

verus! {

/// How one thing stands to another in an order.
#[derive(Debug, Clone, Copy, PartialEq, Eq, Structural)]
pub enum Comparison {
    Less,
    Equal,
    Greater,
}

/// The sign that stands for `c`: -1, 0 or 1.
pub open spec fn sign_of(c: Comparison) -> int {
    match c {
        Comparison::Less => -1,
        Comparison::Equal => 0,
        Comparison::Greater => 1,
    }
}

/// How the integers `a` and `b` compare: -1, 0 or 1.
pub open spec fn int_order(a: int, b: int) -> int {
    if a < b {
        -1
    } else if a == b {
        0
    } else {
        1
    }
}

/// How the texts `a` and `b` compare character by character, a proper
/// prefix being the smaller: -1, 0 or 1.
pub open spec fn text_order(a: Seq<char>, b: Seq<char>) -> int
    decreases a.len(),
{
    if a.len() == 0 && b.len() == 0 {
        0
    } else if a.len() == 0 {
        -1
    } else if b.len() == 0 {
        1
    } else if a[0] != b[0] {
        int_order(a[0] as int, b[0] as int)
    } else {
        text_order(a.drop_first(), b.drop_first())
    }
}

/// Texts compare as equal exactly when they are the same text.
pub proof fn lemma_text_order_equal(a: Seq<char>, b: Seq<char>)
    ensures
        text_order(a, b) == 0 <==> a == b,
        -1 <= text_order(a, b) <= 1,
    decreases a.len(),
{
    if a.len() > 0 && b.len() > 0 && a[0] == b[0] {
        lemma_text_order_equal(a.drop_first(), b.drop_first());
        if a.drop_first() == b.drop_first() {
            assert(a =~= seq![a[0]] + a.drop_first());
            assert(b =~= seq![b[0]] + b.drop_first());
        }
    }
    if a == b {
        assert(a.len() == b.len());
    }
    if a.len() == 0 && b.len() == 0 {
        assert(a =~= b);
    }
}

/// Swapping the two texts flips the sign.
pub proof fn lemma_text_order_flips(a: Seq<char>, b: Seq<char>)
    ensures
        text_order(b, a) == -text_order(a, b),
    decreases a.len(),
{
    if a.len() > 0 && b.len() > 0 && a[0] == b[0] {
        lemma_text_order_flips(a.drop_first(), b.drop_first());
    }
}

/// The order on texts is transitive, through an equal pair as well.
pub proof fn lemma_text_order_transitive(a: Seq<char>, b: Seq<char>, c: Seq<char>)
    requires
        text_order(a, b) <= 0,
        text_order(b, c) <= 0,
    ensures
        text_order(a, c) <= 0,
        text_order(a, b) < 0 || text_order(b, c) < 0 ==> text_order(a, c) < 0,
    decreases a.len(),
{
    lemma_text_order_equal(a, b);
    lemma_text_order_equal(b, c);
    lemma_text_order_equal(a, c);
    if a.len() > 0 && b.len() > 0 && c.len() > 0 && a[0] == b[0] && b[0] == c[0] {
        lemma_text_order_transitive(a.drop_first(), b.drop_first(), c.drop_first());
    }
}

/// The place of a reserved name in the chain of reserved names, counted
/// from the smallest; nothing for any other text.
pub open spec fn reserved_rank(s: Seq<char>) -> Option<nat> {
    if s == "stable"@ {
        Some(0)
    } else if s == "latest"@ {
        Some(1)
    } else if s == "beta"@ {
        Some(2)
    } else if s == "alpha"@ {
        Some(3)
    } else if s == "master"@ {
        Some(4)
    } else if s == "main"@ {
        Some(5)
    } else if s == "devel"@ {
        Some(6)
    } else if s == "dev"@ {
        Some(7)
    } else if s == "git"@ {
        Some(8)
    } else {
        None
    }
}

/// How two names compare: reserved names by their place in the chain,
/// above every other name; the others as texts.
pub open spec fn name_order(a: Seq<char>, b: Seq<char>) -> int {
    match (reserved_rank(a), reserved_rank(b)) {
        (Some(x), Some(y)) => int_order(x as int, y as int),
        (Some(_), None) => 1,
        (None, Some(_)) => -1,
        (None, None) => text_order(a, b),
    }
}

/// Names compare as equal exactly when they are the same, swapping them
/// flips the sign, and the sign is -1, 0 or 1.
pub proof fn lemma_name_order_basics(a: Seq<char>, b: Seq<char>)
    ensures
        name_order(a, b) == 0 <==> a == b,
        name_order(b, a) == -name_order(a, b),
        -1 <= name_order(a, b) <= 1,
{
    lemma_text_order_equal(a, b);
    lemma_text_order_flips(a, b);
}

/// The order on names is transitive, through an equal pair as well.
pub proof fn lemma_name_order_transitive(a: Seq<char>, b: Seq<char>, c: Seq<char>)
    requires
        name_order(a, b) <= 0,
        name_order(b, c) <= 0,
    ensures
        name_order(a, c) <= 0,
        name_order(a, b) < 0 || name_order(b, c) < 0 ==> name_order(a, c) < 0,
{
    lemma_name_order_basics(a, b);
    lemma_name_order_basics(b, c);
    lemma_name_order_basics(a, c);
    if reserved_rank(a) is None && reserved_rank(b) is None && reserved_rank(c) is None {
        lemma_text_order_transitive(a, b, c);
    }
}

/// Compares two texts character by character.
pub fn compare_texts(a: &str, b: &str) -> (c: Comparison)
    ensures
        sign_of(c) == text_order(a@, b@),
{
    let n = a.unicode_len();
    let m = b.unicode_len();
    let mut i: usize = 0;
    assert(a@.skip(0) =~= a@ && b@.skip(0) =~= b@);
    while i < n && i < m
        invariant
            n == a@.len(),
            m == b@.len(),
            i <= n,
            i <= m,
            text_order(a@, b@) == text_order(a@.skip(i as int), b@.skip(i as int)),
        decreases n - i,
    {
        let x = a.get_char(i);
        let y = b.get_char(i);
        proof {
            assert(a@.skip(i as int)[0] == x);
            assert(b@.skip(i as int)[0] == y);
            assert(a@.skip(i as int).drop_first() =~= a@.skip(i + 1));
            assert(b@.skip(i as int).drop_first() =~= b@.skip(i + 1));
        }
        if x < y {
            return Comparison::Less;
        }
        if y < x {
            return Comparison::Greater;
        }
        i = i + 1;
    }
    if n == m {
        Comparison::Equal
    } else if i == n {
        Comparison::Less
    } else {
        Comparison::Greater
    }
}

/// The place of a reserved name in the chain of reserved names.
pub fn rank_of(s: &str) -> (r: Option<u8>)
    ensures
        match r {
            Some(k) => reserved_rank(s@) == Some(k as nat),
            None => reserved_rank(s@) is None,
        },
{
    if same_text(s, "stable") {
        Some(0)
    } else if same_text(s, "latest") {
        Some(1)
    } else if same_text(s, "beta") {
        Some(2)
    } else if same_text(s, "alpha") {
        Some(3)
    } else if same_text(s, "master") {
        Some(4)
    } else if same_text(s, "main") {
        Some(5)
    } else if same_text(s, "devel") {
        Some(6)
    } else if same_text(s, "dev") {
        Some(7)
    } else if same_text(s, "git") {
        Some(8)
    } else {
        None
    }
}

/// Compares two names of a version.
pub fn compare_names(a: &str, b: &str) -> (c: Comparison)
    ensures
        sign_of(c) == name_order(a@, b@),
{
    match (rank_of(a), rank_of(b)) {
        (Some(x), Some(y)) => if x < y {
            Comparison::Less
        } else if x == y {
            Comparison::Equal
        } else {
            Comparison::Greater
        },
        (Some(_), None) => Comparison::Greater,
        (None, Some(_)) => Comparison::Less,
        (None, None) => compare_texts(a, b),
    }
}

} // verus!
