use super::cursor::Cursor;
use vstd::prelude::*;

verus! {

/// Why one of the consumers of this module turned its input down.
#[derive(Debug, Clone, Copy, PartialEq, Eq)]
pub enum ConsumeError {
    /// The input does not start with a letter or a digit.
    Alphanumeric,
    /// The input does not start with a digit.
    Digits,
    /// The digits at the start of the input name a number that is too large.
    IntegerRange,
    /// The input does not start with white space.
    Whitespace,
    /// The input ends before the text that was asked for.
    TooShort,
    /// The input starts with another text than the one that was asked for.
    Mismatch,
    /// A consumer matched a number of times that is out of its bounds.
    Count { found: usize },
}

/// Something that reads a value off the front of a text.
pub trait Consumer {
    /// The value that is read.
    type Output;

    /// What is reported when nothing can be read.
    type Error;

    /// Whether the consumer can be run at all: the functions it was built
    /// from accept every argument.
    spec fn ready(&self) -> bool;

    /// Whether `r` is a result that `consume` may give on `cursor`.
    spec fn outcome<'a>(
        &self,
        cursor: Cursor<'a>,
        r: Result<(Self::Output, Cursor<'a>), Self::Error>,
    ) -> bool;

    /// The text of `info`.
    spec fn label(&self) -> Seq<char>;

    /// A short description of what the consumer expects.
    fn info(&self) -> (s: String)
        ensures
            s@ == self.label(),
    ;

    /// Reads a value at `cursor` and hands it back with the cursor behind it.
    fn consume<'a>(&self, cursor: Cursor<'a>) -> (r: Result<
        (Self::Output, Cursor<'a>),
        Self::Error,
    >)
        requires
            self.ready(),
        ensures
            self.outcome(cursor, r),
    ;
}

/// The length of the longest run at the front of `text` on which `holds` is
/// true.
pub open spec fn run_length(text: Seq<char>, holds: spec_fn(char) -> bool) -> nat
    decreases text.len(),
{
    if text.len() == 0 || !holds(text[0]) {
        0
    } else {
        1 + run_length(text.drop_first(), holds)
    }
}

/// A run that ends at the first character on which `holds` fails, or at the
/// end of the text, is the longest one.
pub proof fn lemma_run_length(text: Seq<char>, holds: spec_fn(char) -> bool, k: nat)
    requires
        k <= text.len(),
        forall|i: int| 0 <= i < k ==> holds(#[trigger] text[i]),
        k < text.len() ==> !holds(text[k as int]),
    ensures
        run_length(text, holds) == k,
    decreases text.len(),
{
    if k > 0 {
        let tail = text.drop_first();
        assert forall|i: int| 0 <= i < k - 1 implies holds(#[trigger] tail[i]) by {
            assert(tail[i] == text[i + 1]);
        }
        lemma_run_length(tail, holds, (k - 1) as nat);
    }
}

/// Whether two texts hold the same characters.
pub fn same_text(a: &str, b: &str) -> (same: bool)
    ensures
        same == (a@ == b@),
{
    let n = a.unicode_len();
    if n != b.unicode_len() {
        return false;
    }
    let mut i: usize = 0;
    while i < n
        invariant
            n == a@.len(),
            n == b@.len(),
            i <= n,
            forall|j: int| 0 <= j < i ==> a@[j] == b@[j],
        decreases n - i,
    {
        if a.get_char(i) != b.get_char(i) {
            return false;
        }
        i = i + 1;
    }
    assert(a@ =~= b@);
    true
}

} // verus!
