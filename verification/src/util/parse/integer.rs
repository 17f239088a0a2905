use super::chars::{char_digit_value, char_is_digit, digit_value, is_digit};
use super::consumer::{lemma_run_length, run_length, ConsumeError, Consumer};
use super::cursor::Cursor;
use vstd::prelude::*;
use vstd::string::StringExecFns;

verus! {

/// The number that a text of digits writes in base ten.
pub open spec fn decimal(digits: Seq<char>) -> nat
    decreases digits.len(),
{
    if digits.len() == 0 {
        0
    } else {
        decimal(digits.drop_last()) * 10 + digit_value(digits.last())
    }
}

/// A text of digits names at least the number that any of its prefixes
/// names.
pub proof fn lemma_decimal_grows(digits: Seq<char>, k: int)
    requires
        0 <= k <= digits.len(),
    ensures
        decimal(digits.take(k)) <= decimal(digits),
    decreases digits.len() - k,
{
    if k < digits.len() {
        let longer = digits.take(k + 1);
        assert(longer.drop_last() =~= digits.take(k));
        lemma_decimal_grows(digits, k + 1);
    } else {
        assert(digits.take(k) =~= digits);
    }
}

/// Reads a text of digits as a number, where it fits.
pub fn parse_decimal(text: &str) -> (r: Option<i128>)
    requires
        forall|i: int| 0 <= i < text@.len() ==> is_digit(#[trigger] text@[i]),
    ensures
        decimal(text@) <= i128::MAX ==> r == Some(decimal(text@) as i128),
        decimal(text@) > i128::MAX ==> r is None,
{
    let n = text.unicode_len();
    let mut acc: i128 = 0;
    let mut i: usize = 0;
    while i < n
        invariant
            n == text@.len(),
            i <= n,
            0 <= acc,
            acc == decimal(text@.take(i as int)),
            forall|j: int| 0 <= j < text@.len() ==> is_digit(#[trigger] text@[j]),
        decreases n - i,
    {
        let d = char_digit_value(text.get_char(i)) as i128;
        proof {
            let longer = text@.take(i + 1);
            assert(longer.drop_last() =~= text@.take(i as int));
            assert(longer.last() == text@[i as int]);
            lemma_decimal_grows(text@, i + 1);
        }
        if acc > (i128::MAX - d) / 10 {
            return None;
        }
        acc = acc * 10 + d;
        i = i + 1;
    }
    assert(text@.take(n as int) =~= text@);
    Some(acc)
}

/// Accepts a run of digits that is not empty and reads it as a number.
#[derive(Copy, Clone)]
pub struct IntegerConsumer {}

impl IntegerConsumer {
    /// The length of the run of digits at the front of `rest`.
    pub open spec fn run(rest: Seq<char>) -> nat {
        run_length(rest, |c: char| is_digit(c))
    }

    pub fn new() -> Self {
        Self {  }
    }
}

impl Default for IntegerConsumer {
    fn default() -> Self {
        Self::new()
    }
}

impl Consumer for IntegerConsumer {
    type Output = i128;

    type Error = ConsumeError;

    open spec fn ready(&self) -> bool {
        true
    }

    open spec fn outcome<'b>(
        &self,
        cursor: Cursor<'b>,
        r: Result<(i128, Cursor<'b>), ConsumeError>,
    ) -> bool {
        let run = Self::run(cursor.rest());
        let value = decimal(cursor.rest().take(run as int));
        if run == 0 {
            r == Err::<(i128, Cursor<'b>), ConsumeError>(ConsumeError::Digits)
        } else if value > i128::MAX {
            r == Err::<(i128, Cursor<'b>), ConsumeError>(ConsumeError::IntegerRange)
        } else {
            r matches Ok((v, next)) && v == value && next.follows(cursor, run)
        }
    }

    open spec fn label(&self) -> Seq<char> {
        "integer"@
    }

    fn info(&self) -> (s: String) {
        String::from_str("integer")
    }

    fn consume<'b>(&self, cursor: Cursor<'b>) -> (r: Result<(i128, Cursor<'b>), ConsumeError>) {
        let holds = |c: &char| -> (b: bool)
            ensures
                b == is_digit(*c),
            { char_is_digit(*c) };
        match cursor.take_while(holds) {
            Some((p, next)) => {
                proof {
                    lemma_run_length(cursor.rest(), |c: char| is_digit(c), p@.len());
                }
                if p.unicode_len() > 0 {
                    match parse_decimal(p) {
                        Some(v) => Ok((v, next)),
                        None => Err(ConsumeError::IntegerRange),
                    }
                } else {
                    Err(ConsumeError::Digits)
                }
            },
            None => Err(ConsumeError::Digits),
        }
    }
}

} // verus!
