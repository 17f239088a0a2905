use super::chars::{char_is_alphanumeric, unicode_alphanumeric};
use super::consumer::{lemma_run_length, run_length, ConsumeError, Consumer};
use super::cursor::Cursor;
use vstd::prelude::*;
use vstd::string::StringExecFns;

verus! {

/// Accepts a run of letters and digits that is not empty.
#[derive(Debug, Copy, Clone)]
pub struct AlphanumericConsumer {}

impl AlphanumericConsumer {
    /// The length of the run of letters and digits at the front of `rest`.
    pub open spec fn run(rest: Seq<char>) -> nat {
        run_length(rest, |c: char| unicode_alphanumeric(c))
    }

    pub fn new() -> Self {
        Self {  }
    }
}

impl Default for AlphanumericConsumer {
    fn default() -> Self {
        Self::new()
    }
}

impl Consumer for AlphanumericConsumer {
    type Output = String;

    type Error = ConsumeError;

    open spec fn ready(&self) -> bool {
        true
    }

    open spec fn outcome<'b>(
        &self,
        cursor: Cursor<'b>,
        r: Result<(String, Cursor<'b>), ConsumeError>,
    ) -> bool {
        match r {
            Ok((text, next)) => Self::run(cursor.rest()) > 0 && text@ == cursor.rest().take(
                Self::run(cursor.rest()) as int,
            ) && next.follows(cursor, Self::run(cursor.rest())),
            Err(e) => Self::run(cursor.rest()) == 0 && e == ConsumeError::Alphanumeric,
        }
    }

    open spec fn label(&self) -> Seq<char> {
        "alphanumeric"@
    }

    fn info(&self) -> (s: String) {
        String::from_str("alphanumeric")
    }

    fn consume<'b>(&self, cursor: Cursor<'b>) -> (r: Result<(String, Cursor<'b>), ConsumeError>) {
        let holds = |c: &char| -> (b: bool)
            ensures
                b == unicode_alphanumeric(*c),
            { char_is_alphanumeric(*c) };
        match cursor.take_while(holds) {
            Some((txt, next)) => {
                proof {
                    lemma_run_length(
                        cursor.rest(),
                        |c: char| unicode_alphanumeric(c),
                        txt@.len(),
                    );
                }
                if txt.unicode_len() > 0 {
                    Ok((String::from_str(txt), next))
                } else {
                    Err(ConsumeError::Alphanumeric)
                }
            },
            None => Err(ConsumeError::Alphanumeric),
        }
    }
}

} // verus!
