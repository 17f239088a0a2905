use super::chars::{char_is_blank, is_blank};
use super::consumer::{lemma_run_length, run_length, ConsumeError, Consumer};
use super::cursor::Cursor;
use vstd::prelude::*;
use vstd::string::StringExecFns;

verus! {

/// Accepts a run of ASCII white space that is not empty.
#[derive(Default, Debug)]
pub struct WhitespaceConsumer {}

impl WhitespaceConsumer {
    /// The length of the run of white space at the front of `rest`.
    pub open spec fn run(rest: Seq<char>) -> nat {
        run_length(rest, |c: char| is_blank(c))
    }
}

impl Consumer for WhitespaceConsumer {
    type Output = ();

    type Error = ConsumeError;

    open spec fn ready(&self) -> bool {
        true
    }

    open spec fn outcome<'b>(
        &self,
        cursor: Cursor<'b>,
        r: Result<((), Cursor<'b>), ConsumeError>,
    ) -> bool {
        match r {
            Ok((_, next)) => Self::run(cursor.rest()) > 0 && next.follows(
                cursor,
                Self::run(cursor.rest()),
            ),
            Err(e) => Self::run(cursor.rest()) == 0 && e == ConsumeError::Whitespace,
        }
    }

    open spec fn label(&self) -> Seq<char> {
        "whitespace"@
    }

    fn info(&self) -> (s: String) {
        String::from_str("whitespace")
    }

    fn consume<'b>(&self, cursor: Cursor<'b>) -> (r: Result<((), Cursor<'b>), ConsumeError>) {
        let holds = |c: &char| -> (b: bool)
            ensures
                b == is_blank(*c),
            { char_is_blank(*c) };
        match cursor.take_while(holds) {
            Some((white, next)) => {
                proof {
                    lemma_run_length(cursor.rest(), |c: char| is_blank(c), white@.len());
                }
                if white.unicode_len() > 0 {
                    Ok(((), next))
                } else {
                    Err(ConsumeError::Whitespace)
                }
            },
            None => Err(ConsumeError::Whitespace),
        }
    }
}

} // verus!
