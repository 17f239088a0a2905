use super::consumer::{same_text, ConsumeError, Consumer};
use super::cursor::Cursor;
use vstd::prelude::*;
use vstd::string::StringExecFns;

verus! {

/// Accepts exactly one given text.
#[derive(Debug, Clone, Copy)]
pub struct MatchConsumer<'a> {
    target: &'a str,
}

impl<'a> MatchConsumer<'a> {
    /// The text that is looked for.
    pub closed spec fn target(self) -> Seq<char> {
        self.target@
    }

    /// How many characters are taken off the input to be held against the
    /// target: as many as the target has bytes, or all there are.
    pub open spec fn reach(self, rest: Seq<char>) -> nat {
        Cursor::step_len(rest, vstd::utf8::encode_utf8(self.target()).len())
    }

    /// Whether the input `rest` starts with the target.
    pub open spec fn found(self, rest: Seq<char>) -> bool {
        &&& !Cursor::step_refused(rest, vstd::utf8::encode_utf8(self.target()).len())
        &&& rest.take(self.reach(rest) as int) == self.target()
    }

    pub fn new(target: &'a str) -> (m: Self)
        ensures
            m.target() == target@,
    {
        Self { target }
    }
}

impl<'a> Consumer for MatchConsumer<'a> {
    type Output = ();

    type Error = ConsumeError;

    open spec fn ready(&self) -> bool {
        true
    }

    open spec fn outcome<'b>(
        &self,
        cursor: Cursor<'b>,
        r: Result<((), Cursor<'b>), ConsumeError>,
    ) -> bool {
        match r {
            Ok((_, next)) => self.found(cursor.rest()) && next.follows(
                cursor,
                self.reach(cursor.rest()),
            ),
            Err(e) => !self.found(cursor.rest()) && e == ConsumeError::Mismatch,
        }
    }

    open spec fn label(&self) -> Seq<char> {
        "matching '"@ + self.target() + "'"@
    }

    fn info(&self) -> (s: String) {
        let mut s = String::from_str("matching '");
        s.append(self.target);
        s.append("'");
        s
    }

    fn consume<'b>(&self, cursor: Cursor<'b>) -> (r: Result<((), Cursor<'b>), ConsumeError>) {
        let target_len = self.target.as_bytes().len();
        match cursor.step(target_len) {
            Some((extract, next)) => {
                if same_text(extract, self.target) {
                    Ok(((), next))
                } else {
                    Err(ConsumeError::Mismatch)
                }
            },
            None => Err(ConsumeError::Mismatch),
        }
    }
}

} // verus!
