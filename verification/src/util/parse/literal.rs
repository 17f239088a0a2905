use super::consumer::{same_text, ConsumeError, Consumer};
use super::cursor::Cursor;
use vstd::prelude::*;
use vstd::string::StringExecFns;

verus! {

/// Accepts exactly one given text, and tells an input that is too short
/// from one that differs.
#[derive(Debug, Copy, Clone)]
pub struct LiteralConsumer<'a> {
    target: &'a str,
}

impl<'a> LiteralConsumer<'a> {
    /// The text that is looked for.
    pub closed spec fn target(self) -> Seq<char> {
        self.target@
    }

    /// The number of characters that are asked of the input: as many as the
    /// target has bytes.
    pub open spec fn span(self) -> nat {
        vstd::utf8::encode_utf8(self.target()).len()
    }

    pub fn new(target: &'a str) -> (l: Self)
        ensures
            l.target() == target@,
    {
        Self { target }
    }
}

impl<'a> Consumer for LiteralConsumer<'a> {
    type Output = ();

    type Error = ConsumeError;

    open spec fn ready(&self) -> bool {
        true
    }

    open spec fn outcome<'b>(
        &self,
        cursor: Cursor<'b>,
        r: Result<((), Cursor<'b>), ConsumeError>,
    ) -> bool {
        let rest = cursor.rest();
        let reach = Cursor::step_len(rest, self.span());
        if Cursor::step_refused(rest, self.span()) {
            r == Err::<((), Cursor<'b>), ConsumeError>(ConsumeError::TooShort)
        } else if rest.take(reach as int) == self.target() {
            r matches Ok((_, next)) && next.follows(cursor, reach)
        } else {
            r == Err::<((), Cursor<'b>), ConsumeError>(ConsumeError::Mismatch)
        }
    }

    open spec fn label(&self) -> Seq<char> {
        "literal '"@ + self.target() + "'"@
    }

    fn info(&self) -> (s: String) {
        let mut s = String::from_str("literal '");
        s.append(self.target);
        s.append("'");
        s
    }

    fn consume<'b>(&self, cursor: Cursor<'b>) -> (r: Result<((), Cursor<'b>), ConsumeError>) {
        let target_len = self.target.as_bytes().len();
        match cursor.step(target_len) {
            Some((extract, next)) => {
                if same_text(extract, self.target) {
                    Ok(((), next))
                } else {
                    Err(ConsumeError::Mismatch)
                }
            },
            None => Err(ConsumeError::TooShort),
        }
    }
}

} // verus!
