use super::consumer::Consumer;
use super::cursor::Cursor;
use vstd::prelude::*;
use vstd::string::StringExecFns;

verus! {

/// A consumer made of a function from cursor to result.
#[derive(Debug, Copy, Clone)]
pub struct RawConsumer<P> {
    predicate: P,
}

impl<P> RawConsumer<P> {
    /// The function that does the reading.
    pub closed spec fn predicate(self) -> P {
        self.predicate
    }

    pub fn new(predicate: P) -> (c: Self)
        ensures
            c.predicate() == predicate,
    {
        Self { predicate }
    }
}

impl<P, Out, E> Consumer for RawConsumer<P> where
    P: for <'a>Fn(Cursor<'a>) -> Result<(Out, Cursor<'a>), E>,
 {
    type Output = Out;

    type Error = E;

    open spec fn ready(&self) -> bool {
        forall|cursor: Cursor| call_requires(self.predicate(), (cursor,))
    }

    open spec fn outcome<'b>(&self, cursor: Cursor<'b>, r: Result<(Out, Cursor<'b>), E>) -> bool {
        call_ensures(self.predicate(), (cursor,), r)
    }

    open spec fn label(&self) -> Seq<char> {
        "raw"@
    }

    fn info(&self) -> (s: String) {
        String::from_str("raw")
    }

    fn consume<'b>(&self, cursor: Cursor<'b>) -> (r: Result<(Out, Cursor<'b>), E>) {
        (self.predicate)(cursor)
    }
}

} // verus!
