use super::consumer::Consumer;
use super::cursor::Cursor;
use vstd::prelude::*;
use vstd::string::StringExecFns;

verus! {

/// Runs a consumer and, where it fails, reads nothing instead.
#[derive(Debug, Copy, Clone)]
pub struct OptionalConsumer<T> where T: Consumer {
    opt: T,
}

impl<T> OptionalConsumer<T> where T: Consumer {
    /// The consumer that is tried.
    pub closed spec fn inner(self) -> T {
        self.opt
    }

    pub fn new(opt: T) -> (o: Self)
        ensures
            o.inner() == opt,
    {
        Self { opt }
    }
}

impl<T> Consumer for OptionalConsumer<T> where T: Consumer {
    type Output = Option<<T as Consumer>::Output>;

    type Error = <T as Consumer>::Error;

    open spec fn ready(&self) -> bool {
        self.inner().ready()
    }

    open spec fn outcome<'a>(
        &self,
        cursor: Cursor<'a>,
        r: Result<(Option<<T as Consumer>::Output>, Cursor<'a>), <T as Consumer>::Error>,
    ) -> bool {
        match r {
            Ok((Some(value), next)) => self.inner().outcome(cursor, Ok((value, next))),
            Ok((None, next)) => next == cursor && exists|e: <T as Consumer>::Error|
                self.inner().outcome(cursor, Err(e)),
            Err(_) => false,
        }
    }

    open spec fn label(&self) -> Seq<char> {
        "optional["@ + self.inner().label() + "]"@
    }

    fn info(&self) -> (s: String) {
        let mut s = String::from_str("optional[");
        let inner = self.opt.info();
        s.append(inner.as_str());
        s.append("]");
        s
    }

    fn consume<'a>(&self, cursor: Cursor<'a>) -> (r: Result<
        (Option<<T as Consumer>::Output>, Cursor<'a>),
        <T as Consumer>::Error,
    >) {
        match self.opt.consume(cursor) {
            Ok((result, next)) => Ok((Some(result), next)),
            Err(e) => {
                assert(self.inner().outcome(cursor, Err(e)));
                Ok((None, cursor))
            },
        }
    }
}

} // verus!
