use super::consumer::Consumer;
use super::cursor::Cursor;
use vstd::prelude::*;
use vstd::string::StringExecFns;

verus! {

/// Whether reading failed, or the function that was applied to what was
/// read.
pub enum MapError<C, F> {
    ConsumeError(C),
    FunctionError(F),
}

/// Whether `r` may come of running `consumer` from `cursor` and applying
/// `function` to what it read.
pub open spec fn outcome_mapped<'a, T: Consumer, F: Fn(T::Output) -> Result<R, E>, R, E>(
    consumer: T,
    function: F,
    cursor: Cursor<'a>,
    r: Result<(R, Cursor<'a>), MapError<T::Error, E>>,
) -> bool {
    match r {
        Ok((out, next)) => exists|v: T::Output|
            #![trigger consumer.outcome(cursor, Ok((v, next)))]
            consumer.outcome(cursor, Ok((v, next))) && call_ensures(function, (v,), Ok(out)),
        Err(MapError::ConsumeError(e)) => consumer.outcome(cursor, Err(e)),
        Err(MapError::FunctionError(e)) => exists|v: T::Output, next: Cursor<'a>|
            #![trigger consumer.outcome(cursor, Ok((v, next)))]
            consumer.outcome(cursor, Ok((v, next))) && call_ensures(function, (v,), Err(e)),
    }
}

pub(crate) fn consume_mapped<'a, T: Consumer, F: Fn(T::Output) -> Result<R, E>, R, E>(
    consumer: &T,
    function: &F,
    cursor: Cursor<'a>,
) -> (r: Result<(R, Cursor<'a>), MapError<T::Error, E>>)
    requires
        consumer.ready(),
        forall|v: T::Output| call_requires(*function, (v,)),
    ensures
        outcome_mapped(*consumer, *function, cursor, r),
{
    match consumer.consume(cursor) {
        Err(e) => {
            let r = Err(MapError::ConsumeError(e));
            assert(r matches Err(MapError::ConsumeError(e2)) && e2 == e);
            r
        },
        Ok((v, next)) => {
            let ghost read = v;
            match function(v) {
                Ok(out) => {
                    let r = Ok((out, next));
                    assert(consumer.outcome(cursor, Ok((read, next))) && call_ensures(
                        *function,
                        (read,),
                        Ok(out),
                    ));
                    assert(r matches Ok((o2, n2)) && o2 == out && n2 == next);
                    r
                },
                Err(e) => {
                    let r = Err(MapError::FunctionError(e));
                    assert(consumer.outcome(cursor, Ok((read, next))) && call_ensures(
                        *function,
                        (read,),
                        Err(e),
                    ));
                    assert(r matches Err(MapError::FunctionError(e2)) && e2 == e);
                    r
                },
            }
        },
    }
}

/// Runs a consumer and applies a function to what it read.
pub struct Mapped<T, F> {
    consumer: T,
    function: F,
}

impl<T, F> Mapped<T, F> {
    /// The consumer that reads.
    pub closed spec fn consumer(self) -> T {
        self.consumer
    }

    /// The function that is applied.
    pub closed spec fn function(self) -> F {
        self.function
    }

    pub fn new(input: T, function: F) -> (m: Self)
        ensures
            m.consumer() == input,
            m.function() == function,
    {
        Self { consumer: input, function }
    }
}

impl<T, F, R, E> Consumer for Mapped<T, F> where T: Consumer, F: Fn(T::Output) -> Result<R, E> {
    type Output = R;

    type Error = MapError<T::Error, E>;

    open spec fn ready(&self) -> bool {
        &&& self.consumer().ready()
        &&& forall|v: T::Output| call_requires(self.function(), (v,))
    }

    open spec fn outcome<'a>(
        &self,
        cursor: Cursor<'a>,
        r: Result<(R, Cursor<'a>), MapError<T::Error, E>>,
    ) -> bool {
        outcome_mapped(self.consumer(), self.function(), cursor, r)
    }

    open spec fn label(&self) -> Seq<char> {
        "f("@ + self.consumer().label() + ")"@
    }

    fn info(&self) -> (s: String) {
        let mut s = String::from_str("f(");
        let inner = self.consumer.info();
        s.append(inner.as_str());
        s.append(")");
        s
    }

    fn consume<'a>(&self, cursor: Cursor<'a>) -> (r: Result<
        (R, Cursor<'a>),
        MapError<T::Error, E>,
    >) {
        consume_mapped(&self.consumer, &self.function, cursor)
    }
}

} // verus!
