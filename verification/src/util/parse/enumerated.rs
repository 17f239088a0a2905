use super::consumer::Consumer;
use super::cursor::Cursor;
use super::map::{consume_mapped, outcome_mapped, MapError};
use vstd::prelude::*;

verus! {

/// Runs a consumer and turns what it read into a value of an enumeration.
pub struct EnumConsumer<T, F> {
    consumer: T,
    conv: F,
}

impl<T, F> EnumConsumer<T, F> {
    /// The consumer that reads.
    pub closed spec fn consumer(self) -> T {
        self.consumer
    }

    /// The conversion that is applied to what was read.
    pub closed spec fn conv(self) -> F {
        self.conv
    }

    pub fn new(consumer: T, conv: F) -> (c: Self)
        ensures
            c.consumer() == consumer,
            c.conv() == conv,
    {
        Self { consumer, conv }
    }
}

impl<T, F, V, E> Consumer for EnumConsumer<T, F> where
    T: Consumer,
    F: Fn(T::Output) -> Result<V, E>,
 {
    type Output = V;

    type Error = MapError<T::Error, E>;

    open spec fn ready(&self) -> bool {
        &&& self.consumer().ready()
        &&& forall|v: T::Output| call_requires(self.conv(), (v,))
    }

    open spec fn outcome<'a>(
        &self,
        cursor: Cursor<'a>,
        r: Result<(V, Cursor<'a>), MapError<T::Error, E>>,
    ) -> bool {
        outcome_mapped(self.consumer(), self.conv(), cursor, r)
    }

    open spec fn label(&self) -> Seq<char> {
        self.consumer().label()
    }

    fn info(&self) -> (s: String) {
        self.consumer.info()
    }

    fn consume<'a>(&self, cursor: Cursor<'a>) -> (r: Result<
        (V, Cursor<'a>),
        MapError<T::Error, E>,
    >) {
        consume_mapped(&self.consumer, &self.conv, cursor)
    }
}

} // verus!
