use super::consumer::Consumer;
use super::cursor::Cursor;
use vstd::prelude::*;
use vstd::string::StringExecFns;

verus! {

/// Which of two consumers in a row failed, and how.
#[derive(Debug)]
pub enum ThenError<First, Second> {
    First(First),
    Second(Second),
}

/// Runs two consumers one after the other and keeps both values.
pub struct Then<First, Second> where First: Consumer, Second: Consumer {
    first: First,
    second: Second,
}

/// Whether `r` may come of running `first` and then `second` from `cursor`,
/// as the pair of both values.
pub open spec fn outcome_in_row<'a, First: Consumer, Second: Consumer>(
    first: First,
    second: Second,
    cursor: Cursor<'a>,
    r: Result<
        ((First::Output, Second::Output), Cursor<'a>),
        ThenError<First::Error, Second::Error>,
    >,
) -> bool {
    match r {
        Ok(((a, b), next)) => exists|mid: Cursor<'a>|
            #![trigger first.outcome(cursor, Ok((a, mid)))]
            #![trigger second.outcome(mid, Ok((b, next)))]
            first.outcome(cursor, Ok((a, mid))) && second.outcome(mid, Ok((b, next))),
        Err(ThenError::First(e)) => first.outcome(cursor, Err(e)),
        Err(ThenError::Second(e)) => exists|a: First::Output, mid: Cursor<'a>|
            #![trigger first.outcome(cursor, Ok((a, mid)))]
            first.outcome(cursor, Ok((a, mid))) && second.outcome(mid, Err(e)),
    }
}

/// The text of `info` of two consumers in a row.
pub open spec fn label_in_row<First: Consumer, Second: Consumer>(
    first: First,
    second: Second,
) -> Seq<char> {
    first.label() + " then "@ + second.label()
}

fn info_in_row<First: Consumer, Second: Consumer>(first: &First, second: &Second) -> (s: String)
    ensures
        s@ == label_in_row(*first, *second),
{
    let mut s = first.info();
    s.append(" then ");
    let tail = second.info();
    s.append(tail.as_str());
    s
}

fn consume_in_row<'a, First: Consumer, Second: Consumer>(
    first: &First,
    second: &Second,
    cursor: Cursor<'a>,
) -> (r: Result<
    ((First::Output, Second::Output), Cursor<'a>),
    ThenError<First::Error, Second::Error>,
>)
    requires
        first.ready(),
        second.ready(),
    ensures
        outcome_in_row(*first, *second, cursor, r),
{
    match first.consume(cursor) {
        Err(e) => Err(ThenError::First(e)),
        Ok((a, mid)) => match second.consume(mid) {
            Err(e) => {
                assert(first.outcome(cursor, Ok((a, mid))) && second.outcome(mid, Err(e)));
                Err(ThenError::Second(e))
            },
            Ok((b, next)) => {
                let r = Ok(((a, b), next));
                assert(first.outcome(cursor, Ok((a, mid))) && second.outcome(mid, Ok((b, next))));
                assert(r matches Ok(((a2, b2), n2)) && a2 == a && b2 == b && n2 == next);
                r
            },
        },
    }
}

impl<First, Second> Then<First, Second> where First: Consumer, Second: Consumer {
    /// The consumer that runs first.
    pub closed spec fn first(self) -> First {
        self.first
    }

    /// The consumer that runs on what the first one left.
    pub closed spec fn second(self) -> Second {
        self.second
    }

    pub fn new(first: First, second: Second) -> (t: Self)
        ensures
            t.first() == first,
            t.second() == second,
    {
        Self { first, second }
    }
}

impl<First, Second> Consumer for Then<First, Second> where First: Consumer, Second: Consumer {
    type Output = (First::Output, Second::Output);

    type Error = ThenError<First::Error, Second::Error>;

    open spec fn ready(&self) -> bool {
        self.first().ready() && self.second().ready()
    }

    open spec fn outcome<'a>(
        &self,
        cursor: Cursor<'a>,
        r: Result<
            ((First::Output, Second::Output), Cursor<'a>),
            ThenError<First::Error, Second::Error>,
        >,
    ) -> bool {
        outcome_in_row(self.first(), self.second(), cursor, r)
    }

    open spec fn label(&self) -> Seq<char> {
        label_in_row(self.first(), self.second())
    }

    fn info(&self) -> (s: String) {
        info_in_row(&self.first, &self.second)
    }

    fn consume<'a>(&self, cursor: Cursor<'a>) -> (r: Result<
        ((First::Output, Second::Output), Cursor<'a>),
        ThenError<First::Error, Second::Error>,
    >) {
        consume_in_row(&self.first, &self.second, cursor)
    }
}

/// Runs two consumers one after the other and keeps the second value.
pub struct IgnoreThen<First, Second> where First: Consumer, Second: Consumer {
    first: First,
    second: Second,
}

impl<First, Second> IgnoreThen<First, Second> where First: Consumer, Second: Consumer {
    /// The consumer that runs first.
    pub closed spec fn first(self) -> First {
        self.first
    }

    /// The consumer that runs on what the first one left.
    pub closed spec fn second(self) -> Second {
        self.second
    }

    pub fn new(first: First, second: Second) -> (t: Self)
        ensures
            t.first() == first,
            t.second() == second,
    {
        Self { first, second }
    }
}

impl<First, Second> Consumer for IgnoreThen<First, Second> where
    First: Consumer,
    Second: Consumer,
 {
    type Output = Second::Output;

    type Error = ThenError<First::Error, Second::Error>;

    open spec fn ready(&self) -> bool {
        self.first().ready() && self.second().ready()
    }

    open spec fn outcome<'a>(
        &self,
        cursor: Cursor<'a>,
        r: Result<(Second::Output, Cursor<'a>), ThenError<First::Error, Second::Error>>,
    ) -> bool {
        match r {
            Ok((b, next)) => exists|a: First::Output|
                #![trigger outcome_in_row(self.first(), self.second(), cursor, Ok(((a, b), next)))]
                outcome_in_row(self.first(), self.second(), cursor, Ok(((a, b), next))),
            Err(e) => outcome_in_row(self.first(), self.second(), cursor, Err(e)),
        }
    }

    open spec fn label(&self) -> Seq<char> {
        label_in_row(self.first(), self.second())
    }

    fn info(&self) -> (s: String) {
        info_in_row(&self.first, &self.second)
    }

    fn consume<'a>(&self, cursor: Cursor<'a>) -> (r: Result<
        (Second::Output, Cursor<'a>),
        ThenError<First::Error, Second::Error>,
    >) {
        match consume_in_row(&self.first, &self.second, cursor) {
            Ok(((a, b), next)) => {
                let r = Ok((b, next));
                assert(outcome_in_row(self.first(), self.second(), cursor, Ok(((a, b), next))));
                assert(r matches Ok((b2, n2)) && b2 == b && n2 == next);
                r
            },
            Err(e) => {
                let r = Err(e);
                assert(r matches Err(e2) && e2 == e);
                r
            },
        }
    }
}

/// Runs two consumers one after the other and keeps the first value.
pub struct ThenIgnore<First, Second> where First: Consumer, Second: Consumer {
    first: First,
    second: Second,
}

impl<First, Second> ThenIgnore<First, Second> where First: Consumer, Second: Consumer {
    /// The consumer that runs first.
    pub closed spec fn first(self) -> First {
        self.first
    }

    /// The consumer that runs on what the first one left.
    pub closed spec fn second(self) -> Second {
        self.second
    }

    pub fn new(first: First, second: Second) -> (t: Self)
        ensures
            t.first() == first,
            t.second() == second,
    {
        Self { first, second }
    }
}

impl<First, Second> Consumer for ThenIgnore<First, Second> where
    First: Consumer,
    Second: Consumer,
 {
    type Output = First::Output;

    type Error = ThenError<First::Error, Second::Error>;

    open spec fn ready(&self) -> bool {
        self.first().ready() && self.second().ready()
    }

    open spec fn outcome<'a>(
        &self,
        cursor: Cursor<'a>,
        r: Result<(First::Output, Cursor<'a>), ThenError<First::Error, Second::Error>>,
    ) -> bool {
        match r {
            Ok((a, next)) => exists|b: Second::Output|
                #![trigger outcome_in_row(self.first(), self.second(), cursor, Ok(((a, b), next)))]
                outcome_in_row(self.first(), self.second(), cursor, Ok(((a, b), next))),
            Err(e) => outcome_in_row(self.first(), self.second(), cursor, Err(e)),
        }
    }

    open spec fn label(&self) -> Seq<char> {
        label_in_row(self.first(), self.second())
    }

    fn info(&self) -> (s: String) {
        info_in_row(&self.first, &self.second)
    }

    fn consume<'a>(&self, cursor: Cursor<'a>) -> (r: Result<
        (First::Output, Cursor<'a>),
        ThenError<First::Error, Second::Error>,
    >) {
        match consume_in_row(&self.first, &self.second, cursor) {
            Ok(((a, b), next)) => {
                let r = Ok((a, next));
                assert(outcome_in_row(self.first(), self.second(), cursor, Ok(((a, b), next))));
                assert(r matches Ok((a2, n2)) && a2 == a && n2 == next);
                r
            },
            Err(e) => {
                let r = Err(e);
                assert(r matches Err(e2) && e2 == e);
                r
            },
        }
    }
}

} // verus!
