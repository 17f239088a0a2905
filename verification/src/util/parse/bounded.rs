use super::consumer::{ConsumeError, Consumer};
use super::cursor::Cursor;
use crate::util::text::{decimal_text, write_decimal};
use vstd::prelude::*;
use vstd::string::StringExecFns;

verus! {

/// Whether every success of `parser` leaves less input than it found.
pub open spec fn advances<T: Consumer>(parser: T) -> bool {
    forall|cursor: Cursor, v: T::Output, next: Cursor| #[trigger]
        parser.outcome(cursor, Ok((v, next))) ==> next.rest().len() < cursor.rest().len()
}

/// Whether `parser`, run again and again from `start`, may read `values`
/// one after the other and stand at `end` after the last.
pub open spec fn reads_in_turn<'a, T: Consumer>(
    parser: T,
    start: Cursor<'a>,
    values: Seq<T::Output>,
    end: Cursor<'a>,
) -> bool
    decreases values.len(),
{
    if values.len() == 0 {
        end == start
    } else {
        exists|mid: Cursor<'a>|
            #![trigger parser.outcome(mid, Ok((values.last(), end)))]
            reads_in_turn(parser, start, values.drop_last(), mid) && parser.outcome(
                mid,
                Ok((values.last(), end)),
            )
    }
}

/// Whether `parser` may fail at `cursor`.
pub open spec fn stops_at<'a, T: Consumer>(parser: T, cursor: Cursor<'a>) -> bool {
    exists|e: T::Error| parser.outcome(cursor, Err(e))
}

/// Runs a consumer as often as it succeeds and accepts the values where
/// their number is within bounds.
#[derive(Debug)]
pub struct BoundedConsumer<T> where T: Consumer {
    min: Option<usize>,
    max: Option<usize>,
    parser: T,
}

impl<T> BoundedConsumer<T> where T: Consumer {
    /// The least number of values that is accepted, if one was given.
    pub closed spec fn min(self) -> Option<usize> {
        self.min
    }

    /// The number of values from which on none is accepted, if one was
    /// given.
    pub closed spec fn max(self) -> Option<usize> {
        self.max
    }

    /// The consumer that is repeated.
    pub closed spec fn parser(self) -> T {
        self.parser
    }

    /// Whether `count` values are accepted: at least the lower bound, and
    /// fewer than the upper bound.
    pub open spec fn within(self, count: nat) -> bool {
        &&& match self.min() {
            Some(min) => min <= count,
            None => true,
        }
        &&& match self.max() {
            Some(max) => count < max,
            None => count < usize::MAX,
        }
    }

    pub fn new(min: Option<usize>, max: Option<usize>, parser: T) -> (b: Self)
        ensures
            b.min() == min,
            b.max() == max,
            b.parser() == parser,
    {
        Self { min, max, parser }
    }

    pub fn zero_or_more(parser: T) -> (b: Self)
        ensures
            b.min() == Some(0usize),
            b.max() == None::<usize>,
            b.parser() == parser,
    {
        Self { min: Some(0), max: None, parser }
    }

    pub fn one_or_more(parser: T) -> (b: Self)
        ensures
            b.min() == Some(1usize),
            b.max() == None::<usize>,
            b.parser() == parser,
    {
        Self { min: Some(1), max: None, parser }
    }
}

impl<T> Consumer for BoundedConsumer<T> where T: Consumer {
    type Output = Vec<T::Output>;

    type Error = ConsumeError;

    open spec fn ready(&self) -> bool {
        self.parser().ready() && advances(self.parser())
    }

    open spec fn outcome<'a>(
        &self,
        cursor: Cursor<'a>,
        r: Result<(Vec<T::Output>, Cursor<'a>), ConsumeError>,
    ) -> bool {
        match r {
            Ok((values, next)) => {
                &&& reads_in_turn(self.parser(), cursor, values@, next)
                &&& stops_at(self.parser(), next)
                &&& self.within(values@.len())
            },
            Err(e) => exists|values: Seq<T::Output>, next: Cursor<'a>|
                #![trigger reads_in_turn(self.parser(), cursor, values, next)]
                {
                    &&& reads_in_turn(self.parser(), cursor, values, next)
                    &&& stops_at(self.parser(), next)
                    &&& !self.within(values.len())
                    &&& e == (ConsumeError::Count { found: values.len() as usize })
                },
        }
    }

    open spec fn label(&self) -> Seq<char> {
        match (self.min(), self.max()) {
            (Some(min), Some(max)) => "Between "@ + decimal_text(min as nat) + " and "@
                + decimal_text(max as nat) + " instances of "@ + self.parser().label(),
            (Some(min), None) => "Expected at least "@ + decimal_text(min as nat)
                + " instances of "@ + self.parser().label(),
            (None, Some(max)) => "Expected at most "@ + decimal_text(max as nat)
                + " instances of "@ + self.parser().label(),
            (None, None) => "Expected at least one "@ + self.parser().label(),
        }
    }

    fn info(&self) -> (s: String) {
        let inner = self.parser.info();
        match (self.min, self.max) {
            (Some(min), Some(max)) => {
                let mut s = String::from_str("Between ");
                s.append(write_decimal(min as u64).as_str());
                s.append(" and ");
                s.append(write_decimal(max as u64).as_str());
                s.append(" instances of ");
                s.append(inner.as_str());
                s
            },
            (Some(min), None) => {
                let mut s = String::from_str("Expected at least ");
                s.append(write_decimal(min as u64).as_str());
                s.append(" instances of ");
                s.append(inner.as_str());
                s
            },
            (None, Some(max)) => {
                let mut s = String::from_str("Expected at most ");
                s.append(write_decimal(max as u64).as_str());
                s.append(" instances of ");
                s.append(inner.as_str());
                s
            },
            (None, None) => {
                let mut s = String::from_str("Expected at least one ");
                s.append(inner.as_str());
                s
            },
        }
    }

    fn consume<'a>(&self, cursor: Cursor<'a>) -> (r: Result<
        (Vec<T::Output>, Cursor<'a>),
        ConsumeError,
    >) {
        let mut res: Vec<T::Output> = Vec::new();
        let mut cur = cursor;
        let mut open = true;
        while open
            invariant
                self.parser().ready(),
                advances(self.parser()),
                reads_in_turn(self.parser(), cursor, res@, cur),
                !open ==> stops_at(self.parser(), cur),
            decreases cur.rest().len(), open as int,
        {
            match self.parser.consume(cur) {
                Ok((parsed, next)) => {
                    let ghost before = res@;
                    let ghost mid = cur;
                    res.push(parsed);
                    proof {
                        assert(res@.drop_last() =~= before);
                        assert(self.parser().outcome(mid, Ok((res@.last(), next))));
                    }
                    cur = next;
                },
                Err(e) => {
                    assert(self.parser().outcome(cur, Err(e)));
                    open = false;
                },
            }
        }
        let min = match self.min {
            Some(m) => m,
            None => 0,
        };
        let max = match self.max {
            Some(m) => m,
            None => usize::MAX,
        };
        if min <= res.len() && res.len() < max {
            Ok((res, cur))
        } else {
            let r = Err(ConsumeError::Count { found: res.len() });
            assert(reads_in_turn(self.parser(), cursor, res@, cur) && stops_at(self.parser(), cur));
            r
        }
    }
}

} // verus!
