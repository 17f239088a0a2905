use super::consumer::Consumer;
use super::cursor::Cursor;
use vstd::prelude::*;
use vstd::string::StringExecFns;

verus! {

/// Whether `parser` may fail at `cursor`.
pub open spec fn may_fail<'a, C: Consumer>(parser: C, cursor: Cursor<'a>) -> bool {
    exists|e: C::Error| parser.outcome(cursor, Err(e))
}

/// The descriptions of `alternatives`, with a comma and a space between
/// them.
pub open spec fn labels_joined<C: Consumer>(alternatives: Seq<C>) -> Seq<char>
    decreases alternatives.len(),
{
    if alternatives.len() == 0 {
        Seq::empty()
    } else if alternatives.len() == 1 {
        alternatives[0].label()
    } else {
        labels_joined(alternatives.drop_last()) + ", "@ + alternatives.last().label()
    }
}

/// Tries consumers in turn and answers with the first that succeeds.
pub struct MultiConsumer<C> {
    consumers: Vec<C>,
}

impl<C> MultiConsumer<C> {
    /// The alternatives, in the order in which they are tried.
    pub closed spec fn alternatives(self) -> Seq<C> {
        self.consumers@
    }

    pub fn new() -> (m: Self)
        ensures
            m.alternatives() == Seq::<C>::empty(),
    {
        Self { consumers: Vec::new() }
    }

    pub fn new_with(consumers: Vec<C>) -> (m: Self)
        ensures
            m.alternatives() == consumers@,
    {
        Self { consumers }
    }

    pub fn push(&mut self, consumer: C)
        ensures
            final(self).alternatives() == old(self).alternatives().push(consumer),
    {
        self.consumers.push(consumer);
    }
}

impl<C> Default for MultiConsumer<C> {
    fn default() -> (m: Self)
        ensures
            m.alternatives() == Seq::<C>::empty(),
    {
        Self { consumers: Vec::new() }
    }
}

impl<C> Consumer for MultiConsumer<C> where C: Consumer {
    type Output = C::Output;

    type Error = ();

    open spec fn ready(&self) -> bool {
        forall|i: int| 0 <= i < self.alternatives().len() ==> (#[trigger] self.alternatives()[i]).ready()
    }

    open spec fn outcome<'a>(
        &self,
        cursor: Cursor<'a>,
        r: Result<(C::Output, Cursor<'a>), ()>,
    ) -> bool {
        match r {
            Ok((value, next)) => exists|i: int|
                #![trigger self.alternatives()[i]]
                {
                    &&& 0 <= i < self.alternatives().len()
                    &&& self.alternatives()[i].outcome(cursor, Ok((value, next)))
                    &&& forall|j: int|
                        0 <= j < i ==> may_fail(#[trigger] self.alternatives()[j], cursor)
                },
            Err(_) => forall|j: int|
                0 <= j < self.alternatives().len() ==> may_fail(
                    #[trigger] self.alternatives()[j],
                    cursor,
                ),
        }
    }

    open spec fn label(&self) -> Seq<char> {
        "one of: "@ + labels_joined(self.alternatives())
    }

    fn info(&self) -> (s: String) {
        let mut s = String::from_str("one of: ");
        let mut i: usize = 0;
        while i < self.consumers.len()
            invariant
                i <= self.consumers.len(),
                s@ == "one of: "@ + labels_joined(self.consumers@.take(i as int)),
            decreases self.consumers.len() - i,
        {
            let ghost before = s@;
            let ghost head = self.consumers@.take(i as int);
            let ghost longer = self.consumers@.take(i + 1);
            if i > 0 {
                s.append(", ");
            }
            let piece = self.consumers[i].info();
            s.append(piece.as_str());
            proof {
                assert(longer.drop_last() =~= head);
                assert(longer.last() == self.consumers@[i as int]);
                if i == 0 {
                    assert(labels_joined(head) =~= Seq::<char>::empty());
                    assert(longer[0] == self.consumers@[0]);
                    assert(s@ =~= "one of: "@ + labels_joined(longer));
                } else {
                    assert(s@ =~= "one of: "@ + labels_joined(longer));
                }
            }
            i = i + 1;
        }
        assert(self.consumers@.take(i as int) =~= self.consumers@);
        s
    }

    fn consume<'a>(&self, cursor: Cursor<'a>) -> (r: Result<(C::Output, Cursor<'a>), ()>) {
        let mut i: usize = 0;
        while i < self.consumers.len()
            invariant
                i <= self.consumers.len(),
                self.ready(),
                forall|j: int| 0 <= j < i ==> may_fail(#[trigger] self.alternatives()[j], cursor),
            decreases self.consumers.len() - i,
        {
            assert(self.alternatives()[i as int].ready());
            match self.consumers[i].consume(cursor) {
                Ok((value, next)) => {
                    let r = Ok((value, next));
                    assert(self.alternatives()[i as int].outcome(cursor, Ok((value, next))));
                    assert(r matches Ok((v2, n2)) && v2 == value && n2 == next);
                    return r;
                },
                Err(e) => {
                    assert(self.alternatives()[i as int].outcome(cursor, Err(e)));
                },
            }
            i = i + 1;
        }
        Err(())
    }
}

} // verus!
