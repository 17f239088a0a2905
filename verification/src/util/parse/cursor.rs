use vstd::prelude::*;
use vstd::string::StrSliceExecFns;
use vstd::string::StringSliceAdditionalSpecFns;

verus! {

/// A position inside a borrowed text.
///
/// The cursor counts characters, not bytes: everything before the position
/// has been consumed, everything from it on is still to read.
#[derive(Debug, Clone, Copy)]
pub struct Cursor<'a> {
    text: &'a str,
    offset: usize,
}

impl<'a> Cursor<'a> {
    #[verifier::type_invariant]
    spec fn in_bounds(self) -> bool {
        self.offset <= self.text@.len()
    }

    /// The whole text the cursor walks over.
    pub closed spec fn whole(self) -> Seq<char> {
        self.text@
    }

    /// How many characters have been consumed.
    pub closed spec fn position(self) -> nat {
        self.offset as nat
    }

    /// The characters that are still to read.
    pub closed spec fn rest(self) -> Seq<char> {
        if self.offset <= self.text@.len() {
            self.text@.subrange(self.offset as int, self.text@.len() as int)
        } else {
            Seq::empty()
        }
    }

    /// `self` is `before` moved forward by `n` characters of the same text.
    pub open spec fn follows(self, before: Cursor<'a>, n: nat) -> bool {
        &&& self.whole() == before.whole()
        &&& self.position() == before.position() + n
        &&& n <= before.rest().len()
        &&& self.rest() == before.rest().skip(n as int)
    }

    /// How many characters a step of `chars` takes from `rest`: all that are
    /// asked for, or all there are.
    pub open spec fn step_len(rest: Seq<char>, chars: nat) -> nat {
        if chars <= rest.len() {
            chars
        } else {
            rest.len()
        }
    }

    /// Whether a step of `chars` is refused on `rest`: the request is held
    /// against the length of `rest` in bytes.
    pub open spec fn step_refused(rest: Seq<char>, chars: nat) -> bool {
        chars > vstd::utf8::encode_utf8(rest).len()
    }

    /// `k` is the length of the run on which `predicate` holds at the front
    /// of `rest`: it answered yes on each of the first `k` characters and,
    /// where a character follows them, no on that one.
    pub open spec fn run_of<F: Fn(&char) -> bool>(predicate: F, rest: Seq<char>, k: nat) -> bool {
        &&& k <= rest.len()
        &&& forall|i: int| 0 <= i < k ==> call_ensures(predicate, (&#[trigger] rest[i],), true)
        &&& k < rest.len() ==> call_ensures(predicate, (&rest[k as int],), false)
    }

    /// No step of at most `rest.len()` characters is ever refused: a text
    /// has at least one byte for each character.
    pub proof fn lemma_step_within_rest(rest: Seq<char>, chars: nat)
        requires
            chars <= rest.len(),
        ensures
            !Self::step_refused(rest, chars),
            Self::step_len(rest, chars) == chars,
    {
        lemma_encoding_no_shorter(rest);
    }

    pub fn new(text: &'a str) -> (c: Self)
        ensures
            c.whole() == text@,
            c.position() == 0,
            c.rest() == text@,
    {
        let c = Self { text, offset: 0 };
        assert(c.rest() =~= text@);
        c
    }

    /// The first character of the underlying text, wherever the cursor
    /// stands.
    pub fn peek(&self) -> (c: Option<char>)
        ensures
            self.whole().len() == 0 ==> c is None,
            self.whole().len() > 0 ==> c == Some(self.whole()[0]),
    {
        if self.text.unicode_len() == 0 {
            None
        } else {
            Some(self.text.get_char(0))
        }
    }

    pub fn remaining(&self) -> (rem: &'a str)
        ensures
            rem@ == self.rest(),
    {
        proof {
            use_type_invariant(self);
        }
        self.text.substring_char(self.offset, self.text.unicode_len())
    }

    /// Moves the cursor forward and hands out what it passed.
    pub fn step_mut(&mut self, chars: usize) -> (taken: Option<&'a str>)
        ensures
            Self::step_refused(old(self).rest(), chars as nat) ==> taken is None && *final(self)
                == *old(self),
            !Self::step_refused(old(self).rest(), chars as nat) ==> taken is Some
                && taken->0@ == old(self).rest().take(
                Self::step_len(old(self).rest(), chars as nat) as int,
            ) && final(self).follows(*old(self), Self::step_len(old(self).rest(), chars as nat)),
    {
        proof {
            use_type_invariant(&*self);
        }
        let total = self.text.unicode_len();
        let rem = self.text.substring_char(self.offset, total);
        if chars > rem.as_bytes().len() {
            None
        } else {
            let avail = rem.unicode_len();
            assert(avail == total - self.offset);
            let k = if chars <= avail {
                chars
            } else {
                avail
            };
            let taken = rem.substring_char(0, k);
            let ghost before = *self;
            self.offset = self.offset + k;
            proof {
                assert(self.rest() =~= before.rest().skip(k as int));
                assert(taken@ =~= before.rest().take(k as int));
            }
            Some(taken)
        }
    }

    /// As [`Cursor::step_mut`], on a cursor taken by value.
    pub fn step(self, chars: usize) -> (r: Option<(&'a str, Self)>)
        ensures
            Self::step_refused(self.rest(), chars as nat) <==> r is None,
            r matches Some((taken, next)) ==> taken@ == self.rest().take(
                Self::step_len(self.rest(), chars as nat) as int,
            ) && next.follows(self, Self::step_len(self.rest(), chars as nat)),
    {
        let mut next = self;
        match next.step_mut(chars) {
            Some(s) => Some((s, next)),
            None => None,
        }
    }

    /// Takes the longest run of characters on which `predicate` holds.
    pub fn take_while<F: Fn(&char) -> bool>(self, predicate: F) -> (r: Option<(&'a str, Self)>)
        requires
            forall|c: char| call_requires(predicate, (&c,)),
        ensures
            r matches Some((taken, next)) && Self::run_of(predicate, self.rest(), taken@.len())
                && taken@ == self.rest().take(taken@.len() as int) && next.follows(
                self,
                taken@.len(),
            ),
    {
        let to_take = self.count_while(&predicate);
        proof {
            Self::lemma_step_within_rest(self.rest(), to_take as nat);
        }
        self.step(to_take)
    }

    /// As [`Cursor::take_while`], but an empty run is no result.
    pub fn take_while_non_zero<F: Fn(&char) -> bool>(self, predicate: F) -> (r: Option<
        (&'a str, Self),
    >)
        requires
            forall|c: char| call_requires(predicate, (&c,)),
        ensures
            r is None ==> Self::run_of(predicate, self.rest(), 0),
            r matches Some((taken, next)) ==> taken@.len() > 0 && Self::run_of(
                predicate,
                self.rest(),
                taken@.len(),
            ) && taken@ == self.rest().take(taken@.len() as int) && next.follows(
                self,
                taken@.len(),
            ),
    {
        let to_take = self.count_while(&predicate);
        if to_take == 0 {
            None
        } else {
            proof {
                Self::lemma_step_within_rest(self.rest(), to_take as nat);
            }
            self.step(to_take)
        }
    }

    fn count_while<F: Fn(&char) -> bool>(&self, predicate: &F) -> (k: usize)
        requires
            forall|c: char| call_requires(*predicate, (&c,)),
        ensures
            Self::run_of(*predicate, self.rest(), k as nat),
    {
        let rem = self.remaining();
        let n = rem.unicode_len();
        let mut k: usize = 0;
        while k < n
            invariant
                rem@ == self.rest(),
                n == rem@.len(),
                k <= n,
                forall|c: char| call_requires(*predicate, (&c,)),
                forall|i: int| 0 <= i < k ==> call_ensures(*predicate, (&#[trigger] rem@[i],), true),
            decreases n - k,
        {
            let c = rem.get_char(k);
            if !predicate(&c) {
                return k;
            }
            k = k + 1;
        }
        k
    }
}

/// The UTF-8 encoding of a text has at least as many bytes as the text has
/// characters.
pub proof fn lemma_encoding_no_shorter(chars: Seq<char>)
    ensures
        vstd::utf8::encode_utf8(chars).len() >= chars.len(),
    decreases chars.len(),
{
    if chars.len() > 0 {
        lemma_encoding_no_shorter(chars.drop_first());
    }
}

} // verus!
