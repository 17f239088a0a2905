use super::consumer::Consumer;
use super::map::Mapped;
use super::optional::OptionalConsumer;
use super::then::{IgnoreThen, Then, ThenIgnore};
use vstd::prelude::*;

verus! {

/// Ways to build a consumer out of others, as methods of the first.
pub trait ConsumerExt where Self: Sized + Consumer {
    /// `self`, then `second`; both values are kept.
    fn then<T>(self, second: T) -> (r: Then<Self, T>) where T: Consumer
        ensures
            r.first() == self,
            r.second() == second,
    ;

    /// `self`, then `second`; the value of `second` is kept.
    fn ignore_then<T>(self, second: T) -> (r: IgnoreThen<Self, T>) where T: Consumer
        ensures
            r.first() == self,
            r.second() == second,
    ;

    /// `self`, then `second`; the value of `self` is kept.
    fn then_ignore<T>(self, second: T) -> (r: ThenIgnore<Self, T>) where T: Consumer
        ensures
            r.first() == self,
            r.second() == second,
    ;

    /// `self`, with `function` applied to its value.
    fn map<F, R, E>(self, function: F) -> (r: Mapped<Self, F>) where
        F: Fn(<Self as Consumer>::Output) -> Result<R, E>,

        ensures
            r.consumer() == self,
            r.function() == function,
    ;

    /// `self`, then `opt` where it succeeds; both values are kept.
    fn maybe<T>(self, opt: T) -> (r: Then<Self, OptionalConsumer<T>>) where T: Consumer
        ensures
            r.first() == self,
            r.second().inner() == opt,
    ;

    /// `self`, then `opt` where it succeeds; the value of `self` is kept.
    fn maybe_ignore<T>(self, opt: T) -> (r: ThenIgnore<Self, OptionalConsumer<T>>) where
        T: Consumer,

        ensures
            r.first() == self,
            r.second().inner() == opt,
    ;

    /// `self`, then `opt` where it succeeds; the value of `opt` is kept.
    fn ignore_maybe<T>(self, opt: T) -> (r: IgnoreThen<Self, OptionalConsumer<T>>) where
        T: Consumer,

        ensures
            r.first() == self,
            r.second().inner() == opt,
    ;
}

impl<C> ConsumerExt for C where C: Consumer {
    fn then<T>(self, second: T) -> (r: Then<Self, T>) where T: Consumer {
        Then::new(self, second)
    }

    fn ignore_then<T>(self, second: T) -> (r: IgnoreThen<Self, T>) where T: Consumer {
        IgnoreThen::new(self, second)
    }

    fn then_ignore<T>(self, second: T) -> (r: ThenIgnore<Self, T>) where T: Consumer {
        ThenIgnore::new(self, second)
    }

    fn map<F, R, E>(self, function: F) -> (r: Mapped<Self, F>) where
        F: Fn(<Self as Consumer>::Output) -> Result<R, E>,
     {
        Mapped::new(self, function)
    }

    fn maybe<T>(self, opt: T) -> (r: Then<Self, OptionalConsumer<T>>) where T: Consumer {
        Then::new(self, OptionalConsumer::new(opt))
    }

    fn maybe_ignore<T>(self, opt: T) -> (r: ThenIgnore<Self, OptionalConsumer<T>>) where
        T: Consumer,
     {
        ThenIgnore::new(self, OptionalConsumer::new(opt))
    }

    fn ignore_maybe<T>(self, opt: T) -> (r: IgnoreThen<Self, OptionalConsumer<T>>) where
        T: Consumer,
     {
        IgnoreThen::new(self, OptionalConsumer::new(opt))
    }
}

} // verus!
