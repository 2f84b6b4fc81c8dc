//! The running sets: `FuturesOrdered` and `FuturesUnordered` of the
//! `futures` crate, which poll the started futures.
//!
//! Each is held in a struct of this crate together with a ghost model of
//! the futures it holds: `Some(seq)` while every change to the set has gone
//! through the methods below, `None` once the set was handed out and may
//! have been changed behind the model's back (mutably for both sets, and
//! also through a shared reference for `FuturesUnordered`, whose `push`
//! takes `&self`). A second ghost flag says whether the set is fresh: just
//! created or cleared, with nothing added since. The methods that call into
//! `futures` are trusted; their contracts say how the model follows the
//! set, as the `futures` source and documentation show it.
use core::task::{Context, Poll};
use std::pin::Pin;

use futures::stream::{FuturesOrdered, FuturesUnordered, Stream};
use vstd::future::FutureAdditionalSpecFns;
use vstd::prelude::*;

verus! {

#[verifier::external_type_specification]
#[verifier::external_body]
#[verifier::reject_recursive_types(T)]
pub struct ExFuturesOrdered<T: core::future::Future>(FuturesOrdered<T>);

#[verifier::external_type_specification]
#[verifier::external_body]
#[verifier::reject_recursive_types(Fut)]
pub struct ExFuturesUnordered<Fut>(FuturesUnordered<Fut>);

#[verifier::external_type_specification]
#[verifier::external_body]
pub struct ExContext<'a>(Context<'a>);

#[verifier::external_type_specification]
#[verifier::reject_recursive_types(T)]
pub struct ExPoll<T>(Poll<T>);

/// A model after more futures were added at its end: unknown stays unknown.
pub open spec fn extended<F>(model: Option<Seq<F>>, more: Seq<F>) -> Option<Seq<F>> {
    match model {
        Some(held) => Some(held + more),
        None => None,
    }
}

/// A `FuturesOrdered` with a model of the futures it holds, in the order
/// their outputs come out.
#[verifier::reject_recursive_types(F)]
pub struct RunningOrdered<F: core::future::Future> {
    set: FuturesOrdered<F>,
    model: Ghost<Option<Seq<F>>>,
    fresh: Ghost<bool>,
}

impl<F: core::future::Future> RunningOrdered<F> {
    /// The futures held, front (next output) first; `None` when unknown.
    pub closed spec fn model(&self) -> Option<Seq<F>> {
        self.model@
    }

    /// The `FuturesOrdered` itself.
    pub closed spec fn set(&self) -> FuturesOrdered<F> {
        self.set
    }

    /// Whether the set is fresh: created and never given a future since.
    pub closed spec fn fresh(&self) -> bool {
        self.fresh@
    }

    /// Calls `FuturesOrdered::new`: an empty set.
    #[verifier::external_body]
    pub fn new() -> (running: Self)
        ensures
            running.model() == Some(Seq::<F>::empty()),
            running.fresh(),
    {
        RunningOrdered { set: FuturesOrdered::new(), model: Ghost(Some(Seq::empty())), fresh: Ghost(true) }
    }

    /// Calls `FuturesOrdered::len`: the number of futures held (those in
    /// progress and those completed whose outputs wait for earlier ones).
    #[verifier::external_body]
    pub fn len(&self) -> (len: usize)
        ensures
            self.model() is Some ==> len == self.model()->0.len(),
    {
        self.set.len()
    }

    /// Calls `FuturesOrdered::push_back`: `fut` is held, and its output comes
    /// after those of all futures held before.
    #[verifier::external_body]
    pub fn push_back(&mut self, fut: F)
        ensures
            final(self).model() == extended(old(self).model(), seq![fut]),
            !final(self).fresh(),
    {
        self.set.push_back(fut)
    }

    /// Calls `FuturesOrdered::push_front`: `fut` is held, and its output
    /// comes before those of all futures held before.
    #[verifier::external_body]
    pub fn push_front(&mut self, fut: F)
        ensures
            final(self).model() == match old(self).model() {
                Some(held) => Some(seq![fut] + held),
                None => None,
            },
            !final(self).fresh(),
    {
        self.set.push_front(fut)
    }

    /// Calls `Stream::poll_next` of `FuturesOrdered`. A ready output is the
    /// output of the front future, which then leaves the set; `Ready(None)`
    /// comes only from an empty set; `Pending` leaves the futures held as
    /// they were.
    #[verifier::external_body]
    pub fn poll(&mut self, cx: &mut Context) -> (polled: Poll<Option<F::Output>>)
        ensures
            match polled {
                Poll::Ready(Some(out)) => match old(self).model() {
                    Some(held) => {
                        &&& held.len() > 0
                        &&& out == held[0].view()
                        &&& final(self).model() == Some(held.drop_first())
                    },
                    None => final(self).model() is None,
                },
                Poll::Ready(None) => {
                    &&& old(self).model() is Some ==> old(self).model()->0.len() == 0
                    &&& final(self).model() == Some(Seq::<F>::empty())
                    &&& final(self).fresh() == old(self).fresh()
                },
                Poll::Pending => {
                    &&& final(self).model() == old(self).model()
                    &&& final(self).fresh() == old(self).fresh()
                },
            },
            old(self).fresh() ==> polled matches Poll::Ready(None),
    {
        Pin::new(&mut self.set).poll_next(cx)
    }

    /// Borrow the `FuturesOrdered`.
    pub fn inner(&self) -> (set: &FuturesOrdered<F>)
        ensures
            *set == self.set(),
    {
        &self.set
    }

    /// Mutably borrow the `FuturesOrdered`. The model becomes unknown.
    pub fn inner_mut(&mut self) -> (set: &mut FuturesOrdered<F>)
        ensures
            *set == old(self).set(),
            final(self).set() == *final(set),
            final(self).model() is None,
            !final(self).fresh(),
    {
        self.model = Ghost(None);
        self.fresh = Ghost(false);
        &mut self.set
    }

    /// The `FuturesOrdered`, consuming the holder.
    pub fn into_set(self) -> (set: FuturesOrdered<F>)
        ensures
            set == self.set(),
    {
        self.set
    }
}

/// A `FuturesUnordered` with a model of the futures it holds (in the order
/// they were added; outputs come in any order).
#[verifier::reject_recursive_types(F)]
pub struct RunningUnordered<F: core::future::Future> {
    set: FuturesUnordered<F>,
    model: Ghost<Option<Seq<F>>>,
    fresh: Ghost<bool>,
}

impl<F: core::future::Future> RunningUnordered<F> {
    /// The futures held; `None` when unknown.
    pub closed spec fn model(&self) -> Option<Seq<F>> {
        self.model@
    }

    /// The `FuturesUnordered` itself.
    pub closed spec fn set(&self) -> FuturesUnordered<F> {
        self.set
    }

    /// Whether the set is fresh: created or cleared, and never given a
    /// future since.
    pub closed spec fn fresh(&self) -> bool {
        self.fresh@
    }

    /// Calls `FuturesUnordered::new`: an empty set.
    #[verifier::external_body]
    pub fn new() -> (running: Self)
        ensures
            running.model() == Some(Seq::<F>::empty()),
            running.fresh(),
    {
        RunningUnordered { set: FuturesUnordered::new(), model: Ghost(Some(Seq::empty())), fresh: Ghost(true) }
    }

    /// Calls `FuturesUnordered::len`: the number of futures held.
    #[verifier::external_body]
    pub fn len(&self) -> (len: usize)
        ensures
            self.model() is Some ==> len == self.model()->0.len(),
    {
        self.set.len()
    }

    /// Calls `FuturesUnordered::is_empty`: whether no future is held.
    #[verifier::external_body]
    pub fn is_empty(&self) -> (empty: bool)
        ensures
            self.model() is Some ==> empty == (self.model()->0.len() == 0),
    {
        self.set.is_empty()
    }

    /// Calls `FuturesUnordered::push` (which takes `&self` and changes the
    /// set through interior mutability): `fut` is held.
    #[verifier::external_body]
    pub fn push(&mut self, fut: F)
        ensures
            final(self).model() == extended(old(self).model(), seq![fut]),
            !final(self).fresh(),
    {
        self.set.push(fut)
    }

    /// Calls `FuturesUnordered::clear`: no future is held.
    #[verifier::external_body]
    pub fn clear(&mut self)
        ensures
            final(self).model() == Some(Seq::<F>::empty()),
            final(self).fresh(),
    {
        self.set.clear()
    }

    /// Calls `Stream::poll_next` of `FuturesUnordered`. A ready output is the
    /// output of one of the futures held, which then leaves the set;
    /// `Ready(None)` comes only from an empty set; `Pending` leaves the
    /// futures held as they were.
    #[verifier::external_body]
    pub fn poll(&mut self, cx: &mut Context) -> (polled: Poll<Option<F::Output>>)
        ensures
            match polled {
                Poll::Ready(Some(out)) => match old(self).model() {
                    Some(held) => exists|done: int|
                        {
                            &&& 0 <= done < held.len()
                            &&& out == (#[trigger] held[done]).view()
                            &&& final(self).model() == Some(held.remove(done))
                        },
                    None => final(self).model() is None,
                },
                Poll::Ready(None) => {
                    &&& old(self).model() is Some ==> old(self).model()->0.len() == 0
                    &&& final(self).model() == Some(Seq::<F>::empty())
                    &&& final(self).fresh() == old(self).fresh()
                },
                Poll::Pending => {
                    &&& final(self).model() == old(self).model()
                    &&& final(self).fresh() == old(self).fresh()
                },
            },
            old(self).fresh() ==> polled matches Poll::Ready(None),
    {
        Pin::new(&mut self.set).poll_next(cx)
    }

    /// Borrow the `FuturesUnordered`. Futures can be pushed through a
    /// shared reference to it, so the model becomes unknown.
    pub fn inner(&mut self) -> (set: &FuturesUnordered<F>)
        ensures
            *set == old(self).set(),
            final(self).model() is None,
            !final(self).fresh(),
    {
        self.model = Ghost(None);
        self.fresh = Ghost(false);
        &self.set
    }

    /// Mutably borrow the `FuturesUnordered`. The model becomes unknown.
    pub fn inner_mut(&mut self) -> (set: &mut FuturesUnordered<F>)
        ensures
            *set == old(self).set(),
            final(self).set() == *final(set),
            final(self).model() is None,
            !final(self).fresh(),
    {
        self.model = Ghost(None);
        self.fresh = Ghost(false);
        &mut self.set
    }

    /// The `FuturesUnordered`, consuming the holder.
    pub fn into_set(self) -> (set: FuturesUnordered<F>)
        ensures
            set == self.set(),
    {
        self.set
    }
}

} // verus!
