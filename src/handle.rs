//! Handlers: units of work over an item or a bind, and chains of them.

use crate::binding::Bind;
use crate::item::Item;
use vstd::prelude::*;

verus! {

/// Why a handler failed.
pub struct Error {
    pub message: String,
}

impl Error {
    /// An error that says `message`.
    pub fn new(message: String) -> (r: Error)
        ensures
            r.message == message,
    {
        Error { message }
    }
}

/// What a handler returns.
pub type Result = core::result::Result<(), Error>;

/// A unit of work over a `T`: an [`Item`] or a [`Bind`].
pub trait Handle<T> {
    /// Whether handling `before` may leave `after` behind and return `r`;
    /// a handler that states nothing allows any outcome.
    open spec fn outcome(&self, before: T, after: T, r: Result) -> bool {
        true
    }

    fn handle(&self, target: &mut T) -> (r: Result)
        ensures
            self.outcome(*old(target), *final(target), r);
}

/// `results` are the results of the handlers that ran, out of `n`: all
/// but the last succeeded, fewer than `n` ran only because the last
/// failed, and `r` is the last result (success where none ran).
pub open spec fn stops(results: Seq<Result>, n: nat, r: Result) -> bool {
    &&& results.len() <= n
    &&& forall|k: int| 0 <= k < results.len() - 1 ==> (#[trigger] results[k]) is Ok
    &&& results.len() < n ==> results.len() >= 1 && results.last() is Err
    &&& (results.len() == 0 || results.last() is Ok) ==> r is Ok
    &&& (results.len() > 0 && results.last() is Err) ==> r == results.last()
}

/// A run of `hs` in order from `before` to `after` through `states`,
/// with `results`.
pub open spec fn runs_through<T, H: Handle<T>>(
    hs: Seq<H>,
    before: T,
    after: T,
    r: Result,
    states: Seq<T>,
    results: Seq<Result>,
) -> bool {
    &&& stops(results, hs.len(), r)
    &&& states.len() == results.len() + 1
    &&& states[0] == before
    &&& states.last() == after
    &&& forall|k: int|
        0 <= k < results.len() ==> #[trigger] hs[k].outcome(states[k], states[k + 1], results[k])
}

/// Running `hs` in order on `before` may leave `after` and return `r`:
/// each handler starts where the one before it stopped, and the first
/// error ends the run and is returned.
pub open spec fn runs<T, H: Handle<T>>(hs: Seq<H>, before: T, after: T, r: Result) -> bool {
    exists|states: Seq<T>, results: Seq<Result>| #[trigger] runs_through(hs, before, after, r, states, results)
}

/// A run of `chain` over the items `before`, one item after the other,
/// with `results`.
pub open spec fn each_runs_through<C: Handle<Item>>(
    chain: C,
    before: Seq<Item>,
    after: Seq<Item>,
    r: Result,
    results: Seq<Result>,
) -> bool {
    &&& stops(results, before.len(), r)
    &&& after.len() == before.len()
    &&& forall|k: int| 0 <= k < results.len() ==> #[trigger] chain.outcome(before[k], after[k], results[k])
    &&& forall|k: int| results.len() <= k < before.len() ==> #[trigger] after[k] == before[k]
}

/// Running `chain` on each item of `before` in order may leave `after` and
/// return `r`: the first error ends the run, and the items after it stay
/// as they were.
pub open spec fn each_runs<C: Handle<Item>>(chain: C, before: Seq<Item>, after: Seq<Item>, r: Result) -> bool {
    exists|results: Seq<Result>| #[trigger] each_runs_through(chain, before, after, r, results)
}

/// Runs each of `hs` on `target` in order, stopping at the first error.
fn run_all<T, H: Handle<T>>(hs: &Vec<H>, target: &mut T) -> (r: Result)
    ensures
        runs(hs@, *old(target), *final(target), r),
{
    let ghost start = *target;
    let ghost mut states: Seq<T> = seq![start];
    let ghost mut results: Seq<Result> = Seq::empty();
    let mut k: usize = 0;
    while k < hs.len()
        invariant
            k <= hs@.len(),
            start == *old(target),
            states.len() == k + 1,
            results.len() == k,
            states[0] == start,
            states.last() == *target,
            forall|m: int| 0 <= m < k ==> (#[trigger] results[m]) is Ok,
            forall|m: int| 0 <= m < k ==> #[trigger] hs@[m].outcome(states[m], states[m + 1], results[m]),
        decreases hs@.len() - k,
    {
        let ghost mid = *target;
        let res = hs[k].handle(target);
        proof {
            let s0 = states;
            states = states.push(*target);
            results = results.push(res);
            assert forall|m: int| 0 <= m < k + 1 implies #[trigger] hs@[m].outcome(states[m], states[m + 1], results[m]) by {
                if m < k {
                    assert(states[m] == s0[m] && states[m + 1] == s0[m + 1]);
                }
            }
        }
        match res {
            Err(e) => {
                proof {
                    assert(runs_through(hs@, start, *target, Err(e), states, results));
                }
                return Err(e);
            },
            Ok(()) => {},
        }
        k += 1;
    }
    proof {
        if k > 0 {
            assert(results[k - 1] is Ok);
        }
    }
    assert(runs_through(hs@, start, *target, Ok(()), states, results));
    Ok(())
}

/// Handlers over a bind, run in order.
pub struct BindChain<H> {
    pub handlers: Vec<H>,
}

impl<H> BindChain<H> {
    /// A chain with no handlers.
    pub fn new() -> (r: BindChain<H>)
        ensures
            r.handlers@.len() == 0,
    {
        BindChain { handlers: Vec::new() }
    }

    /// The chain with `handler` added at the end.
    pub fn link(self, handler: H) -> (r: BindChain<H>)
        ensures
            r.handlers@ == self.handlers@.push(handler),
    {
        let mut handlers = self.handlers;
        handlers.push(handler);
        BindChain { handlers }
    }
}

impl<H: Handle<Bind>> Handle<Bind> for BindChain<H> {
    open spec fn outcome(&self, before: Bind, after: Bind, r: Result) -> bool {
        runs(self.handlers@, before, after, r)
    }

    fn handle(&self, target: &mut Bind) -> (r: Result) {
        run_all(&self.handlers, target)
    }
}

/// Handlers over an item, run in order.
///
/// As a handler of a bind it runs on each item of the bind in turn.
pub struct ItemChain<H> {
    pub handlers: Vec<H>,
}

impl<H> ItemChain<H> {
    /// A chain with no handlers.
    pub fn new() -> (r: ItemChain<H>)
        ensures
            r.handlers@.len() == 0,
    {
        ItemChain { handlers: Vec::new() }
    }

    /// The chain with `handler` added at the end.
    pub fn link(self, handler: H) -> (r: ItemChain<H>)
        ensures
            r.handlers@ == self.handlers@.push(handler),
    {
        let mut handlers = self.handlers;
        handlers.push(handler);
        ItemChain { handlers }
    }
}

impl<H: Handle<Item>> Handle<Item> for ItemChain<H> {
    open spec fn outcome(&self, before: Item, after: Item, r: Result) -> bool {
        runs(self.handlers@, before, after, r)
    }

    fn handle(&self, target: &mut Item) -> (r: Result) {
        run_all(&self.handlers, target)
    }
}

impl<H: Handle<Item>> Handle<Bind> for ItemChain<H> {
    open spec fn outcome(&self, before: Bind, after: Bind, r: Result) -> bool {
        &&& each_runs(*self, before.contents(), after.contents(), r)
        &&& after.shared() == before.shared()
        &&& after.spec_partial() == before.spec_partial()
    }

    fn handle(&self, target: &mut Bind) -> (r: Result) {
        proof {
            crate::binding::lemma_bind_fields(*target);
            crate::binding::lemma_bind_fields(*old(target));
        }
        let ghost start = target.items@;
        let ghost mut results: Seq<Result> = Seq::empty();
        let mut k: usize = 0;
        while k < target.items.len()
            invariant
                k <= target.items@.len(),
                target.items@.len() == start.len(),
                start == old(target).items@,
                target.data == old(target).data,
                target.partial == old(target).partial,
                results.len() == k,
                forall|m: int| 0 <= m < k ==> (#[trigger] results[m]) is Ok,
                forall|m: int| 0 <= m < k ==> #[trigger] self.outcome(start[m], target.items@[m], results[m]),
                forall|m: int| k <= m < start.len() ==> target.items@[m] == start[m],
            decreases start.len() - k,
        {
            let ghost mid = target.items@;
            let res = <ItemChain<H> as Handle<Item>>::handle(self, &mut target.items[k]);
            proof {
                results = results.push(res);
                assert forall|m: int| 0 <= m < k + 1 implies #[trigger] self.outcome(start[m], target.items@[m], results[m]) by {
                    if m < k {
                        assert(target.items@[m] == mid[m]);
                    }
                }
            }
            match res {
                Err(e) => {
                    proof {
                        crate::binding::lemma_bind_fields(*target);
                        crate::binding::lemma_bind_fields(*old(target));
                        assert(each_runs_through(*self, start, target.items@, Err(e), results));
                    }
                    return Err(e);
                },
                Ok(()) => {},
            }
            k += 1;
        }
        proof {
            crate::binding::lemma_bind_fields(*target);
            crate::binding::lemma_bind_fields(*old(target));
            if k > 0 {
                assert(results[k - 1] is Ok);
                }
            assert(each_runs_through(*self, start, target.items@, Ok(()), results));
        }
        Ok(())
    }
}

} // verus!
