//! Jobs: one run of a rule's handler over its bind.

use crate::binding::{Bind, Data};
use crate::handle::{Handle, Result};
use crate::item::{Item, Route};
use crate::pattern::glob_matches;
use crate::rule::Kind;
use std::sync::Arc;
use vstd::prelude::*;

verus! {

/// What the scheduler dispatches: a rule's handler, the data its bind
/// shares, and the bind once it exists.
pub struct Job<H> {
    /// The data the bind shares, with the finished binds of the rule's
    /// dependencies.
    pub bind_data: Data,
    /// How the rule gets its items.
    pub kind: Arc<Kind>,
    /// The rule's handler.
    pub handler: Arc<H>,
    /// The bind, from the first run on.
    pub bind: Option<Bind>,
    /// Every input path, relative to the input directory.
    pub paths: Arc<Vec<String>>,
}

/// The routes of the items that a rule of kind `kind` reads from `paths`:
/// one read of each matching path, in order.
pub open spec fn matched_routes(kind: Kind, paths: Seq<String>) -> Seq<Route>
    decreases paths.len(),
{
    match kind {
        Kind::Creating => Seq::empty(),
        Kind::Matching(p) => if paths.len() == 0 {
            Seq::empty()
        } else if glob_matches(p.view(), paths.last()@) {
            matched_routes(kind, paths.drop_last()).push(Route::Read(paths.last()))
        } else {
            matched_routes(kind, paths.drop_last())
        },
    }
}

/// `after` holds the items of `before`, each with the same route, body,
/// attributes and stale mark, and is partial exactly when `before` is.
/// (What the items and the bind share may differ: a re-run hands the
/// handler the job's data, with the dependencies' binds as they are now.)
pub open spec fn kept(before: Bind, after: Bind) -> bool {
    &&& after.contents().len() == before.contents().len()
    &&& after.spec_partial() == before.spec_partial()
    &&& forall|k: int|
        0 <= k < before.contents().len() ==> (#[trigger] after.contents()[k]).route == before.contents()[k].route
            && after.contents()[k].body == before.contents()[k].body
            && after.contents()[k].data == before.contents()[k].data
            && after.contents()[k].spec_stale() == before.contents()[k].spec_stale()
}

/// The routes of `items`, in order.
pub open spec fn routes(items: Seq<Item>) -> Seq<Route> {
    items.map_values(|i: Item| i.route)
}

impl<H: Handle<Bind>> Job<H> {
    /// A job that has not run yet.
    pub fn new(bind_data: Data, kind: Arc<Kind>, handler: Arc<H>, paths: Arc<Vec<String>>) -> (r: Job<H>)
        ensures
            r.bind_data == bind_data,
            r.kind == kind,
            r.handler == handler,
            r.bind is None,
            r.paths == paths,
    {
        Job { bind_data, kind, handler, bind: None, paths }
    }

    /// The bind of a job that has run.
    pub fn into_bind(self) -> (r: Bind)
        requires
            self.bind is Some,
        ensures
            r == self.bind->Some_0,
    {
        match self.bind {
            Some(b) => b,
            None => {
                assert(false);
                Bind::new(Vec::new(), Arc::new(self.bind_data))
            },
        }
    }

    /// Adds to `bind` an item that reads each input path that the rule matches.
    fn populate(&self, bind: &mut Bind)
        ensures
            routes(final(bind).contents()) == routes(old(bind).contents()) + matched_routes(*self.kind, self.paths@),
            final(bind).shared() == old(bind).shared(),
            final(bind).spec_partial() == old(bind).spec_partial(),
    {
        match &*self.kind {
            Kind::Creating => {
                assert(routes(bind.contents()) =~= routes(bind.contents()) + Seq::<Route>::empty());
            },
            Kind::Matching(pattern) => {
                let ghost start = routes(bind.contents());
                let mut k: usize = 0;
                assert(self.paths@.take(0) =~= Seq::<String>::empty());
                assert(start + Seq::<Route>::empty() =~= start);
                while k < self.paths.len()
                    invariant
                        k <= self.paths@.len(),
                        *self.kind == Kind::Matching(*pattern),
                        routes(bind.contents()) == start + matched_routes(*self.kind, self.paths@.take(k as int)),
                        bind.shared() == old(bind).shared(),
                        bind.spec_partial() == old(bind).spec_partial(),
                        start == routes(old(bind).contents()),
                    decreases self.paths@.len() - k,
                {
                    let ghost before = bind.contents();
                    let path = &self.paths[k];
                    assert(self.paths@.take(k + 1).drop_last() =~= self.paths@.take(k as int));
                    if pattern.matches(path.as_str()) {
                        let item = bind.spawn(Route::Read(path.clone()));
                        bind.push(item);
                        assert(routes(bind.contents()) =~= routes(before).push(Route::Read(self.paths@[k as int])));
                    }
                    k += 1;
                }
                assert(self.paths@.take(k as int) =~= self.paths@);
            },
        }
    }

    /// Runs the handler: on the first run over a new bind that the rule
    /// populates, later over the bind kept from before, its items as they
    /// were. Either way the bind, and each of its items, then shares this
    /// job's data, so that the handler sees the dependencies' binds as they
    /// are now rather than as they were at the first run.
    pub fn process(&mut self) -> (r: Result)
        ensures
            final(self).bind_data == old(self).bind_data,
            final(self).kind == old(self).kind,
            final(self).handler == old(self).handler,
            final(self).paths == old(self).paths,
            final(self).bind is Some,
            exists|start: Bind|
                #[trigger] old(self).handler.outcome(start, final(self).bind->Some_0, r) && start.shared().name
                    == old(self).bind_data.name && start.shared().dependencies@ == old(self).bind_data.dependencies@
                    && (old(self).bind is None ==> routes(start.contents()) == matched_routes(
                    *old(self).kind,
                    old(self).paths@,
                ) && !start.spec_partial()) && (old(self).bind matches Some(b) ==> kept(b, start)),
    {
        let data = Arc::new(self.bind_data.clone());
        let mut bind = match self.bind.take() {
            Some(b) => {
                let mut b = b;
                b.rebind(data);
                b
            },
            None => {
                let mut b = Bind::new(Vec::new(), data);
                self.populate(&mut b);
                proof {
                    assert(routes(Seq::<Item>::empty()) =~= Seq::<Route>::empty());
                    assert(Seq::<Route>::empty() + matched_routes(*self.kind, self.paths@) =~= matched_routes(*self.kind, self.paths@));
                }
                b
            },
        };
        let ghost start = bind;
        let r = self.handler.handle(&mut bind);
        self.bind = Some(bind);
        proof {
            assert(self.handler.outcome(start, self.bind->Some_0, r));
        }
        r
    }
}

} // verus!
