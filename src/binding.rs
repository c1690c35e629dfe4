//! Binds: the items that one run of a rule produced, with the data that
//! they share.

use crate::configuration::Configuration;
use crate::item::{Item, Route};
use std::sync::Arc;
use vstd::prelude::*;

verus! {

/// Values shared by every item of a bind and across binds, one per type,
/// from the `typemap` crate behind a reader-writer lock.
///
/// Handlers read and write the map through `map`.
#[verifier::external_body]
pub struct Extensions {
    pub map: Arc<std::sync::RwLock<typemap::ShareCloneMap>>,
}

impl Extensions {
    /// Relies on `typemap::TypeMap::custom`: a map without values.
    #[verifier::external_body]
    pub(crate) fn new() -> Extensions {
        Extensions { map: Arc::new(std::sync::RwLock::new(typemap::TypeMap::custom())) }
    }
}

impl Clone for Extensions {
    /// Relies on the `Clone` of `Arc`: the clone shares the same map.
    #[verifier::external_body]
    fn clone(&self) -> (r: Self)
        ensures
            r == *self,
    {
        Extensions { map: self.map.clone() }
    }
}

/// The data that the items of a bind share.
pub struct Data {
    /// The name of the rule that the bind belongs to.
    pub name: String,
    /// The finished bind of each dependency, by rule name.
    pub dependencies: Vec<(String, Arc<Bind>)>,
    /// The settings of the build.
    pub configuration: Arc<Configuration>,
    /// Values shared across binds.
    pub extensions: Extensions,
}

/// The bind that `deps` lists under `name`: the first entry of that name.
pub open spec fn lookup(deps: Seq<(String, Arc<Bind>)>, name: Seq<char>) -> Option<Arc<Bind>>
    decreases deps.len(),
{
    if deps.len() == 0 {
        None
    } else if deps[0].0@ == name {
        Some(deps[0].1)
    } else {
        lookup(deps.drop_first(), name)
    }
}

impl Data {
    /// Data for a bind of the rule `name`, with no dependencies yet.
    pub fn new(name: String, configuration: Arc<Configuration>) -> (r: Data)
        ensures
            r.name == name,
            r.dependencies@.len() == 0,
            r.configuration == configuration,
    {
        Data { name, dependencies: Vec::new(), configuration, extensions: Extensions::new() }
    }

    /// The finished bind of the dependency `name`, if there is one.
    pub fn dependency(&self, name: &String) -> (r: Option<Arc<Bind>>)
        ensures
            r == lookup(self.dependencies@, name@),
    {
        let mut k: usize = 0;
        assert(self.dependencies@.skip(0) =~= self.dependencies@);
        while k < self.dependencies.len()
            invariant
                k <= self.dependencies@.len(),
                lookup(self.dependencies@, name@) == lookup(self.dependencies@.skip(k as int), name@),
            decreases self.dependencies@.len() - k,
        {
            let ghost rest = self.dependencies@.skip(k as int);
            assert(rest.drop_first() =~= self.dependencies@.skip(k + 1));
            assert(rest[0] == self.dependencies@[k as int]);
            if self.dependencies[k].0 == *name {
                return Some(self.dependencies[k].1.clone());
            }
            k += 1;
        }
        None
    }
}

impl Clone for Data {
    fn clone(&self) -> (r: Self)
        ensures
            r.name == self.name,
            r.dependencies@ == self.dependencies@,
            r.configuration == self.configuration,
            r.extensions == self.extensions,
    {
        let mut dependencies: Vec<(String, Arc<Bind>)> = Vec::new();
        let mut k: usize = 0;
        while k < self.dependencies.len()
            invariant
                k <= self.dependencies@.len(),
                dependencies@ == self.dependencies@.take(k as int),
            decreases self.dependencies@.len() - k,
        {
            let entry = (self.dependencies[k].0.clone(), self.dependencies[k].1.clone());
            dependencies.push(entry);
            k += 1;
            assert(dependencies@ =~= self.dependencies@.take(k as int));
        }
        assert(self.dependencies@.take(k as int) =~= self.dependencies@);
        Data {
            name: self.name.clone(),
            dependencies,
            configuration: self.configuration.clone(),
            extensions: self.extensions.clone(),
        }
    }
}

/// The items that one run of a rule produced.
///
/// A partial bind is one being rebuilt: its iteration yields only the
/// items marked stale.
pub struct Bind {
    pub(crate) items: Vec<Item>,
    pub(crate) data: Arc<Data>,
    pub(crate) partial: bool,
}

/// The items of `items` that an iteration yields.
pub open spec fn visible(items: Seq<Item>, partial: bool) -> Seq<Item>
    decreases items.len(),
{
    if items.len() == 0 {
        Seq::empty()
    } else if !partial || items.last().spec_stale() {
        visible(items.drop_last(), partial).push(items.last())
    } else {
        visible(items.drop_last(), partial)
    }
}

/// The accessors of a bind say what its fields hold.
pub(crate) proof fn lemma_bind_fields(b: Bind)
    ensures
        b.contents() == b.items@,
        b.shared() == b.data,
        b.spec_partial() == b.partial,
{
}

/// `b` is whole: not partial, and no item of it is marked stale.
pub open spec fn whole(b: Bind) -> bool {
    &&& !b.spec_partial()
    &&& forall|k: int| 0 <= k < b.contents().len() ==> !(#[trigger] b.contents()[k]).spec_stale()
}

/// `b` is `a` made whole: the same items, with the same routes, bodies and
/// attributes, none marked stale, and the bind not partial.
pub open spec fn settled_from(a: Bind, b: Bind) -> bool {
    &&& !b.spec_partial()
    &&& b.contents().len() == a.contents().len()
    &&& forall|k: int|
        0 <= k < a.contents().len() ==> (#[trigger] b.contents()[k]).route == a.contents()[k].route && b.contents()[k].body
            == a.contents()[k].body && b.contents()[k].data == a.contents()[k].data && !b.contents()[k].spec_stale()
}

/// Marks `bind` as partial, or as whole.
pub fn set_partial(bind: &mut Bind, is_partial: bool)
    ensures
        final(bind).spec_partial() == is_partial,
        final(bind).contents() == old(bind).contents(),
        final(bind).shared() == old(bind).shared(),
{
    bind.partial = is_partial;
}

impl Bind {
    /// The items, in order.
    pub closed spec fn contents(&self) -> Seq<Item> {
        self.items@
    }

    /// The shared data.
    pub closed spec fn shared(&self) -> Arc<Data> {
        self.data
    }

    /// Whether the bind is being rebuilt.
    pub closed spec fn spec_partial(&self) -> bool {
        self.partial
    }

    /// A whole bind of `items`.
    pub fn new(items: Vec<Item>, data: Arc<Data>) -> (r: Bind)
        ensures
            r.contents() == items@,
            r.shared() == data,
            !r.spec_partial(),
    {
        Bind { items, data, partial: false }
    }

    /// Whether the bind is being rebuilt.
    pub fn is_partial(&self) -> (r: bool)
        ensures
            r == self.spec_partial(),
    {
        self.partial
    }

    /// All items.
    pub fn items(&self) -> (r: &[Item])
        ensures
            r@ == self.contents(),
    {
        self.items.as_slice()
    }

    /// All items, to change in place; none can be added or removed.
    pub fn items_mut(&mut self) -> (r: &mut [Item])
        ensures
            r@ == old(self).contents(),
            final(self).contents() == final(r)@,
            final(self).shared() == old(self).shared(),
            final(self).spec_partial() == old(self).spec_partial(),
    {
        self.items.as_mut_slice()
    }

    /// The items that an iteration yields: all of them, or, in a partial
    /// bind, those marked stale.
    pub fn iter(&self) -> (r: Vec<&Item>)
        ensures
            r@.len() == visible(self.contents(), self.spec_partial()).len(),
            forall|k: int| 0 <= k < r@.len() ==> *(#[trigger] r@[k]) == visible(self.contents(), self.spec_partial())[k],
    {
        let mut r: Vec<&Item> = Vec::new();
        let mut k: usize = 0;
        while k < self.items.len()
            invariant
                k <= self.items@.len(),
                r@.len() == visible(self.items@.take(k as int), self.partial).len(),
                forall|m: int| 0 <= m < r@.len() ==> *(#[trigger] r@[m]) == visible(self.items@.take(k as int), self.partial)[m],
            decreases self.items@.len() - k,
        {
            let ghost before = self.items@.take(k as int);
            let ghost after = self.items@.take(k + 1);
            assert(after.drop_last() =~= before);
            let item = &self.items[k];
            if !self.partial || item.is_stale() {
                r.push(item);
            }
            k += 1;
        }
        assert(self.items@.take(k as int) =~= self.items@);
        r
    }

    /// The shared data.
    pub fn data(&self) -> (r: &Data)
        ensures
            *r == *self.shared(),
    {
        &self.data
    }

    /// The shared data, as a shared handle.
    pub fn get_data(&self) -> (r: Arc<Data>)
        ensures
            r == self.shared(),
    {
        self.data.clone()
    }

    /// A new item of this bind; it is not added.
    pub fn spawn(&self, route: Route) -> (r: Item)
        ensures
            r.route == route,
            r.owner() == self.shared(),
            !r.spec_stale(),
    {
        Item::new(route, self.data.clone())
    }

    /// Makes the bind, and each of its items, share `data`.
    pub fn rebind(&mut self, data: Arc<Data>)
        ensures
            final(self).shared() == data,
            final(self).spec_partial() == old(self).spec_partial(),
            final(self).contents().len() == old(self).contents().len(),
            forall|k: int| 0 <= k < old(self).contents().len() ==> (#[trigger] final(self).contents()[k]).route == old(self).contents()[k].route
                && final(self).contents()[k].spec_stale() == old(self).contents()[k].spec_stale()
                && final(self).contents()[k].body == old(self).contents()[k].body
                && final(self).contents()[k].data == old(self).contents()[k].data
                && final(self).contents()[k].owner() == data,
    {
        let mut k: usize = 0;
        while k < self.items.len()
            invariant
                k <= self.items@.len(),
                self.items@.len() == old(self).items@.len(),
                self.partial == old(self).partial,
                forall|m: int| 0 <= m < self.items@.len() ==> (#[trigger] self.items@[m]).route == old(self).items@[m].route
                    && self.items@[m].spec_stale() == old(self).items@[m].spec_stale()
                    && self.items@[m].body == old(self).items@[m].body
                    && self.items@[m].data == old(self).items@[m].data,
                forall|m: int| 0 <= m < k ==> (#[trigger] self.items@[m]).owner() == data,
            decreases self.items@.len() - k,
        {
            self.items[k].bind = data.clone();
            k += 1;
        }
        self.data = data;
    }

    /// Makes the bind share `data` and clears every stale mark: the bind
    /// is whole again.
    pub fn settle(&mut self, data: Arc<Data>)
        ensures
            final(self).shared() == data,
            !final(self).spec_partial(),
            final(self).contents().len() == old(self).contents().len(),
            forall|k: int| 0 <= k < old(self).contents().len() ==> (#[trigger] final(self).contents()[k]).route == old(self).contents()[k].route
                && !final(self).contents()[k].spec_stale()
                && final(self).contents()[k].body == old(self).contents()[k].body
                && final(self).contents()[k].data == old(self).contents()[k].data,
    {
        let mut k: usize = 0;
        while k < self.items.len()
            invariant
                k <= self.items@.len(),
                self.items@.len() == old(self).items@.len(),
                forall|m: int| 0 <= m < self.items@.len() ==> (#[trigger] self.items@[m]).route == old(self).items@[m].route
                    && self.items@[m].body == old(self).items@[m].body && self.items@[m].data == old(self).items@[m].data,
                forall|m: int| 0 <= m < k ==> !(#[trigger] self.items@[m]).spec_stale(),
            decreases self.items@.len() - k,
        {
            self.items[k].stale = false;
            k += 1;
        }
        self.data = data;
        self.partial = false;
    }

    /// Adds `item` at the end.
    pub fn push(&mut self, item: Item)
        ensures
            final(self).contents() == old(self).contents().push(item),
            final(self).shared() == old(self).shared(),
            final(self).spec_partial() == old(self).spec_partial(),
    {
        self.items.push(item);
    }
}

impl Clone for Bind {
    fn clone(&self) -> (r: Self)
        ensures
            r.contents().len() == self.contents().len(),
            forall|k: int| 0 <= k < self.contents().len() ==> (#[trigger] r.contents()[k]).route == self.contents()[k].route
                && r.contents()[k].spec_stale() == self.contents()[k].spec_stale()
                && r.contents()[k].owner() == self.contents()[k].owner()
                && r.contents()[k].body == self.contents()[k].body,
            r.shared() == self.shared(),
            r.spec_partial() == self.spec_partial(),
    {
        let mut items: Vec<Item> = Vec::new();
        let mut k: usize = 0;
        while k < self.items.len()
            invariant
                k <= self.items@.len(),
                items@.len() == k,
                forall|m: int| 0 <= m < k ==> (#[trigger] items@[m]).route == self.items@[m].route
                    && items@[m].spec_stale() == self.items@[m].spec_stale()
                    && items@[m].owner() == self.items@[m].owner()
                    && items@[m].body == self.items@[m].body,
            decreases self.items@.len() - k,
        {
            items.push(self.items[k].clone());
            k += 1;
        }
        Bind { items, data: self.data.clone(), partial: self.partial }
    }
}

} // verus!
