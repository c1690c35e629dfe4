//! Compilation units: an item, where it reads from and writes to, and its
//! attributes.

use crate::binding::Data;
use std::sync::Arc;
use vstd::prelude::*;

verus! {

/// How an item relates to files: it reads one, writes one, or both.
pub enum Route {
    Read(String),
    Write(String),
    ReadWrite(String, String),
}

impl Route {
    /// The path that routing starts from: the path read, or else the path
    /// written.
    pub open spec fn base(self) -> Seq<char> {
        match self {
            Route::Read(p) => p@,
            Route::Write(p) => p@,
            Route::ReadWrite(p, _) => p@,
        }
    }

    /// The path read, if any.
    pub open spec fn source(self) -> Option<Seq<char>> {
        match self {
            Route::Read(p) => Some(p@),
            Route::Write(_) => None,
            Route::ReadWrite(p, _) => Some(p@),
        }
    }

    /// The path written, if any.
    pub open spec fn target(self) -> Option<Seq<char>> {
        match self {
            Route::Read(_) => None,
            Route::Write(p) => Some(p@),
            Route::ReadWrite(_, p) => Some(p@),
        }
    }

    /// The path read, if any.
    pub fn reading(&self) -> (r: Option<&String>)
        ensures
            r is Some <==> self.source() is Some,
            r matches Some(p) ==> self.source() == Some(p@),
    {
        match self {
            Route::Read(p) => Some(p),
            Route::Write(_) => None,
            Route::ReadWrite(p, _) => Some(p),
        }
    }

    /// The path written, if any.
    pub fn writing(&self) -> (r: Option<&String>)
        ensures
            r is Some <==> self.target() is Some,
            r matches Some(p) ==> self.target() == Some(p@),
    {
        match self {
            Route::Read(_) => None,
            Route::Write(p) => Some(p),
            Route::ReadWrite(_, p) => Some(p),
        }
    }

    /// Routes with `router`: a read becomes a read and a write to the
    /// routed path; a write, or the write of a read and write, is replaced
    /// by the routed path. The path read stays as it was.
    pub fn route_to<F: Fn(&String) -> String>(&self, router: F) -> (r: Route)
        requires
            forall|p: &String| #[trigger] router.requires((p,)),
        ensures
            r.source() == self.source(),
            r is Write <==> self is Write,
            self matches Route::Write(to) ==> r matches Route::Write(t) && router.ensures((&to,), t),
            self matches Route::Read(from) ==> r matches Route::ReadWrite(_, t) && router.ensures((&from,), t),
            self matches Route::ReadWrite(from, _) ==> r matches Route::ReadWrite(_, t) && router.ensures((&from,), t),
    {
        match self {
            Route::Read(from) => Route::ReadWrite(from.clone(), router(from)),
            Route::Write(to) => Route::Write(router(to)),
            Route::ReadWrite(from, _) => Route::ReadWrite(from.clone(), router(from)),
        }
    }
}

impl Clone for Route {
    fn clone(&self) -> (r: Self)
        ensures
            r == *self,
    {
        match self {
            Route::Read(p) => Route::Read(p.clone()),
            Route::Write(p) => Route::Write(p.clone()),
            Route::ReadWrite(a, b) => Route::ReadWrite(a.clone(), b.clone()),
        }
    }
}

/// The attributes of an item, one value per type, from the `anymap` crate.
///
/// Handlers store and find values through `map`.
#[verifier::external_body]
pub struct Attributes {
    pub map: anymap::Map<dyn anymap::any::CloneAny + Send + Sync>,
}

impl Attributes {
    /// Relies on `anymap::Map::new`: a map without values.
    #[verifier::external_body]
    pub(crate) fn new() -> Attributes {
        Attributes { map: anymap::Map::new() }
    }

    /// Relies on `anymap::Map::insert`: stores `value` as the value of its type.
    #[verifier::external_body]
    pub(crate) fn insert<T: Clone + Send + Sync + 'static>(&mut self, value: T) {
        self.map.insert(value);
    }
}

impl Clone for Attributes {
    /// Relies on the `Clone` of `anymap::Map`: each value is cloned.
    #[verifier::external_body]
    fn clone(&self) -> Self {
        Attributes { map: self.map.clone() }
    }
}

/// One compilation unit.
pub struct Item {
    /// The shared data of the bind the item belongs to.
    pub bind: Arc<Data>,
    /// Where the item reads from and writes to.
    pub route: Route,
    /// The text read, or to be written.
    pub body: String,
    /// Values that handlers attach to the item.
    pub data: Attributes,
    /// Whether the item was marked for reprocessing.
    pub stale: bool,
}

impl Item {
    /// The shared data of the bind the item belongs to.
    pub open spec fn owner(&self) -> Arc<Data> {
        self.bind
    }

    /// Whether the item was marked for reprocessing.
    pub open spec fn spec_stale(&self) -> bool {
        self.stale
    }

    /// A fresh item with an empty body and no attributes.
    pub fn new(route: Route, bind: Arc<Data>) -> (r: Item)
        ensures
            r.route == route,
            r.body@ == Seq::<char>::empty(),
            r.owner() == bind,
            !r.spec_stale(),
    {
        Item { bind, route, body: String::new(), data: Attributes::new(), stale: false }
    }

    /// An item that reads `path`.
    pub fn from(path: String, bind: Arc<Data>) -> (r: Item)
        ensures
            r.route == Route::Read(path),
            r.body@ == Seq::<char>::empty(),
            r.owner() == bind,
            !r.spec_stale(),
    {
        Item::new(Route::Read(path), bind)
    }

    /// An item that writes `path`.
    pub fn to(path: String, bind: Arc<Data>) -> (r: Item)
        ensures
            r.route == Route::Write(path),
            r.body@ == Seq::<char>::empty(),
            r.owner() == bind,
            !r.spec_stale(),
    {
        Item::new(Route::Write(path), bind)
    }

    /// Re-routes the item with `router` (see [`Route::route_to`]).
    pub fn route<F: Fn(&String) -> String>(&mut self, router: F)
        requires
            forall|p: &String| #[trigger] router.requires((p,)),
        ensures
            final(self).route.source() == old(self).route.source(),
            final(self).route is Write <==> old(self).route is Write,
            old(self).route matches Route::Write(to) ==> final(self).route matches Route::Write(t) && router.ensures((&to,), t),
            old(self).route matches Route::Read(from) ==> final(self).route matches Route::ReadWrite(_, t) && router.ensures((&from,), t),
            old(self).route matches Route::ReadWrite(from, _) ==> final(self).route matches Route::ReadWrite(_, t) && router.ensures((&from,), t),
            final(self).body == old(self).body,
            final(self).data == old(self).data,
            final(self).owner() == old(self).owner(),
            final(self).spec_stale() == old(self).spec_stale(),
    {
        self.route = self.route.route_to(router);
    }

    /// The shared data of the bind the item belongs to.
    pub fn bind(&self) -> (r: &Data)
        ensures
            *r == *self.owner(),
    {
        &self.bind
    }

    /// The path read, if any.
    pub fn reading(&self) -> (r: Option<&String>)
        ensures
            r is Some <==> self.route.source() is Some,
            r matches Some(p) ==> self.route.source() == Some(p@),
    {
        self.route.reading()
    }

    /// The path written, if any.
    pub fn writing(&self) -> (r: Option<&String>)
        ensures
            r is Some <==> self.route.target() is Some,
            r matches Some(p) ==> self.route.target() == Some(p@),
    {
        self.route.writing()
    }

    /// Whether the item was marked for reprocessing.
    pub fn is_stale(&self) -> (r: bool)
        ensures
            r == self.spec_stale(),
    {
        self.stale
    }

    /// The same item, belonging to `bind`.
    pub fn with_owner(self, bind: Arc<Data>) -> (r: Item)
        ensures
            r.owner() == bind,
            r.route == self.route,
            r.body == self.body,
            r.spec_stale() == self.spec_stale(),
    {
        Item { bind, ..self }
    }
}

/// Marks `item` for reprocessing, or clears the mark.
pub fn set_stale(item: &mut Item, stale: bool)
    ensures
        final(item).spec_stale() == stale,
        final(item).route == old(item).route,
        final(item).body == old(item).body,
        final(item).owner() == old(item).owner(),
{
    item.stale = stale;
}

impl Clone for Item {
    fn clone(&self) -> (r: Self)
        ensures
            r.owner() == self.owner(),
            r.route == self.route,
            r.body == self.body,
            r.spec_stale() == self.spec_stale(),
    {
        Item {
            bind: self.bind.clone(),
            route: self.route.clone(),
            body: self.body.clone(),
            data: self.data.clone(),
            stale: self.stale,
        }
    }
}

} // verus!
