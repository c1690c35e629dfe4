//! Rules: named units of work, with what they depend on.

use crate::pattern::PathPattern;
use std::sync::Arc;
use vstd::prelude::*;

verus! {

/// How a rule gets its items.
pub enum Kind {
    /// The handler creates every item.
    Creating,
    /// One item is read for each input path that matches.
    Matching(PathPattern),
}

/// A named handler, with the names of the rules it depends on.
pub struct Rule<H> {
    name: String,
    kind: Arc<Kind>,
    handler: Arc<H>,
    dependencies: Vec<String>,
}

/// Whether `names` holds `name`.
pub open spec fn names_hold(names: Seq<String>, name: Seq<char>) -> bool {
    exists|k: int| 0 <= k < names.len() && (#[trigger] names[k])@ == name
}

/// No two of `names` are equal.
pub open spec fn distinct_names(names: Seq<String>) -> bool {
    forall|p: int, q: int| 0 <= p < names.len() && 0 <= q < names.len() && p != q ==> (#[trigger] names[p])@ != (#[trigger] names[q])@
}

/// Whether `names` holds `name`.
pub fn holds_name(names: &Vec<String>, name: &String) -> (r: bool)
    ensures
        r == names_hold(names@, name@),
{
    let mut k: usize = 0;
    while k < names.len()
        invariant
            k <= names@.len(),
            forall|m: int| 0 <= m < k ==> names@[m]@ != name@,
        decreases names@.len() - k,
    {
        if names[k] == *name {
            return true;
        }
        k += 1;
    }
    false
}

impl<H> Rule<H> {
    pub closed spec fn spec_name(&self) -> Seq<char> {
        self.name@
    }

    pub closed spec fn spec_kind(&self) -> Arc<Kind> {
        self.kind
    }

    pub closed spec fn spec_handler(&self) -> Arc<H> {
        self.handler
    }

    pub closed spec fn spec_dependencies(&self) -> Seq<String> {
        self.dependencies@
    }

    /// A rule with no dependencies.
    pub fn new(name: String, kind: Kind, handler: H) -> (r: Rule<H>)
        ensures
            r.spec_name() == name@,
            *r.spec_kind() == kind,
            *r.spec_handler() == handler,
            r.spec_dependencies().len() == 0,
    {
        Rule { name, kind: Arc::new(kind), handler: Arc::new(handler), dependencies: Vec::new() }
    }

    /// The rule, depending on `dependency` too; naming one twice changes nothing.
    pub fn depends_on(self, dependency: String) -> (r: Rule<H>)
        requires
            distinct_names(self.spec_dependencies()),
        ensures
            r.spec_name() == self.spec_name(),
            r.spec_kind() == self.spec_kind(),
            r.spec_handler() == self.spec_handler(),
            distinct_names(r.spec_dependencies()),
            forall|x: Seq<char>| names_hold(r.spec_dependencies(), x) <==> names_hold(self.spec_dependencies(), x) || x == dependency@,
    {
        let mut dependencies = self.dependencies;
        if !holds_name(&dependencies, &dependency) {
            let ghost before = dependencies@;
            dependencies.push(dependency);
            proof {
                assert forall|x: Seq<char>| names_hold(dependencies@, x) <==> names_hold(before, x) || x == dependency@ by {
                    if names_hold(before, x) {
                        let k = choose|k: int| 0 <= k < before.len() && (#[trigger] before[k])@ == x;
                        assert(dependencies@[k] == before[k]);
                    }
                    if x == dependency@ {
                        assert(dependencies@[before.len() as int] == dependency);
                    }
                    if names_hold(dependencies@, x) {
                        let k = choose|k: int| 0 <= k < dependencies@.len() && (#[trigger] dependencies@[k])@ == x;
                        if k < before.len() {
                            assert(before[k] == dependencies@[k]);
                        }
                    }
                }
                assert forall|p: int, q: int| 0 <= p < dependencies@.len() && 0 <= q < dependencies@.len() && p != q implies (#[trigger] dependencies@[p])@ != (#[trigger] dependencies@[q])@ by {
                    if p < before.len() && q < before.len() {
                        assert(dependencies@[p] == before[p] && dependencies@[q] == before[q]);
                    } else if p < before.len() {
                        assert(dependencies@[p] == before[p]);
                    } else if q < before.len() {
                        assert(dependencies@[q] == before[q]);
                    }
                }
            }
        }
        Rule { name: self.name, kind: self.kind, handler: self.handler, dependencies }
    }

    /// The rule's name.
    pub fn name(&self) -> (r: &String)
        ensures
            r@ == self.spec_name(),
    {
        &self.name
    }

    /// How the rule gets its items.
    pub fn kind(&self) -> (r: &Arc<Kind>)
        ensures
            *r == self.spec_kind(),
    {
        &self.kind
    }

    /// The rule's handler.
    pub fn handler(&self) -> (r: &Arc<H>)
        ensures
            *r == self.spec_handler(),
    {
        &self.handler
    }

    /// The names of the rules this one depends on.
    pub fn dependencies(&self) -> (r: &Vec<String>)
        ensures
            r@ == self.spec_dependencies(),
    {
        &self.dependencies
    }
}

} // verus!
