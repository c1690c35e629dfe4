//! Dependency tracking: a directed graph over node ids and its
//! topological ordering.

use vstd::prelude::*;

verus! {

/// The mathematical content of a [`Graph`]: its nodes and its edges.
///
/// An edge `(a, b)` means that `b` depends on `a`, so `a` has to be
/// evaluated before `b`.
pub struct GraphView {
    pub nodes: Set<u64>,
    pub edges: Set<(u64, u64)>,
}

impl GraphView {
    /// The nodes that depend on `n`.
    pub open spec fn dependents(self, n: u64) -> Set<u64> {
        Set::new(|b: u64| self.edges.contains((n, b)))
    }

    /// The nodes that `n` depends on.
    pub open spec fn dependencies(self, n: u64) -> Set<u64> {
        Set::new(|a: u64| self.edges.contains((a, n)))
    }

    /// `p` is a non-empty walk along edges.
    pub open spec fn is_path(self, p: Seq<u64>) -> bool {
        &&& p.len() >= 1
        &&& forall|k: int| 0 <= k < p.len() - 1 ==> #[trigger] self.edges.contains((p[k], p[k + 1]))
    }

    /// `v` is reachable from one of `starts` (every start reaches itself).
    pub open spec fn reaches(self, starts: Set<u64>, v: u64) -> bool {
        exists|p: Seq<u64>| #[trigger] self.is_path(p) && starts.contains(p[0]) && p.last() == v
    }

    /// `c` is a closed walk: it follows edges and ends where it started.
    pub open spec fn is_cycle(self, c: Seq<u64>) -> bool {
        &&& c.len() >= 2
        &&& self.is_path(c)
        &&& c[0] == c.last()
    }

    /// Some cycle passes through a node reachable from `starts`.
    pub open spec fn has_cycle_from(self, starts: Set<u64>) -> bool {
        exists|c: Seq<u64>| #[trigger] self.is_cycle(c) && self.reaches(starts, c[0])
    }

    /// Some cycle exists anywhere in the graph.
    pub open spec fn has_cycle(self) -> bool {
        exists|c: Seq<u64>| #[trigger] self.is_cycle(c)
    }

    /// What a resolution from `starts` owes: either an order of exactly the
    /// nodes reachable from `starts`, each before its dependents, or a cycle
    /// among them; the order comes exactly when there is no such cycle.
    pub open spec fn resolves(self, starts: Set<u64>, r: Result<Vec<u64>, Vec<u64>>) -> bool {
        &&& r matches Ok(order) ==> self.is_topological(order@) && forall|v: u64|
            #[trigger] order@.contains(v) <==> self.reaches(starts, v)
        &&& r matches Err(c) ==> self.is_cycle(c@) && self.reaches(starts, c@[0])
        &&& r is Ok <==> !self.has_cycle_from(starts)
    }

    /// `order` lists distinct nodes, each before every node that depends on it.
    pub open spec fn is_topological(self, order: Seq<u64>) -> bool {
        &&& order.no_duplicates()
        &&& forall|p: int, q: int|
            0 <= p < order.len() && 0 <= q < order.len() && #[trigger] self.edges.contains(
                (order[p], order[q]),
            ) ==> p < q
    }
}

impl GraphView {
    /// Following one more edge keeps a node reachable.
    pub proof fn lemma_reach_step(self, starts: Set<u64>, a: u64, b: u64)
        requires
            self.reaches(starts, a),
            self.edges.contains((a, b)),
        ensures
            self.reaches(starts, b),
    {
        let p = choose|p: Seq<u64>| #[trigger] self.is_path(p) && starts.contains(p[0]) && p.last() == a;
        let q = p.push(b);
        assert forall|k: int| 0 <= k < q.len() - 1 implies #[trigger] self.edges.contains((q[k], q[k + 1])) by {
            if k < p.len() - 1 {
                assert(q[k] == p[k] && q[k + 1] == p[k + 1]);
                assert(self.edges.contains((p[k], p[k + 1])));
            } else {
                assert(q[k] == a);
            }
        }
        assert(self.is_path(q));
        assert(q[0] == p[0]);
    }

    /// Every start reaches itself.
    pub proof fn lemma_reach_start(self, starts: Set<u64>, a: u64)
        requires
            starts.contains(a),
        ensures
            self.reaches(starts, a),
    {
        let p = seq![a];
        assert(self.is_path(p));
    }

    proof fn lemma_closed_prefix(self, starts: Set<u64>, b: Set<u64>, p: Seq<u64>, k: int)
        requires
            forall|a: u64| starts.contains(a) ==> b.contains(a),
            forall|a: u64, c: u64| b.contains(a) && #[trigger] self.edges.contains((a, c)) ==> b.contains(c),
            self.is_path(p),
            starts.contains(p[0]),
            0 <= k < p.len(),
        ensures
            b.contains(p[k]),
        decreases k,
    {
        if k > 0 {
            self.lemma_closed_prefix(starts, b, p, k - 1);
            let j = k - 1;
            assert(self.edges.contains((p[j], p[j + 1])));
        }
    }

    /// A set that holds the starts and is closed under edges holds every
    /// node reachable from the starts.
    pub proof fn lemma_closed_holds_reachable(self, starts: Set<u64>, b: Set<u64>, v: u64)
        requires
            forall|a: u64| starts.contains(a) ==> b.contains(a),
            forall|a: u64, c: u64| b.contains(a) && #[trigger] self.edges.contains((a, c)) ==> b.contains(c),
            self.reaches(starts, v),
        ensures
            b.contains(v),
    {
        let p = choose|p: Seq<u64>| #[trigger] self.is_path(p) && starts.contains(p[0]) && p.last() == v;
        self.lemma_closed_prefix(starts, b, p, p.len() - 1);
    }

    proof fn lemma_order_increases(self, order: Seq<u64>, c: Seq<u64>, k: int)
        requires
            self.is_topological(order),
            self.is_path(c),
            forall|m: int| 0 <= m < c.len() ==> order.contains(#[trigger] c[m]),
            1 <= k < c.len(),
        ensures
            order.index_of(c[0]) < order.index_of(c[k]),
        decreases k,
    {
        assert(order.contains(c[k - 1]));
        assert(order.contains(c[k]));
        let p = order.index_of(c[k - 1]);
        let q = order.index_of(c[k]);
        let j = k - 1;
        assert(self.edges.contains((c[j], c[j + 1])));
        assert(self.edges.contains((order[p], order[q])));
        if k > 1 {
            self.lemma_order_increases(order, c, k - 1);
        }
    }

    /// A topological order of everything reachable from `starts` rules out
    /// a cycle reachable from `starts`.
    pub proof fn lemma_ordered_has_no_cycle(self, starts: Set<u64>, order: Seq<u64>)
        requires
            self.is_topological(order),
            forall|v: u64| order.contains(v) <==> self.reaches(starts, v),
        ensures
            !self.has_cycle_from(starts),
    {
        if self.has_cycle_from(starts) {
            let c = choose|c: Seq<u64>| #[trigger] self.is_cycle(c) && self.reaches(starts, c[0]);
            assert forall|m: int| 0 <= m < c.len() implies order.contains(#[trigger] c[m]) by {
                self.lemma_path_reach(starts, c, m);
            }
            self.lemma_order_increases(order, c, c.len() - 1);
        }
    }

    proof fn lemma_path_reach(self, starts: Set<u64>, c: Seq<u64>, m: int)
        requires
            self.is_path(c),
            self.reaches(starts, c[0]),
            0 <= m < c.len(),
        ensures
            self.reaches(starts, c[m]),
        decreases m,
    {
        if m > 0 {
            self.lemma_path_reach(starts, c, m - 1);
            let j = m - 1;
            assert(self.edges.contains((c[j], c[j + 1])));
            self.lemma_reach_step(starts, c[m - 1], c[m]);
        }
    }
}

/// The count of a node's dependencies is the length of any list of them
/// without repeats: [`Graph::dependencies_of`] returns such a list, and
/// [`Graph::dependency_count`] returns the size of the set it lists.
pub proof fn lemma_dependency_count(g: GraphView, node: u64, list: Seq<u64>)
    requires
        list.no_duplicates(),
        list.to_set() == g.dependencies(node),
    ensures
        list.len() == g.dependencies(node).len(),
{
    list.unique_seq_to_set();
}

/// A dependency graph.
///
/// Nodes are kept in insertion order; the edges are kept twice, as the
/// dependents and as the dependencies of each node, by position.
pub struct Graph {
    nodes: Vec<u64>,
    dependents: Vec<Vec<usize>>,
    dependencies: Vec<Vec<usize>>,
}

/// Whether `v` holds `x`.
pub(crate) fn holds(v: &Vec<usize>, x: usize) -> (r: bool)
    ensures
        r == v@.contains(x),
{
    let mut k: usize = 0;
    while k < v.len()
        invariant
            k <= v@.len(),
            forall|m: int| 0 <= m < k ==> v@[m] != x,
        decreases v@.len() - k,
    {
        if v[k] == x {
            return true;
        }
        k += 1;
    }
    false
}

proof fn lemma_push_contains(s: Seq<usize>, x: usize, y: usize)
    ensures
        s.push(x).contains(y) <==> s.contains(y) || y == x,
{
    if s.contains(y) {
        let k = choose|k: int| 0 <= k < s.len() && s[k] == y;
        assert(s.push(x)[k] == y);
    }
    if y == x {
        assert(s.push(x)[s.len() as int] == x);
    }
    if s.push(x).contains(y) {
        let k = choose|k: int| 0 <= k < s.len() + 1 && s.push(x)[k] == y;
        if k < s.len() {
            assert(s[k] == y);
        }
    }
}

impl Graph {
    /// Position of a node in `nodes`.
    pub closed spec fn index(&self, a: u64) -> int {
        choose|i: int| 0 <= i < self.nodes@.len() && self.nodes@[i] == a
    }

    /// An edge between positions.
    pub closed spec fn iedge(&self, i: int, j: int) -> bool {
        &&& 0 <= i < self.nodes@.len()
        &&& 0 <= j < self.nodes@.len()
        &&& self.dependents@[i]@.contains(j as usize)
    }

    /// Internal consistency of the two adjacency lists.
    pub closed spec fn wf(&self) -> bool {
        let n = self.nodes@.len();
        &&& n <= usize::MAX
        &&& self.dependents@.len() == n
        &&& self.dependencies@.len() == n
        &&& self.nodes@.no_duplicates()
        &&& forall|i: int| 0 <= i < n ==> (#[trigger] self.dependents@[i])@.no_duplicates()
        &&& forall|i: int| 0 <= i < n ==> (#[trigger] self.dependencies@[i])@.no_duplicates()
        &&& forall|i: int, k: int|
            0 <= i < n && 0 <= k < self.dependents@[i]@.len() ==> #[trigger] self.dependents@[i]@[k]
                < n
        &&& forall|i: int, k: int|
            0 <= i < n && 0 <= k < self.dependencies@[i]@.len()
                ==> #[trigger] self.dependencies@[i]@[k] < n
        &&& forall|i: int, j: int|
            #![trigger self.dependents@[i]@.contains(j as usize)]
            #![trigger self.dependencies@[j]@.contains(i as usize)]
            0 <= i < n && 0 <= j < n ==> (self.dependents@[i]@.contains(j as usize)
                <==> self.dependencies@[j]@.contains(i as usize))
    }

    pub closed spec fn view(&self) -> GraphView {
        GraphView {
            nodes: self.nodes@.to_set(),
            edges: Set::new(
                |e: (u64, u64)|
                    self.nodes@.contains(e.0) && self.nodes@.contains(e.1) && self.iedge(
                        self.index(e.0),
                        self.index(e.1),
                    ),
            ),
        }
    }

    proof fn lemma_index(&self, i: int)
        requires
            self.wf(),
            0 <= i < self.nodes@.len(),
        ensures
            self.index(self.nodes@[i]) == i,
    {
        let a = self.nodes@[i];
        assert(0 <= i < self.nodes@.len() && self.nodes@[i] == a);
        let j = self.index(a);
        assert(self.nodes@[j] == a);
    }

    proof fn lemma_edge(&self, i: int, j: int)
        requires
            self.wf(),
            0 <= i < self.nodes@.len(),
            0 <= j < self.nodes@.len(),
        ensures
            self.view().edges.contains((self.nodes@[i], self.nodes@[j])) == self.iedge(i, j),
    {
        self.lemma_index(i);
        self.lemma_index(j);
    }

    proof fn lemma_edge_ends(&self, a: u64, b: u64)
        requires
            self.wf(),
            self.view().edges.contains((a, b)),
        ensures
            self.nodes@.contains(a),
            self.nodes@.contains(b),
            self.nodes@[self.index(a)] == a,
            self.nodes@[self.index(b)] == b,
            self.iedge(self.index(a), self.index(b)),
    {
        let ia = choose|i: int| 0 <= i < self.nodes@.len() && self.nodes@[i] == a;
        let ib = choose|i: int| 0 <= i < self.nodes@.len() && self.nodes@[i] == b;
        self.lemma_index(ia);
        self.lemma_index(ib);
    }

    /// An empty graph.
    pub fn new() -> (g: Graph)
        ensures
            g.wf(),
            g.view().nodes == Set::<u64>::empty(),
            g.view().edges == Set::<(u64, u64)>::empty(),
    {
        let g = Graph { nodes: Vec::new(), dependents: Vec::new(), dependencies: Vec::new() };
        assert(g.view().nodes =~= Set::<u64>::empty());
        assert(g.view().edges =~= Set::<(u64, u64)>::empty());
        g
    }

    /// The position of `a`, if it is a node.
    fn find(&self, a: u64) -> (r: Option<usize>)
        requires
            self.wf(),
        ensures
            r is None ==> !self.nodes@.contains(a),
            r matches Some(i) ==> i < self.nodes@.len() && self.nodes@[i as int] == a && self.index(a) == i,
    {
        let mut k: usize = 0;
        while k < self.nodes.len()
            invariant
                self.wf(),
                k <= self.nodes@.len(),
                forall|m: int| 0 <= m < k ==> self.nodes@[m] != a,
            decreases self.nodes@.len() - k,
        {
            if self.nodes[k] == a {
                proof {
                    self.lemma_index(k as int);
                }
                return Some(k);
            }
            k += 1;
        }
        None
    }

    /// Adds `a` as a node and returns its position; nothing changes if it is one.
    fn ensure_node(&mut self, a: u64) -> (r: usize)
        requires
            old(self).wf(),
        ensures
            final(self).wf(),
            r < final(self).nodes@.len(),
            final(self).nodes@[r as int] == a,
            final(self).view().nodes == old(self).view().nodes.insert(a),
            final(self).view().edges == old(self).view().edges,
            forall|i: int, j: int| #[trigger] final(self).iedge(i, j) <==> old(self).iedge(i, j),
            forall|i: int|
                0 <= i < old(self).nodes@.len() ==> #[trigger] final(self).nodes@[i] == old(self).nodes@[i],
            old(self).nodes@.len() <= final(self).nodes@.len(),
            final(self).dependents@.len() == final(self).nodes@.len(),
            forall|i: int|
                0 <= i < old(self).nodes@.len() ==> #[trigger] final(self).dependents@[i] == old(self).dependents@[i]
                    && final(self).dependencies@[i] == old(self).dependencies@[i],
            forall|i: int|
                old(self).nodes@.len() <= i < final(self).nodes@.len() ==> (#[trigger] final(self).dependents@[i])@.len() == 0
                    && final(self).dependencies@[i]@.len() == 0,
    {
        match self.find(a) {
            Some(i) => {
                proof {
                    assert(self.nodes@.contains(a));
                    assert(self.view().nodes =~= self.view().nodes.insert(a));
                }
                i
            },
            None => {
                let ghost g0 = *self;
                let n = self.nodes.len();
                self.nodes.push(a);
                self.dependents.push(Vec::new());
                self.dependencies.push(Vec::new());
                proof {
                    assert(self.nodes.len() == self.nodes@.len());
                    assert(self.nodes@ == g0.nodes@.push(a));
                    assert forall|i: int, j: int| #[trigger] self.iedge(i, j) <==> g0.iedge(i, j) by {
                        if 0 <= i < self.nodes@.len() && i == n {
                            assert(self.dependents@[i]@ =~= Seq::<usize>::empty());
                        }
                    }
                    assert(self.wf());
                    assert forall|x: u64| self.nodes@.contains(x) <==> g0.nodes@.contains(x) || x == a by {
                        assert(self.nodes@[n as int] == a);
                        if self.nodes@.contains(x) && x != a {
                            let k = choose|k: int| 0 <= k < self.nodes@.len() && self.nodes@[k] == x;
                            assert(g0.nodes@[k] == x);
                        }
                        if g0.nodes@.contains(x) {
                            let k = choose|k: int| 0 <= k < g0.nodes@.len() && g0.nodes@[k] == x;
                            assert(self.nodes@[k] == x);
                        }
                    }
                    assert(self.view().nodes =~= g0.view().nodes.insert(a));
                    assert forall|e: (u64, u64)| #[trigger] self.view().edges.contains(e) <==> g0.view().edges.contains(e) by {
                        if self.view().edges.contains(e) {
                            self.lemma_edge_ends(e.0, e.1);
                            let i = self.index(e.0);
                            let j = self.index(e.1);
                            assert(g0.iedge(i, j));
                            g0.lemma_edge(i, j);
                        }
                        if g0.view().edges.contains(e) {
                            g0.lemma_edge_ends(e.0, e.1);
                            let i = g0.index(e.0);
                            let j = g0.index(e.1);
                            self.lemma_edge(i, j);
                        }
                    }
                    assert(self.view().edges =~= g0.view().edges);
                    self.lemma_index(n as int);
                }
                n
            },
        }
    }

    /// Adds a node; adding one that is already there changes nothing.
    pub fn add_node(&mut self, node: u64)
        requires
            old(self).wf(),
        ensures
            final(self).wf(),
            final(self).view().nodes == old(self).view().nodes.insert(node),
            final(self).view().edges == old(self).view().edges,
    {
        self.ensure_node(node);
    }

    /// The node ids at the given positions.
    fn ids_of(&self, idx: &Vec<usize>) -> (r: Vec<u64>)
        requires
            self.wf(),
            forall|k: int| 0 <= k < idx@.len() ==> #[trigger] idx@[k] < self.nodes@.len(),
        ensures
            r@.len() == idx@.len(),
            forall|k: int| 0 <= k < idx@.len() ==> #[trigger] r@[k] == self.nodes@[idx@[k] as int],
            idx@.no_duplicates() ==> r@.no_duplicates(),
    {
        let mut r: Vec<u64> = Vec::new();
        let mut k: usize = 0;
        while k < idx.len()
            invariant
                self.wf(),
                forall|m: int| 0 <= m < idx@.len() ==> #[trigger] idx@[m] < self.nodes@.len(),
                k <= idx@.len(),
                r@.len() == k,
                forall|m: int| 0 <= m < k ==> #[trigger] r@[m] == self.nodes@[idx@[m] as int],
            decreases idx@.len() - k,
        {
            r.push(self.nodes[idx[k]]);
            k += 1;
        }
        proof {
            if idx@.no_duplicates() {
                assert forall|p: int, q: int| 0 <= p < r@.len() && 0 <= q < r@.len() && p != q implies r@[p] != r@[q] by {
                    assert(idx@[p] != idx@[q]);
                }
            }
        }
        r
    }

    /// The node ids in insertion order.
    pub fn nodes(&self) -> (r: Vec<u64>)
        requires
            self.wf(),
        ensures
            r@.no_duplicates(),
            r@.to_set() == self.view().nodes,
    {
        let r = self.nodes.clone();
        assert(r@ == self.nodes@);
        r
    }

    /// The nodes that depend on `node`, or `None` where it is not a node.
    pub fn dependents_of(&self, node: u64) -> (r: Option<Vec<u64>>)
        requires
            self.wf(),
        ensures
            r is None <==> !self.view().nodes.contains(node),
            r matches Some(v) ==> v@.no_duplicates() && v@.to_set() == self.view().dependents(node),
    {
        match self.find(node) {
            None => None,
            Some(i) => {
                let v = self.ids_of(&self.dependents[i]);
                proof {
                    assert forall|b: u64| v@.contains(b) <==> self.view().dependents(node).contains(b) by {
                        if v@.contains(b) {
                            let k = choose|k: int| 0 <= k < v@.len() && v@[k] == b;
                            let jj = self.dependents@[i as int]@[k] as int;
                            assert(self.dependents@[i as int]@.contains(jj as usize));
                            self.lemma_edge(i as int, jj);
                        }
                        if self.view().dependents(node).contains(b) {
                            self.lemma_edge_ends(node, b);
                            let jj = self.index(b);
                            let k = choose|k: int| 0 <= k < self.dependents@[i as int]@.len() && self.dependents@[i as int]@[k] == jj as usize;
                            assert(v@[k] == b);
                        }
                    }
                    assert(v@.to_set() =~= self.view().dependents(node));
                }
                Some(v)
            },
        }
    }

    /// A node has finitely many dependencies.
    pub proof fn lemma_dependencies_finite(&self, node: u64)
        requires
            self.wf(),
        ensures
            self.view().dependencies(node).finite(),
    {
        let v = self.view();
        if self.nodes@.contains(node) {
            let i = self.index(node);
            assert(self.nodes@[i] == node);
            let ds = self.dependencies@[i]@;
            let ids = ds.map_values(|k: usize| self.nodes@[k as int]);
            assert forall|a: u64| v.dependencies(node).contains(a) <==> #[trigger] ids.to_set().contains(a) by {
                if v.dependencies(node).contains(a) {
                    self.lemma_edge_ends(a, node);
                    let ja = self.index(a);
                    assert(ds.contains(ja as usize));
                    let k = choose|k: int| 0 <= k < ds.len() && ds[k] == ja as usize;
                    assert(ids[k] == a);
                    assert(ids.contains(a));
                }
                if ids.to_set().contains(a) {
                    let k = choose|k: int| 0 <= k < ids.len() && ids[k] == a;
                    let jj = ds[k] as int;
                    assert(ds.contains(jj as usize));
                    assert(self.dependents@[jj]@.contains(i as usize));
                    self.lemma_edge(jj, i);
                }
            }
            assert(v.dependencies(node) =~= ids.to_set());
            vstd::seq_lib::seq_to_set_is_finite(ids);
        } else {
            assert forall|a: u64| !v.dependencies(node).contains(a) by {
                if v.dependencies(node).contains(a) {
                    self.lemma_edge_ends(a, node);
                }
            }
            assert(v.dependencies(node) =~= Set::<u64>::empty());
        }
    }

    /// The nodes that depend on `node`, or `None` where there are none.
    pub fn neighbors_of(&self, node: u64) -> (r: Option<Vec<u64>>)
        requires
            self.wf(),
        ensures
            r is None <==> self.view().dependents(node).is_empty(),
            r matches Some(v) ==> v@.no_duplicates() && v@.to_set() == self.view().dependents(node),
    {
        match self.dependents_of(node) {
            None => {
                proof {
                    assert forall|b: u64| !self.view().dependents(node).contains(b) by {
                        if self.view().dependents(node).contains(b) {
                            self.lemma_edge_ends(node, b);
                        }
                    }
                }
                None
            },
            Some(v) => {
                if v.len() == 0 {
                    proof {
                        assert forall|b: u64| !self.view().dependents(node).contains(b) by {
                            if self.view().dependents(node).contains(b) {
                                assert(v@.to_set().contains(b));
                            }
                        }
                    }
                    None
                } else {
                    proof {
                        assert(v@.to_set().contains(v@[0]));
                    }
                    Some(v)
                }
            },
        }
    }

    /// The nodes that `node` depends on, or `None` where it is not a node.
    pub fn dependencies_of(&self, node: u64) -> (r: Option<Vec<u64>>)
        requires
            self.wf(),
        ensures
            r is None <==> !self.view().nodes.contains(node),
            r matches Some(v) ==> v@.no_duplicates() && v@.to_set() == self.view().dependencies(node),
    {
        match self.find(node) {
            None => None,
            Some(i) => {
                let v = self.ids_of(&self.dependencies[i]);
                proof {
                    assert forall|a: u64| v@.contains(a) <==> self.view().dependencies(node).contains(a) by {
                        if v@.contains(a) {
                            let k = choose|k: int| 0 <= k < v@.len() && v@[k] == a;
                            let jj = self.dependencies@[i as int]@[k] as int;
                            assert(self.dependencies@[i as int]@.contains(jj as usize));
                            assert(self.dependents@[jj]@.contains(i));
                            self.lemma_edge(jj, i as int);
                        }
                        if self.view().dependencies(node).contains(a) {
                            self.lemma_edge_ends(a, node);
                            let jj = self.index(a);
                            assert(self.dependencies@[i as int]@.contains(jj as usize));
                            let k = choose|k: int| 0 <= k < self.dependencies@[i as int]@.len() && self.dependencies@[i as int]@[k] == jj as usize;
                            assert(v@[k] == a);
                        }
                    }
                    assert(v@.to_set() =~= self.view().dependencies(node));
                }
                Some(v)
            },
        }
    }

    /// How many nodes `node` depends on.
    pub fn dependency_count(&self, node: u64) -> (r: usize)
        requires
            self.wf(),
        ensures
            r == self.view().dependencies(node).len(),
    {
        match self.dependencies_of(node) {
            None => {
                proof {
                    assert forall|a: u64| !self.view().dependencies(node).contains(a) by {
                        if self.view().dependencies(node).contains(a) {
                            self.lemma_edge_ends(a, node);
                        }
                    }
                    assert(self.view().dependencies(node) =~= Set::<u64>::empty());
                }
                0
            },
            Some(v) => {
                proof {
                    v@.unique_seq_to_set();
                }
                v.len()
            },
        }
    }

    /// Records that `b` depends on `a`; a repeated edge collapses into one.
    pub fn add_edge(&mut self, a: u64, b: u64)
        requires
            old(self).wf(),
        ensures
            final(self).wf(),
            final(self).view().nodes == old(self).view().nodes.insert(a).insert(b),
            final(self).view().edges == old(self).view().edges.insert((a, b)),
            final(self).view().dependencies(b).len() == old(self).view().dependencies(b).len() + if old(self).view().edges.contains((a, b)) {
                0int
            } else {
                1int
            },
    {
        let ghost g0 = *self;
        let i = self.ensure_node(a);
        let ghost g1 = *self;
        let j = self.ensure_node(b);
        let ghost g2 = *self;
        assert(self.nodes@[i as int] == a);
        let present = holds(&self.dependents[i], j);
        if !present {
            self.dependents[i].push(j);
            self.dependencies[j].push(i);
        }
        proof {
            let n = self.nodes@.len();
            if !present {
                assert(self.dependents@ == g2.dependents@.update(i as int, self.dependents@[i as int]));
                assert(self.dependents@[i as int]@ == g2.dependents@[i as int]@.push(j));
                assert(self.dependencies@ == g2.dependencies@.update(j as int, self.dependencies@[j as int]));
                assert(self.dependencies@[j as int]@ == g2.dependencies@[j as int]@.push(i));
                lemma_push_contains(g2.dependencies@[j as int]@, i, i);
                assert forall|y: usize| #[trigger] self.dependents@[i as int]@.contains(y) <==> g2.dependents@[i as int]@.contains(y) || y == j by {
                    lemma_push_contains(g2.dependents@[i as int]@, j, y);
                }
                assert forall|y: usize| #[trigger] self.dependencies@[j as int]@.contains(y) <==> g2.dependencies@[j as int]@.contains(y) || y == i by {
                    lemma_push_contains(g2.dependencies@[j as int]@, i, y);
                }
            } else {
                assert(self.dependents@ == g2.dependents@);
                assert(self.dependencies@ == g2.dependencies@);
            }
            assert(self.nodes@ == g2.nodes@);
            assert(self.nodes.len() == n);
            assert(i < n && j < n);
            if !present {
                lemma_push_contains(g2.dependents@[i as int]@, j, j);
                assert(self.dependents@[i as int]@.contains(j));
            }
            assert(self.iedge(i as int, j as int));
            assert forall|x: int, y: int| #[trigger] self.iedge(x, y) <==> g2.iedge(x, y) || (x == i && y == j) by {
                if !present && 0 <= x < n && 0 <= y < n {
                    if x == i {
                        assert(self.dependents@[x]@ == g2.dependents@[x]@.push(j));
                        lemma_push_contains(g2.dependents@[x]@, j, y as usize);
                        assert(self.iedge(x, y) == (g2.iedge(x, y) || y == j));
                    } else {
                        assert(self.dependents@[x] == g2.dependents@[x]);
                        assert(self.iedge(x, y) == g2.iedge(x, y));
                    }
                } else if present {
                    assert(self.iedge(x, y) == g2.iedge(x, y));
                }
            }
            assert forall|x: int, y: int|
                #![trigger self.dependents@[x]@.contains(y as usize)]
                #![trigger self.dependencies@[y]@.contains(x as usize)]
                0 <= x < n && 0 <= y < n implies (self.dependents@[x]@.contains(y as usize)
                <==> self.dependencies@[y]@.contains(x as usize)) by {
                assert(g2.dependents@[x]@.contains(y as usize) <==> g2.dependencies@[y]@.contains(x as usize));
                if !present {
                    if x == i {
                        lemma_push_contains(g2.dependents@[x]@, j, y as usize);
                    } else {
                        assert(self.dependents@[x] == g2.dependents@[x]);
                    }
                    if y == j {
                        lemma_push_contains(g2.dependencies@[y]@, i, x as usize);
                    } else {
                        assert(self.dependencies@[y] == g2.dependencies@[y]);
                    }
                }
            }
            assert forall|x: int| 0 <= x < n implies (#[trigger] self.dependents@[x])@.no_duplicates() by {
                assert(g2.dependents@[x]@.no_duplicates());
            }
            assert forall|x: int| 0 <= x < n implies (#[trigger] self.dependencies@[x])@.no_duplicates() by {
                assert(g2.dependencies@[x]@.no_duplicates());
                if x == j && !g2.dependents@[i as int]@.contains(j) {
                    assert(!g2.dependencies@[x]@.contains(i));
                }
            }
            assert forall|x: int, k: int|
                0 <= x < n && 0 <= k < self.dependencies@[x]@.len() implies #[trigger] self.dependencies@[x]@[k] < n by {
                if k < g2.dependencies@[x]@.len() {
                    assert(self.dependencies@[x]@[k] == g2.dependencies@[x]@[k]);
                }
            }
            assert forall|x: int, k: int|
                0 <= x < n && 0 <= k < self.dependents@[x]@.len() implies #[trigger] self.dependents@[x]@[k] < n by {
                if k < g2.dependents@[x]@.len() {
                    assert(self.dependents@[x]@[k] == g2.dependents@[x]@[k]);
                }
            }
            assert(self.wf());
            assert(self.view().nodes =~= g2.view().nodes);
            assert forall|e: (u64, u64)|
                #[trigger] self.view().edges.contains(e) <==> g0.view().edges.contains(e) || e == (a, b) by {
                if self.view().edges.contains(e) {
                    self.lemma_edge_ends(e.0, e.1);
                    let x = self.index(e.0);
                    let y = self.index(e.1);
                    if !(x == i && y == j) {
                        g2.lemma_edge(x, y);
                    }
                }
                if g2.view().edges.contains(e) {
                    g2.lemma_edge_ends(e.0, e.1);
                    self.lemma_edge(g2.index(e.0), g2.index(e.1));
                }
                if e == (a, b) {
                    self.lemma_edge(i as int, j as int);
                }
            }
            assert(self.view().edges =~= g0.view().edges.insert((a, b)));
            g0.lemma_dependencies_finite(b);
            assert(self.view().dependencies(b) =~= g0.view().dependencies(b).insert(a));
            if g0.view().edges.contains((a, b)) {
                assert(g0.view().dependencies(b).contains(a));
                assert(g0.view().dependencies(b).insert(a) =~= g0.view().dependencies(b));
            }
        }
    }
}

/// How many entries of `c` are still unvisited (zero).
spec fn unvisited(c: Seq<u8>) -> nat
    decreases c.len(),
{
    if c.len() == 0 {
        0
    } else {
        unvisited(c.drop_last()) + if c.last() == 0 {
            1nat
        } else {
            0nat
        }
    }
}

proof fn lemma_unvisited_update(c: Seq<u8>, k: int, v: u8)
    requires
        0 <= k < c.len(),
        v != 0,
    ensures
        unvisited(c.update(k, v)) + (if c[k] == 0 {
            1int
        } else {
            0int
        }) == unvisited(c),
    decreases c.len(),
{
    let d = c.update(k, v);
    if k == c.len() - 1 {
        assert(d.drop_last() =~= c.drop_last());
    } else {
        assert(d.drop_last() =~= c.drop_last().update(k, v));
        lemma_unvisited_update(c.drop_last(), k, v);
    }
}

/// Depth-first search over a [`Graph`] with three colours: unvisited (0),
/// on the current path (1) and done (2).
///
/// Nodes are recorded as they finish, so that the reverse of that record
/// lists every node before the nodes that depend on it.
pub struct Topological {
    color: Vec<u8>,
    stack: Vec<usize>,
    finished: Vec<usize>,
    cycle: Option<Vec<usize>>,
}

impl Graph {
    /// `p` is a non-empty walk along edges between positions.
    pub closed spec fn ipath(&self, p: Seq<int>) -> bool {
        &&& p.len() >= 1
        &&& forall|k: int| 0 <= k < p.len() ==> 0 <= #[trigger] p[k] < self.nodes@.len()
        &&& forall|k: int| 0 <= k < p.len() - 1 ==> self.iedge(#[trigger] p[k], p[k + 1])
    }

    /// Position `x` is reachable from position `i`.
    pub closed spec fn ireaches(&self, i: int, x: int) -> bool {
        exists|p: Seq<int>| #[trigger] self.ipath(p) && p[0] == i && p.last() == x
    }

    /// Position `x` is reachable from position `i` through positions that
    /// are all unvisited (colour 0) in `c`, both ends included.
    pub closed spec fn white_reaches(&self, c: Seq<u8>, i: int, x: int) -> bool {
        exists|p: Seq<int>|
            #[trigger] self.ipath(p) && p[0] == i && p.last() == x && forall|k: int| 0 <= k < p.len() ==> c[#[trigger] p[k]] == 0
    }

    /// Some closed walk is reachable from position `i`.
    pub closed spec fn cycle_reachable(&self, i: int) -> bool {
        exists|c: Seq<usize>| #[trigger] self.icycle(c) && self.ireaches(i, c[0] as int)
    }

    proof fn lemma_white_start(&self, c: Seq<u8>, i: int)
        requires
            0 <= i < self.nodes@.len(),
            c[i] == 0,
        ensures
            self.white_reaches(c, i, i),
    {
        let p = seq![i];
        assert(self.ipath(p));
    }

    /// A white walk from `j` stays white under a colouring with fewer
    /// visited positions, and extends back over an edge from white `i`.
    proof fn lemma_white_prepend(&self, c1: Seq<u8>, c0: Seq<u8>, i: int, j: int, x: int)
        requires
            self.white_reaches(c1, j, x),
            forall|y: int| 0 <= y < self.nodes@.len() && #[trigger] c1[y] == 0 ==> c0[y] == 0,
            self.iedge(i, j),
            c0[i] == 0,
        ensures
            self.white_reaches(c0, i, x),
    {
        let p = choose|p: Seq<int>|
            #[trigger] self.ipath(p) && p[0] == j && p.last() == x && forall|k: int| 0 <= k < p.len() ==> c1[#[trigger] p[k]] == 0;
        let q = seq![i] + p;
        assert forall|k: int| 0 <= k < q.len() implies 0 <= #[trigger] q[k] < self.nodes@.len() by {
            if k > 0 {
                assert(q[k] == p[k - 1]);
            }
        }
        assert forall|k: int| 0 <= k < q.len() - 1 implies self.iedge(#[trigger] q[k], q[k + 1]) by {
            if k > 0 {
                assert(q[k] == p[k - 1] && q[k + 1] == p[k]);
            }
        }
        assert forall|k: int| 0 <= k < q.len() implies c0[#[trigger] q[k]] == 0 by {
            if k > 0 {
                assert(q[k] == p[k - 1]);
                assert(c1[p[k - 1]] == 0);
            }
        }
        assert(self.ipath(q));
        assert(q.last() == p.last());
    }

    /// What a search from `j` newly visits, after one from `i` reached `j`
    /// over an edge, was reachable from `i` through unvisited positions.
    proof fn lemma_child_white(&self, c0: Seq<u8>, c1: Seq<u8>, c2: Seq<u8>, i: int, j: int)
        requires
            forall|x: int| 0 <= x < self.nodes@.len() && c0[x] == 0 && #[trigger] c1[x] != 0 ==> self.white_reaches(c0, i, x),
            forall|x: int| 0 <= x < self.nodes@.len() && c1[x] == 0 && #[trigger] c2[x] != 0 ==> self.white_reaches(c1, j, x),
            forall|y: int| 0 <= y < self.nodes@.len() && #[trigger] c1[y] == 0 ==> c0[y] == 0,
            self.iedge(i, j),
            c0[i] == 0,
        ensures
            forall|x: int| 0 <= x < self.nodes@.len() && c0[x] == 0 && #[trigger] c2[x] != 0 ==> self.white_reaches(c0, i, x),
    {
        assert forall|x: int| 0 <= x < self.nodes@.len() && c0[x] == 0 && #[trigger] c2[x] != 0 implies self.white_reaches(c0, i, x) by {
            if c1[x] == 0 {
                self.lemma_white_prepend(c1, c0, i, j, x);
            } else {
                assert(c1[x] != 0);
            }
        }
    }

    /// Reachability extends back over an edge.
    proof fn lemma_reach_prepend(&self, i: int, j: int, x: int)
        requires
            self.ireaches(j, x),
            self.iedge(i, j),
        ensures
            self.ireaches(i, x),
    {
        let p = choose|p: Seq<int>| #[trigger] self.ipath(p) && p[0] == j && p.last() == x;
        let q = seq![i] + p;
        assert forall|k: int| 0 <= k < q.len() implies 0 <= #[trigger] q[k] < self.nodes@.len() by {
            if k > 0 {
                assert(q[k] == p[k - 1]);
            }
        }
        assert forall|k: int| 0 <= k < q.len() - 1 implies self.iedge(#[trigger] q[k], q[k + 1]) by {
            if k > 0 {
                assert(q[k] == p[k - 1] && q[k + 1] == p[k]);
            }
        }
        assert(self.ipath(q));
        assert(q.last() == p.last());
    }

    proof fn lemma_reach_edge(&self, i: int, j: int)
        requires
            self.iedge(i, j),
        ensures
            self.ireaches(i, j),
    {
        let p = seq![i, j];
        assert(self.ipath(p));
    }

    /// A closed walk between positions.
    spec fn icycle(&self, c: Seq<usize>) -> bool {
        &&& c.len() >= 2
        &&& c[0] == c.last()
        &&& forall|k: int| 0 <= k < c.len() ==> #[trigger] c[k] < self.nodes@.len()
        &&& forall|k: int| 0 <= k < c.len() - 1 ==> self.iedge(#[trigger] c[k] as int, c[k + 1] as int)
    }
}

impl Topological {
    /// The state of a search that has not started.
    pub closed spec fn fresh(&self, g: &Graph) -> bool {
        &&& self.color@.len() == g.nodes@.len()
        &&& forall|i: int| 0 <= i < self.color@.len() ==> #[trigger] self.color@[i] == 0
        &&& self.stack@.len() == 0
        &&& self.finished@.len() == 0
        &&& self.cycle is None
    }

    spec fn inv(&self, g: &Graph, starts: Set<u64>) -> bool {
        let n = g.nodes@.len();
        let c = self.color@;
        let st = self.stack@;
        let f = self.finished@;
        &&& c.len() == n
        &&& forall|i: int| 0 <= i < n ==> #[trigger] c[i] <= 2
        &&& forall|k: int| 0 <= k < st.len() ==> #[trigger] st[k] < n
        &&& forall|k: int| 0 <= k < f.len() ==> #[trigger] f[k] < n
        &&& forall|i: int| 0 <= i < n ==> (#[trigger] c[i] == 1 <==> st.contains(i as usize))
        &&& forall|i: int| 0 <= i < n ==> (#[trigger] c[i] == 2 <==> f.contains(i as usize))
        &&& f.no_duplicates()
        &&& forall|k: int| 0 <= k < st.len() - 1 ==> g.iedge(#[trigger] st[k] as int, st[k + 1] as int)
        &&& forall|i: int| 0 <= i < n && #[trigger] c[i] != 0 ==> g.view().reaches(starts, g.nodes@[i])
        &&& self.cycle is None ==> forall|p: int, j: int|
            0 <= p < f.len() && #[trigger] g.iedge(f[p] as int, j) ==> c[j] == 2
        &&& self.cycle is None ==> forall|p: int, q: int|
            0 <= p < f.len() && 0 <= q < f.len() && #[trigger] g.iedge(f[p] as int, f[q] as int) ==> q < p
        &&& self.cycle matches Some(cy) ==> g.icycle(cy@) && g.view().reaches(starts, g.nodes@[cy@[0] as int])
    }

    /// A search over `g` that has not started.
    pub fn new(g: &Graph) -> (t: Topological)
        requires
            g.wf(),
        ensures
            t.fresh(g),
    {
        let mut color: Vec<u8> = Vec::new();
        let mut k: usize = 0;
        while k < g.nodes.len()
            invariant
                k <= g.nodes@.len(),
                color@.len() == k,
                forall|i: int| 0 <= i < k ==> #[trigger] color@[i] == 0,
            decreases g.nodes@.len() - k,
        {
            color.push(0);
            k += 1;
        }
        Topological { color, stack: Vec::new(), finished: Vec::new(), cycle: None }
    }

    /// The cycle that an edge from the top of the path back to `j`, which
    /// is on the path, closes.
    fn close_cycle(g: &Graph, stack: &Vec<usize>, j: usize) -> (c: Vec<usize>)
        requires
            g.wf(),
            stack@.len() >= 1,
            stack@.contains(j),
            forall|k: int| 0 <= k < stack@.len() ==> #[trigger] stack@[k] < g.nodes@.len(),
            forall|k: int| 0 <= k < stack@.len() - 1 ==> g.iedge(#[trigger] stack@[k] as int, stack@[k + 1] as int),
            g.iedge(stack@.last() as int, j as int),
        ensures
            g.icycle(c@),
            c@[0] == j,
    {
        let ghost st = stack@;
        let ghost n = g.nodes@.len();
        let mut p: usize = 0;
        while p < stack.len() && stack[p] != j
            invariant
                st == stack@,
                st.contains(j),
                p <= st.len(),
                forall|m: int| 0 <= m < p ==> st[m] != j,
            decreases st.len() - p,
        {
            p += 1;
        }
        let mut c: Vec<usize> = Vec::new();
        let mut q: usize = p;
        while q < stack.len()
            invariant
                st == stack@,
                p < st.len(),
                p <= q <= st.len(),
                c@ == st.subrange(p as int, q as int),
            decreases st.len() - q,
        {
            c.push(stack[q]);
            q += 1;
        }
        c.push(j);
        proof {
            let cy = c@;
            assert(cy.len() == st.len() - p + 1);
            assert forall|m: int| 0 <= m < cy.len() - 1 implies g.iedge(#[trigger] cy[m] as int, cy[m + 1] as int) by {
                if m < cy.len() - 2 {
                    assert(cy[m] == st[p + m] && cy[m + 1] == st[p + m + 1]);
                    assert(g.iedge(st[p + m] as int, st[p + m + 1] as int));
                } else {
                    assert(cy[m] == st[st.len() - 1]);
                }
            }
            assert forall|m: int| 0 <= m < cy.len() implies #[trigger] cy[m] < n by {
                if m < cy.len() - 1 {
                    assert(cy[m] == st[p + m]);
                }
            }
        }
        c
    }

    /// Visits `i` and everything reachable from it that is not yet visited.
    #[verifier::rlimit(100)]
    fn dfs(&mut self, g: &Graph, i: usize, Ghost(starts): Ghost<Set<u64>>)
        requires
            g.wf(),
            old(self).inv(g, starts),
            old(self).cycle is None,
            i < g.nodes@.len(),
            old(self).color@[i as int] == 0,
            g.view().reaches(starts, g.nodes@[i as int]),
            old(self).stack@.len() == 0 || g.iedge(old(self).stack@.last() as int, i as int),
        ensures
            final(self).inv(g, starts),
            unvisited(final(self).color@) < unvisited(old(self).color@),
            final(self).cycle is None ==> final(self).stack@ == old(self).stack@,
            final(self).cycle is None ==> final(self).color@[i as int] == 2,
            final(self).cycle is None ==> forall|x: int|
                0 <= x < g.nodes@.len() && old(self).color@[x] == 2 ==> #[trigger] final(self).color@[x] == 2,
            final(self).cycle is None ==> old(self).finished@.is_prefix_of(final(self).finished@),
            final(self).cycle is None ==> final(self).finished@.last() == i,
            final(self).cycle is None ==> forall|k: int|
                old(self).finished@.len() <= k < final(self).finished@.len() ==> old(self).color@[(#[trigger] final(self).finished@[k]) as int] == 0,
            final(self).cycle is None ==> forall|x: int|
                0 <= x < g.nodes@.len() && #[trigger] final(self).color@[x] == 0 ==> old(self).color@[x] == 0,
            final(self).cycle is None ==> forall|x: int|
                0 <= x < g.nodes@.len() && old(self).color@[x] == 0 && #[trigger] final(self).color@[x] != 0
                    ==> g.white_reaches(old(self).color@, i as int, x),
            final(self).cycle is None ==> forall|x: int|
                0 <= x < g.nodes@.len() ==> ((old(self).color@[x] != 2 && #[trigger] final(self).color@[x] == 2)
                    <==> g.white_reaches(old(self).color@, i as int, x)),
            final(self).cycle matches Some(cy) ==> g.ireaches(i as int, cy@[0] as int),
            !g.cycle_reachable(i as int) ==> final(self).cycle is None,
        decreases unvisited(old(self).color@),
    {
        let ghost s0 = *self;
        assert(s0 == *old(self));
        let ghost n = g.nodes@.len();
        proof {
            lemma_unvisited_update(self.color@, i as int, 1);
            assert(!self.stack@.contains(i));
            assert(!self.finished@.contains(i));
        }
        self.color.set(i, 1);
        self.stack.push(i);
        proof {
            let st = self.stack@;
            assert forall|x: int| 0 <= x < n implies (#[trigger] self.color@[x] == 1 <==> st.contains(x as usize)) by {
                lemma_push_contains(s0.stack@, i, x as usize);
            }
            assert forall|k: int| 0 <= k < st.len() - 1 implies g.iedge(#[trigger] st[k] as int, st[k + 1] as int) by {
                if k < st.len() - 2 {
                    assert(st[k] == s0.stack@[k] && st[k + 1] == s0.stack@[k + 1]);
                }
            }
            assert(self.inv(g, starts));
            g.lemma_white_start(s0.color@, i as int);
        }
        assert(unvisited(self.color@) < unvisited(s0.color@));
        let deg = g.dependents[i].len();
        let mut k: usize = 0;
        while k < deg
            invariant
                g.wf(),
                n == g.nodes@.len(),
                i < n,
                deg == g.dependents@[i as int]@.len(),
                k <= deg,
                self.inv(g, starts),
                self.cycle is None,
                self.stack@ == s0.stack@.push(i),
                s0 == *old(self),
                self.color@[i as int] == 1,
                unvisited(self.color@) < unvisited(s0.color@),
                g.view().reaches(starts, g.nodes@[i as int]),
                forall|m: int| 0 <= m < k ==> #[trigger] self.color@[g.dependents@[i as int]@[m] as int] == 2,
                forall|x: int| 0 <= x < n && s0.color@[x] == 2 ==> #[trigger] self.color@[x] == 2,
                s0.finished@.is_prefix_of(self.finished@),
                forall|m: int| s0.finished@.len() <= m < self.finished@.len() ==> s0.color@[(#[trigger] self.finished@[m]) as int] == 0,
                forall|x: int| 0 <= x < n && #[trigger] self.color@[x] == 0 ==> s0.color@[x] == 0,
                forall|x: int| 0 <= x < n && s0.color@[x] == 0 && #[trigger] self.color@[x] != 0 ==> g.white_reaches(s0.color@, i as int, x),
                s0.color@[i as int] == 0,
            decreases deg - k,
        {
            let j = g.dependents[i][k];
            proof {
                assert(g.dependents@[i as int]@.contains(j));
                assert(g.iedge(i as int, j as int));
            }
            if self.color[j] == 0 {
                let ghost s1 = *self;
                proof {
                    g.lemma_edge(i as int, j as int);
                    g.view().lemma_reach_step(starts, g.nodes@[i as int], g.nodes@[j as int]);
                }
                self.dfs(g, j, Ghost(starts));
                if self.cycle.is_some() {
                    proof {
                        let cy = self.cycle->Some_0;
                        g.lemma_reach_prepend(i as int, j as int, cy@[0] as int);
                        assert(g.icycle(cy@));
                        assert(g.cycle_reachable(i as int));
                    }
                    return;
                }
                proof {
                    g.lemma_child_white(s0.color@, s1.color@, self.color@, i as int, j as int);
                    assert forall|m: int| 0 <= m <= k implies #[trigger] self.color@[g.dependents@[i as int]@[m] as int] == 2 by {
                        if m < k {
                            assert(s1.color@[g.dependents@[i as int]@[m] as int] == 2);
                        }
                    }
                    assert forall|x: int| 0 <= x < n && s0.color@[x] == 2 implies #[trigger] self.color@[x] == 2 by {
                        assert(s1.color@[x] == 2);
                    }
                    assert(self.stack@.contains(i));
                    assert forall|m: int| s0.finished@.len() <= m < self.finished@.len() implies s0.color@[(#[trigger] self.finished@[m]) as int] == 0 by {
                        if m < s1.finished@.len() {
                            assert(self.finished@[m] == s1.finished@[m]);
                        } else {
                            assert(s1.color@[self.finished@[m] as int] == 0);
                        }
                    }
                    assert(s0.finished@.is_prefix_of(self.finished@)) by {
                        assert forall|m: int| 0 <= m < s0.finished@.len() implies s0.finished@[m] == self.finished@[m] by {
                            assert(s1.finished@[m] == s0.finished@[m]);
                        }
                    }
                }
            } else if self.color[j] == 1 {
                proof {
                    assert(self.stack@.contains(j));
                    assert(self.color@[j as int] != 0);
                }
                let c = Topological::close_cycle(g, &self.stack, j);
                self.cycle = Some(c);
                proof {
                    g.lemma_reach_edge(i as int, j as int);
                    assert(g.icycle(c@));
                    assert(g.cycle_reachable(i as int));
                }
                return;
            } else {
                proof {
                    assert(self.color@[j as int] == 2);
                }
            }
            k += 1;
        }
        let ghost s2 = *self;
        self.stack.pop();
        proof {
            lemma_unvisited_update(self.color@, i as int, 2);
        }
        self.color.set(i, 2);
        self.finished.push(i);
        proof {
            let f = self.finished@;
            let c = self.color@;
            assert(self.stack@ == s0.stack@);
            assert(!s0.stack@.contains(i));
            assert(!s2.finished@.contains(i));
            assert forall|x: int| 0 <= x < n implies (#[trigger] c[x] == 1 <==> self.stack@.contains(x as usize)) by {
                lemma_push_contains(s0.stack@, i, x as usize);
            }
            assert forall|x: int| 0 <= x < n implies (#[trigger] c[x] == 2 <==> f.contains(x as usize)) by {
                lemma_push_contains(s2.finished@, i, x as usize);
            }
            assert forall|k: int| 0 <= k < self.stack@.len() - 1 implies g.iedge(#[trigger] self.stack@[k] as int, self.stack@[k + 1] as int) by {
                assert(self.stack@[k] == s2.stack@[k] && self.stack@[k + 1] == s2.stack@[k + 1]);
            }
            // every dependent of i is done
            assert forall|j: int| #[trigger] g.iedge(i as int, j) implies c[j] == 2 by {
                let m = choose|m: int| 0 <= m < deg && g.dependents@[i as int]@[m] == j as usize;
                assert(s2.color@[g.dependents@[i as int]@[m] as int] == 2);
            }
            assert(!g.iedge(i as int, i as int));
            assert forall|p: int, j: int| 0 <= p < f.len() && #[trigger] g.iedge(f[p] as int, j) implies c[j] == 2 by {
                if p < f.len() - 1 {
                    assert(f[p] == s2.finished@[p]);
                    assert(s2.color@[j] == 2);
                }
            }
            assert forall|p: int, q: int|
                0 <= p < f.len() && 0 <= q < f.len() && #[trigger] g.iedge(f[p] as int, f[q] as int) implies q < p by {
                if p < f.len() - 1 && q < f.len() - 1 {
                    assert(f[p] == s2.finished@[p] && f[q] == s2.finished@[q]);
                } else if p < f.len() - 1 {
                    assert(f[p] == s2.finished@[p]);
                    assert(s2.color@[f[q] as int] == 2);
                }
            }
            assert forall|x: int| 0 <= x < n && #[trigger] c[x] != 0 implies g.view().reaches(starts, g.nodes@[x]) by {
                assert(s2.color@[x] != 0);
            }
            assert(self.inv(g, starts));
            assert forall|x: int| 0 <= x < n && s0.color@[x] == 0 && #[trigger] self.color@[x] != 0
                implies g.white_reaches(s0.color@, i as int, x) by {
                if x != i as int {
                    assert(s2.color@[x] == self.color@[x]);
                }
            }
            assert forall|x: int| 0 <= x < n implies ((s0.color@[x] != 2 && #[trigger] self.color@[x] == 2)
                <==> g.white_reaches(s0.color@, i as int, x)) by {
                if g.white_reaches(s0.color@, i as int, x) {
                    let p = choose|p: Seq<int>| #[trigger] g.ipath(p) && p[0] == i as int && p.last() == x
                        && forall|k: int| 0 <= k < p.len() ==> s0.color@[#[trigger] p[k]] == 0;
                    self.lemma_path_black(g, starts, p);
                    assert(self.color@[p[p.len() - 1]] == 2);
                    assert(s0.color@[p[p.len() - 1]] == 0);
                }
                if s0.color@[x] == 1 {
                    assert(s0.stack@.contains(x as usize));
                    assert(self.stack@.contains(x as usize));
                }
            }
        }
    }

    /// Every position on a walk that starts at a done position is done.
    proof fn lemma_path_black(&self, g: &Graph, starts: Set<u64>, p: Seq<int>)
        requires
            g.wf(),
            self.inv(g, starts),
            self.cycle is None,
            g.ipath(p),
            self.color@[p[0]] == 2,
        ensures
            forall|k: int| 0 <= k < p.len() ==> self.color@[#[trigger] p[k]] == 2,
        decreases p.len(),
    {
        if p.len() > 1 {
            let q = p.drop_last();
            assert(g.ipath(q)) by {
                assert forall|k: int| 0 <= k < q.len() implies 0 <= #[trigger] q[k] < g.nodes@.len() by {
                    assert(q[k] == p[k]);
                }
                assert forall|k: int| 0 <= k < q.len() - 1 implies g.iedge(#[trigger] q[k], q[k + 1]) by {
                    assert(q[k] == p[k] && q[k + 1] == p[k + 1]);
                }
            }
            self.lemma_path_black(g, starts, q);
            let m = p.len() - 2;
            assert(q[m] == p[m]);
            assert(self.color@[p[m]] == 2);
            assert(g.iedge(p[m], p[m + 1]));
            assert(self.finished@.contains(p[m] as usize));
            let t = choose|t: int| 0 <= t < self.finished@.len() && self.finished@[t] == p[m] as usize;
            assert(g.iedge(self.finished@[t] as int, p[m + 1]));
            assert forall|k: int| 0 <= k < p.len() implies self.color@[#[trigger] p[k]] == 2 by {
                if k < p.len() - 1 {
                    assert(q[k] == p[k]);
                }
            }
        }
    }
}

impl Graph {
    /// The node ids at the given positions, last position first.
    fn rev_ids_of(&self, idx: &Vec<usize>) -> (r: Vec<u64>)
        requires
            self.wf(),
            forall|k: int| 0 <= k < idx@.len() ==> #[trigger] idx@[k] < self.nodes@.len(),
        ensures
            r@.len() == idx@.len(),
            forall|t: int| 0 <= t < idx@.len() ==> #[trigger] r@[t] == self.nodes@[idx@[idx@.len() - 1 - t] as int],
            idx@.no_duplicates() ==> r@.no_duplicates(),
    {
        let mut r: Vec<u64> = Vec::new();
        let mut k: usize = idx.len();
        while k > 0
            invariant
                self.wf(),
                forall|m: int| 0 <= m < idx@.len() ==> #[trigger] idx@[m] < self.nodes@.len(),
                k <= idx@.len(),
                r@.len() == idx@.len() - k,
                forall|t: int| 0 <= t < r@.len() ==> #[trigger] r@[t] == self.nodes@[idx@[idx@.len() - 1 - t] as int],
            decreases k,
        {
            k -= 1;
            r.push(self.nodes[idx[k]]);
        }
        proof {
            if idx@.no_duplicates() {
                let l = idx@.len();
                assert forall|p: int, q: int| 0 <= p < r@.len() && 0 <= q < r@.len() && p != q implies r@[p] != r@[q] by {
                    assert(idx@[l - 1 - p] != idx@[l - 1 - q]);
                }
            }
        }
        r
    }
}

impl Topological {
    /// Searches from each of `starts` in turn, stopping at the first cycle.
    fn search(&mut self, g: &Graph, starts: &Vec<usize>, Ghost(sset): Ghost<Set<u64>>)
        requires
            g.wf(),
            old(self).fresh(g),
            forall|k: int| 0 <= k < starts@.len() ==> #[trigger] starts@[k] < g.nodes@.len(),
            forall|k: int| 0 <= k < starts@.len() ==> sset.contains(g.nodes@[#[trigger] starts@[k] as int]),
        ensures
            final(self).inv(g, sset),
            final(self).cycle is None ==> forall|k: int|
                0 <= k < starts@.len() ==> final(self).color@[#[trigger] starts@[k] as int] == 2,
    {
        let ghost n = g.nodes@.len();
        proof {
            assert forall|i: int| 0 <= i < n implies (#[trigger] self.color@[i] == 2 <==> self.finished@.contains(i as usize)) by {
                assert(self.color@[i] == 0);
            }
            assert forall|i: int| 0 <= i < n implies (#[trigger] self.color@[i] == 1 <==> self.stack@.contains(i as usize)) by {
                assert(self.color@[i] == 0);
            }
            assert(self.inv(g, sset));
        }
        let mut k: usize = 0;
        while k < starts.len()
            invariant
                g.wf(),
                n == g.nodes@.len(),
                forall|m: int| 0 <= m < starts@.len() ==> #[trigger] starts@[m] < n,
                forall|m: int| 0 <= m < starts@.len() ==> sset.contains(g.nodes@[#[trigger] starts@[m] as int]),
                self.inv(g, sset),
                self.cycle is None,
                self.stack@.len() == 0,
                k <= starts@.len(),
                forall|m: int| 0 <= m < k ==> self.color@[#[trigger] starts@[m] as int] == 2,
            decreases starts@.len() - k,
        {
            let s = starts[k];
            if self.color[s] == 0 {
                let ghost s1 = *self;
                proof {
                    g.view().lemma_reach_start(sset, g.nodes@[s as int]);
                }
                self.dfs(g, s, Ghost(sset));
                if self.cycle.is_some() {
                    return;
                }
                proof {
                    assert forall|m: int| 0 <= m < k implies self.color@[#[trigger] starts@[m] as int] == 2 by {
                        assert(s1.color@[starts@[m] as int] == 2);
                    }
                }
            } else {
                proof {
                    assert(!self.stack@.contains(s));
                }
            }
            k += 1;
        }
    }

    /// Turns a finished search into its result.
    fn finish(self, g: &Graph, starts: &Vec<usize>, Ghost(sset): Ghost<Set<u64>>) -> (r: Result<Vec<u64>, Vec<u64>>)
        requires
            g.wf(),
            self.inv(g, sset),
            forall|k: int| 0 <= k < starts@.len() ==> #[trigger] starts@[k] < g.nodes@.len(),
            forall|a: u64| sset.contains(a) ==> exists|k: int| 0 <= k < starts@.len() && g.nodes@[#[trigger] starts@[k] as int] == a,
            self.cycle is None ==> forall|k: int|
                0 <= k < starts@.len() ==> self.color@[#[trigger] starts@[k] as int] == 2,
        ensures
            g.view().resolves(sset, r),
    {
        let ghost n = g.nodes@.len();
        match self.cycle {
            Some(cy) => {
                let c = g.ids_of(&cy);
                proof {
                    let v = g.view();
                    assert forall|k: int| 0 <= k < c@.len() - 1 implies #[trigger] v.edges.contains((c@[k], c@[k + 1])) by {
                        assert(g.iedge(cy@[k] as int, cy@[k + 1] as int));
                        g.lemma_edge(cy@[k] as int, cy@[k + 1] as int);
                    }
                    assert(v.is_cycle(c@));
                    assert(v.has_cycle_from(sset));
                }
                Err(c)
            },
            None => {
                let order = g.rev_ids_of(&self.finished);
                proof {
                    let v = g.view();
                    let f = self.finished@;
                    let l = f.len();
                    // membership: exactly the done nodes
                    assert forall|x: u64| #[trigger] order@.contains(x) implies v.reaches(sset, x) by {
                        if order@.contains(x) {
                            let t = choose|t: int| 0 <= t < order@.len() && order@[t] == x;
                            assert(f.contains(f[l - 1 - t]));
                            assert(self.color@[f[l - 1 - t] as int] == 2);
                        }
                    }
                    let b = Set::new(|x: u64| order@.contains(x));
                    assert forall|x: u64| 0 <= x < n && self.color@[x as int] == 2 implies #[trigger] order@.contains(g.nodes@[x as int]) by {
                        if 0 <= x < n && self.color@[x as int] == 2 {
                            assert(f.contains(x as usize));
                            let p = choose|p: int| 0 <= p < l && f[p] == x as usize;
                            assert(order@[l - 1 - p] == g.nodes@[x as int]);
                        }
                    }
                    assert forall|a: u64| sset.contains(a) implies b.contains(a) by {
                        let k = choose|k: int| 0 <= k < starts@.len() && g.nodes@[#[trigger] starts@[k] as int] == a;
                        assert(self.color@[starts@[k] as int] == 2);
                        assert(order@.contains(g.nodes@[starts@[k] as int]));
                    }
                    assert forall|a: u64, c: u64| b.contains(a) && #[trigger] v.edges.contains((a, c)) implies b.contains(c) by {
                        let t = choose|t: int| 0 <= t < order@.len() && order@[t] == a;
                        let x = f[l - 1 - t];
                        g.lemma_edge_ends(a, c);
                        g.lemma_index(x as int);
                        assert(f.contains(x));
                        let p = choose|p: int| 0 <= p < l && f[p] == x;
                        assert(g.iedge(f[p] as int, g.index(c)));
                        assert(self.color@[g.index(c)] == 2);
                        assert(order@.contains(g.nodes@[g.index(c)]));
                    }
                    assert forall|x: u64| #[trigger] order@.contains(x) <==> v.reaches(sset, x) by {
                        if v.reaches(sset, x) {
                            v.lemma_closed_holds_reachable(sset, b, x);
                        }
                    }
                    // order
                    assert forall|p: int, q: int|
                        0 <= p < order@.len() && 0 <= q < order@.len() && #[trigger] v.edges.contains((order@[p], order@[q])) implies p < q by {
                        let x = f[l - 1 - p];
                        let y = f[l - 1 - q];
                        g.lemma_edge(x as int, y as int);
                        assert(g.iedge(f[l - 1 - p] as int, f[l - 1 - q] as int));
                    }
                    assert(v.is_topological(order@));
                    v.lemma_ordered_has_no_cycle(sset, order@);
                }
                Ok(order)
            },
        }
    }
}

impl Graph {
    /// The positions of the given nodes.
    fn positions(&self, starts: &Vec<u64>) -> (r: Vec<usize>)
        requires
            self.wf(),
            forall|k: int| 0 <= k < starts@.len() ==> self.view().nodes.contains(#[trigger] starts@[k]),
        ensures
            r@.len() == starts@.len(),
            forall|k: int| 0 <= k < r@.len() ==> #[trigger] r@[k] < self.nodes@.len(),
            forall|k: int| 0 <= k < r@.len() ==> self.nodes@[#[trigger] r@[k] as int] == starts@[k],
    {
        let mut r: Vec<usize> = Vec::new();
        let mut k: usize = 0;
        while k < starts.len()
            invariant
                self.wf(),
                forall|m: int| 0 <= m < starts@.len() ==> self.view().nodes.contains(#[trigger] starts@[m]),
                k <= starts@.len(),
                r@.len() == k,
                forall|m: int| 0 <= m < k ==> #[trigger] r@[m] < self.nodes@.len(),
                forall|m: int| 0 <= m < k ==> self.nodes@[#[trigger] r@[m] as int] == starts@[m],
            decreases starts@.len() - k,
        {
            assert(self.nodes@.contains(starts@[k as int]));
            match self.find(starts[k]) {
                Some(i) => {
                    r.push(i);
                },
                None => {
                    assert(false);
                },
            }
            k += 1;
        }
        r
    }

    /// A node that is not in the graph reaches only itself, on no cycle.
    proof fn lemma_outside(&self, node: u64)
        requires
            self.wf(),
            !self.view().nodes.contains(node),
        ensures
            forall|v: u64| self.view().reaches(Set::empty().insert(node), v) <==> v == node,
            !self.view().has_cycle_from(Set::empty().insert(node)),
    {
        let v = self.view();
        let st = Set::empty().insert(node);
        assert forall|x: u64| v.reaches(st, x) <==> x == node by {
            if v.reaches(st, x) {
                let p = choose|p: Seq<u64>| #[trigger] v.is_path(p) && st.contains(p[0]) && p.last() == x;
                if p.len() > 1 {
                    let z = 0int;
                    assert(v.edges.contains((p[z], p[z + 1])));
                    self.lemma_edge_ends(p[0], p[1]);
                }
            }
            if x == node {
                v.lemma_reach_start(st, node);
            }
        }
        if v.has_cycle_from(st) {
            let c = choose|c: Seq<u64>| #[trigger] v.is_cycle(c) && v.reaches(st, c[0]);
            let z = 0int;
            assert(v.edges.contains((c[z], c[z + 1])));
            self.lemma_edge_ends(c[0], c[1]);
        }
    }

    /// Reaching from all nodes gives the nodes; a cycle anywhere starts at a node.
    proof fn lemma_from_all(&self)
        requires
            self.wf(),
        ensures
            forall|x: u64| self.view().reaches(self.view().nodes, x) <==> self.view().nodes.contains(x),
            self.view().has_cycle_from(self.view().nodes) <==> self.view().has_cycle(),
    {
        let v = self.view();
        assert forall|x: u64| v.reaches(v.nodes, x) <==> v.nodes.contains(x) by {
            if v.reaches(v.nodes, x) {
                let p = choose|p: Seq<u64>| #[trigger] v.is_path(p) && v.nodes.contains(p[0]) && p.last() == x;
                if p.len() > 1 {
                    let j = p.len() - 2;
                    assert(v.edges.contains((p[j], p[j + 1])));
                    self.lemma_edge_ends(p[j], p[j + 1]);
                }
            }
            if v.nodes.contains(x) {
                v.lemma_reach_start(v.nodes, x);
            }
        }
        if v.has_cycle() {
            let c = choose|c: Seq<u64>| #[trigger] v.is_cycle(c);
            let z = 0int;
            assert(v.edges.contains((c[z], c[z + 1])));
            self.lemma_edge_ends(c[0], c[1]);
            v.lemma_reach_start(v.nodes, c[0]);
        }
    }
}

impl Topological {
    /// Resolves from each of `starts`, which are nodes of `g`.
    pub fn from_nodes(self, g: &Graph, starts: &Vec<u64>) -> (r: Result<Vec<u64>, Vec<u64>>)
        requires
            g.wf(),
            self.fresh(g),
            forall|k: int| 0 <= k < starts@.len() ==> g.view().nodes.contains(#[trigger] starts@[k]),
        ensures
            g.view().resolves(starts@.to_set(), r),
    {
        let mut t = self;
        let idx = g.positions(starts);
        let ghost sset = starts@.to_set();
        proof {
            assert forall|k: int| 0 <= k < idx@.len() implies sset.contains(g.nodes@[#[trigger] idx@[k] as int]) by {
                assert(starts@.contains(starts@[k]));
            }
            assert forall|a: u64| sset.contains(a) implies exists|k: int| 0 <= k < idx@.len() && g.nodes@[#[trigger] idx@[k] as int] == a by {
                let k = choose|k: int| 0 <= k < starts@.len() && starts@[k] == a;
                assert(g.nodes@[idx@[k] as int] == a);
            }
        }
        t.search(g, &idx, Ghost(sset));
        t.finish(g, &idx, Ghost(sset))
    }

    /// Resolves from `node`: the node and everything that depends on it,
    /// directly or not.
    pub fn from(self, g: &Graph, node: u64) -> (r: Result<Vec<u64>, Vec<u64>>)
        requires
            g.wf(),
            self.fresh(g),
        ensures
            g.view().resolves(Set::empty().insert(node), r),
    {
        match g.find(node) {
            None => {
                let mut order: Vec<u64> = Vec::new();
                order.push(node);
                proof {
                    g.lemma_outside(node);
                    let v = g.view();
                    assert forall|x: u64| #[trigger] order@.contains(x) <==> v.reaches(Set::empty().insert(node), x) by {
                        if x == node {
                            assert(order@[0] == node);
                        }
                    }
                    assert forall|p: int, q: int|
                        0 <= p < order@.len() && 0 <= q < order@.len() && #[trigger] v.edges.contains((order@[p], order@[q])) implies p < q by {
                        g.lemma_edge_ends(order@[p], order@[q]);
                    }
                }
                Ok(order)
            },
            Some(_) => {
                let mut starts: Vec<u64> = Vec::new();
                starts.push(node);
                proof {
                    assert(starts@.to_set() =~= Set::empty().insert(node)) by {
                        assert(starts@[0] == node);
                    }
                }
                self.from_nodes(g, &starts)
            },
        }
    }

    /// Resolves the whole graph.
    pub fn all(self, g: &Graph) -> (r: Result<Vec<u64>, Vec<u64>>)
        requires
            g.wf(),
            self.fresh(g),
        ensures
            g.view().resolves(g.view().nodes, r),
    {
        let nodes = g.nodes();
        proof {
            assert forall|k: int| 0 <= k < nodes@.len() implies g.view().nodes.contains(#[trigger] nodes@[k]) by {
                assert(nodes@.to_set().contains(nodes@[k]));
            }
        }
        self.from_nodes(g, &nodes)
    }
}

impl Graph {
    /// A topological order of every node, or a cycle.
    pub fn resolve(&self) -> (r: Result<Vec<u64>, Vec<u64>>)
        requires
            self.wf(),
        ensures
            self.view().resolves(self.view().nodes, r),
            r matches Ok(order) ==> order@.to_set() == self.view().nodes,
            r matches Ok(order) ==> self.view().is_topological(order@),
            r matches Err(c) ==> self.view().is_cycle(c@),
            r is Ok <==> !self.view().has_cycle(),
    {
        let r = Topological::new(self).all(self);
        proof {
            self.lemma_from_all();
            if r is Ok {
                assert(r->Ok_0@.to_set() =~= self.view().nodes);
            }
        }
        r
    }

    /// A topological order of `node` and of everything that depends on it,
    /// or a cycle among them.
    pub fn resolve_only(&self, node: u64) -> (r: Result<Vec<u64>, Vec<u64>>)
        requires
            self.wf(),
        ensures
            self.view().resolves(Set::empty().insert(node), r),
    {
        Topological::new(self).from(self, node)
    }

    /// A topological order of `starts` and of everything that depends on
    /// them, or a cycle among them.
    pub fn resolve_from(&self, starts: &Vec<u64>) -> (r: Result<Vec<u64>, Vec<u64>>)
        requires
            self.wf(),
            forall|k: int| 0 <= k < starts@.len() ==> self.view().nodes.contains(#[trigger] starts@[k]),
        ensures
            self.view().resolves(starts@.to_set(), r),
    {
        Topological::new(self).from_nodes(self, starts)
    }
}

} // verus!
