//! The dependency graph: units are placed into the earliest layer where
//! they clash with nobody, edges run from every clashing (or explicitly
//! ordered) predecessor, and execution walks the layers in order.

use vstd::prelude::*;
use crate::dependency::{lemma_clashes_symmetric, SystemMetadata};

verus! {

/// How many of the first `u` adjacency lists carry an edge into `v`.
pub open spec fn in_count_upto(e: Seq<Vec<usize>>, v: usize, u: int) -> nat
    decreases u,
{
    if u <= 0 {
        0
    } else {
        in_count_upto(e, v, u - 1) + if e[u - 1]@.contains(v) {
            1nat
        } else {
            0nat
        }
    }
}

/// How many adjacency lists carry an edge into `v`: the indegree of `v`,
/// since no list names a target twice.
pub open spec fn in_count(e: Seq<Vec<usize>>, v: usize) -> nat {
    in_count_upto(e, v, e.len() as int)
}

proof fn lemma_in_count_upto_agree(e1: Seq<Vec<usize>>, e2: Seq<Vec<usize>>, v: usize, u: int)
    requires
        0 <= u <= e1.len(),
        u <= e2.len(),
        forall|w: int| 0 <= w < u ==> e1[w]@ == e2[w]@,
    ensures
        in_count_upto(e1, v, u) == in_count_upto(e2, v, u),
    decreases u,
{
    if u > 0 {
        lemma_in_count_upto_agree(e1, e2, v, u - 1);
    }
}

proof fn lemma_in_count_upto_update_push(e: Seq<Vec<usize>>, u0: int, x: usize, nl: Vec<usize>, v: usize, u: int)
    requires
        0 <= u0 < e.len(),
        0 <= u <= e.len(),
        nl@ == e[u0]@.push(x),
    ensures
        in_count_upto(e.update(u0, nl), v, u) == in_count_upto(e, v, u) + if u0 < u && x == v
            && !e[u0]@.contains(v) {
            1nat
        } else {
            0nat
        },
    decreases u,
{
    let e2 = e.update(u0, nl);
    if u > 0 {
        lemma_in_count_upto_update_push(e, u0, x, nl, v, u - 1);
        if u - 1 == u0 {
            assert(e2[u - 1]@ == e[u0]@.push(x));
            if x == v {
                assert(e2[u - 1]@.contains(v)) by {
                    assert(e2[u - 1]@[e[u0]@.len() as int] == v);
                }
            } else {
                assert(e2[u - 1]@.contains(v) <==> e[u - 1]@.contains(v)) by {
                    if e[u - 1]@.contains(v) {
                        let w = choose|w: int| 0 <= w < e[u - 1]@.len() && #[trigger] e[u - 1]@[w] == v;
                        assert(e2[u - 1]@[w] == v);
                    }
                    if e2[u - 1]@.contains(v) {
                        let w = choose|w: int| 0 <= w < e2[u - 1]@.len() && #[trigger] e2[u - 1]@[w] == v;
                        assert(w != e[u0]@.len());
                        assert(e[u - 1]@[w] == v);
                    }
                }
            }
        } else {
            assert(e2[u - 1]@ == e[u - 1]@);
        }
    }
}

proof fn lemma_in_count_upto_push_list(e: Seq<Vec<usize>>, nl: Vec<usize>, v: usize, u: int)
    requires
        0 <= u <= e.len(),
    ensures
        in_count_upto(e.push(nl), v, u) == in_count_upto(e, v, u),
    decreases u,
{
    if u > 0 {
        lemma_in_count_upto_push_list(e, nl, v, u - 1);
        assert(e.push(nl)[u - 1]@ == e[u - 1]@);
    }
}

proof fn lemma_in_count_upto_absent(e: Seq<Vec<usize>>, v: usize, u: int)
    requires
        0 <= u <= e.len(),
        forall|w: int| 0 <= w < u ==> !(#[trigger] e[w])@.contains(v),
    ensures
        in_count_upto(e, v, u) == 0,
    decreases u,
{
    if u > 0 {
        lemma_in_count_upto_absent(e, v, u - 1);
    }
}

/// Whether some node at layer `l` clashes with the descriptor being placed.
pub open spec fn has_clasher_at(g: DependencyGraph, md: SystemMetadata, l: int) -> bool {
    exists|w: int|
        0 <= w < g.n() && (#[trigger] g.layers_view()[w]) as int == l && g.nodes_view()[
            w
        ].clashes_with(md)
}

/// Wraps one schedulable unit's placement: the layered graph stores, per
/// node, its access descriptor, its indegree, its successor list and the
/// layer it was assigned to.
pub struct DependencyGraph {
    /// The descriptor of each registered unit, by insertion order.
    nodes: Vec<SystemMetadata>,
    /// Count of ordering predecessors of each node.
    indegrees: Vec<usize>,
    /// For each node, the nodes that must wait on it.
    graph_edges: Vec<Vec<usize>>,
    /// The execution layer each node was assigned to.
    layers: Vec<u32>,
}

impl DependencyGraph {
    pub closed spec fn nodes_view(self) -> Seq<SystemMetadata> {
        self.nodes@
    }

    pub closed spec fn indegrees_view(self) -> Seq<usize> {
        self.indegrees@
    }

    pub closed spec fn edge_lists(self) -> Seq<Vec<usize>> {
        self.graph_edges@
    }

    pub closed spec fn layers_view(self) -> Seq<u32> {
        self.layers@
    }

    pub open spec fn n(self) -> int {
        self.nodes_view().len() as int
    }

    /// Whether the graph orders node `v` after node `u`.
    pub open spec fn edge(self, u: int, v: int) -> bool {
        &&& 0 <= u < self.edge_lists().len()
        &&& 0 <= v < self.edge_lists().len()
        &&& self.edge_lists()[u]@.contains(v as usize)
    }

    /// Whether the descriptors of nodes `i` and `j` clash.
    pub open spec fn clash_at(self, i: int, j: int) -> bool {
        self.nodes_view()[i].clashes_with(self.nodes_view()[j])
    }

    /// Every edge is justified by a store conflict; graphs built without
    /// explicit ordering chains keep this.
    pub open spec fn conflict_edges_only(self) -> bool {
        forall|u: int, v: int| #[trigger] self.edge(u, v) ==> self.clash_at(u, v)
    }

    pub open spec fn wf(self) -> bool {
        &&& self.indegrees_view().len() == self.n()
        &&& self.edge_lists().len() == self.n()
        &&& self.layers_view().len() == self.n()
        &&& self.n() <= u32::MAX
        &&& forall|u: int, k: int|
            0 <= u < self.n() && 0 <= k < self.edge_lists()[u]@.len() ==> (
            #[trigger] self.edge_lists()[u]@[k]) < self.n()
        &&& forall|u: int, k1: int, k2: int|
            0 <= u < self.n() && 0 <= k1 < k2 < self.edge_lists()[u]@.len()
                ==> self.edge_lists()[u]@[k1] != self.edge_lists()[u]@[k2]
        &&& forall|u: int, k: int|
            0 <= u < self.n() && 0 <= k < self.edge_lists()[u]@.len()
                ==> self.layers_view()[#[trigger] self.edge_lists()[u]@[k] as int]
                > self.layers_view()[u]
        &&& forall|v: int|
            0 <= v < self.n() ==> (#[trigger] self.indegrees_view()[v]) == in_count(
                self.edge_lists(),
                v as usize,
            )
        &&& forall|i: int, j: int|
            0 <= i < self.n() && 0 <= j < self.n() && i != j && self.layers_view()[i]
                == self.layers_view()[j] ==> !self.clash_at(i, j)
        &&& forall|v: int|
            0 <= v < self.n() && (#[trigger] self.layers_view()[v]) > 0 ==> exists|u: int|
                0 <= u < self.n() && self.edge(u, v) && self.layers_view()[u] as int
                    == self.layers_view()[v] - 1
        &&& forall|i: int| 0 <= i < self.n() ==> (#[trigger] self.layers_view()[i]) as int <= i
    }

    pub fn new() -> (r: DependencyGraph)
        ensures
            r.wf(),
            r.n() == 0,
            r.conflict_edges_only(),
    {
        DependencyGraph {
            nodes: Vec::new(),
            indegrees: Vec::new(),
            graph_edges: Vec::new(),
            layers: Vec::new(),
        }
    }

    pub fn node_count(&self) -> (r: usize)
        ensures
            r == self.n(),
    {
        self.nodes.len()
    }

    /// The layer the node was assigned to.
    pub fn layer_of(&self, i: usize) -> (r: u32)
        requires
            self.wf(),
            0 <= i < self.n(),
        ensures
            r == self.layers_view()[i as int],
    {
        self.layers[i]
    }

    /// The node's current count of ordering predecessors.
    pub fn indegree_of(&self, i: usize) -> (r: usize)
        requires
            self.wf(),
            0 <= i < self.n(),
        ensures
            r == self.indegrees_view()[i as int],
    {
        self.indegrees[i]
    }

    /// Walks the conceptual layers from the first: the new node settles in
    /// the earliest layer at or past `floor` where it clashes with nobody,
    /// and an edge is recorded from every clashing node of every earlier
    /// layer.
    fn check_indegree_and_insert(
        &mut self,
        metadata: SystemMetadata,
        chain_parent: Option<usize>,
    ) -> (idx: usize)
        requires
            old(self).wf(),
            old(self).n() < u32::MAX,
            chain_parent is Some ==> 0 <= chain_parent->0 < old(self).n(),
        ensures
            final(self).wf(),
            idx == old(self).n(),
            final(self).n() == old(self).n() + 1,
            final(self).nodes_view() == old(self).nodes_view().push(metadata),
            forall|i: int|
                0 <= i < old(self).n() ==> final(self).layers_view()[i] == old(self).layers_view()[i],
            forall|u: int, v: int|
                0 <= u < old(self).n() && 0 <= v < old(self).n() ==> (final(self).edge(u, v)
                    <==> old(self).edge(u, v)),
            forall|u: int|
                0 <= u < old(self).n() && final(self).edge(u, idx as int) ==> (old(self).nodes_view()[u].clashes_with(metadata) || chain_parent == Some(u as usize)),
            forall|u: int|
                0 <= u < old(self).n() && old(self).layers_view()[u]
                    < final(self).layers_view()[idx as int] && old(self).nodes_view()[
                    u
                ].clashes_with(metadata) ==> final(self).edge(u, idx as int),
            chain_parent is Some ==> final(self).edge(chain_parent->0 as int, idx as int),
            (chain_parent is None && forall|j: int|
                0 <= j < old(self).n() ==> !old(self).nodes_view()[j].clashes_with(metadata))
                ==> final(self).layers_view()[idx as int] == 0,
            chain_parent is None ==> forall|l: int|
                0 <= l < final(self).layers_view()[idx as int] ==> has_clasher_at(
                    *old(self),
                    metadata,
                    l,
                ),
            forall|v: int| !final(self).edge(idx as int, v),
    {
        let n = self.nodes.len();
        let ghost g0 = *self;
        let new_index = n;
        let floor: u32 = match chain_parent {
            Some(p) => self.layers[p] + 1,
            None => 0,
        };
        // Find the earliest layer at or past the floor with no clash.
        let mut lay: u32 = floor;
        let mut searching = true;
        while searching
            invariant
                *self == g0,
                g0.wf(),
                n == g0.n(),
                n < u32::MAX,
                floor <= lay,
                lay as int <= n,
                chain_parent is Some ==> 0 <= chain_parent->0 < n && floor == g0.layers_view()[chain_parent->0 as int] + 1,
                chain_parent is None ==> floor == 0,
                forall|l: int| floor <= l < lay ==> #[trigger] has_clasher_at(g0, metadata, l),
                !searching ==> forall|w: int|
                    0 <= w < n ==> !(g0.layers_view()[w] == lay && g0.nodes_view()[
                        w
                    ].clashes_with(metadata)),
            decreases (n - lay) + if searching {
                1int
            } else {
                0int
            },
        {
            let mut found = false;
            let mut u: usize = 0;
            while u < n
                invariant
                    *self == g0,
                    g0.wf(),
                    n == g0.n(),
                    0 <= u <= n,
                    !found ==> forall|w: int|
                        0 <= w < u ==> !(g0.layers_view()[w] == lay && g0.nodes_view()[
                            w
                        ].clashes_with(metadata)),
                    found ==> exists|w: int|
                        0 <= w < n && g0.layers_view()[w] == lay && g0.nodes_view()[
                            w
                        ].clashes_with(metadata),
                decreases n - u,
            {
                if self.layers[u] == lay {
                    if self.nodes[u].is_resource_clashing(&metadata) {
                        found = true;
                    }
                }
                u += 1;
            }
            if found {
                proof {
                    let w = choose|w: int|
                        0 <= w < n && g0.layers_view()[w] == lay && g0.nodes_view()[
                            w
                        ].clashes_with(metadata);
                    assert(lay as int <= g0.layers_view()[w] as int);
                    assert(g0.layers_view()[w] as int <= w);
                }
                lay = lay + 1;
            } else {
                searching = false;
            }
        }
        let target_layer = lay;
        proof {
            assert forall|w: int| 0 <= w < n implies !(#[trigger] g0.edge_lists()[w])@.contains(
                new_index,
            ) by {
                if g0.edge_lists()[w]@.contains(new_index) {
                    let k = choose|k: int|
                        0 <= k < g0.edge_lists()[w]@.len() && #[trigger] g0.edge_lists()[w]@[k]
                            == new_index;
                    assert(g0.edge_lists()[w]@[k] < n);
                }
            }
            lemma_in_count_upto_absent(g0.edge_lists(), new_index, n as int);
        }
        // Record an edge from every clashing node of every earlier layer.
        let mut indeg: usize = 0;
        let mut u: usize = 0;
        while u < n
            invariant
                g0.wf(),
                n == g0.n(),
                n < u32::MAX,
                0 <= u <= n,
                self.nodes@ == g0.nodes_view(),
                self.indegrees@ == g0.indegrees_view(),
                self.layers@ == g0.layers_view(),
                self.edge_lists().len() == n,
                forall|w: int| 0 <= w < n ==> !(#[trigger] g0.edge_lists()[w])@.contains(new_index),
                forall|w: int| u <= w < n ==> self.edge_lists()[w]@ == g0.edge_lists()[w]@,
                forall|w: int|
                    0 <= w < u && (g0.layers_view()[w] < target_layer && g0.nodes_view()[
                        w
                    ].clashes_with(metadata)) ==> self.edge_lists()[w]@ == g0.edge_lists()[
                        w
                    ]@.push(new_index),
                forall|w: int|
                    0 <= w < u && !(g0.layers_view()[w] < target_layer && g0.nodes_view()[
                        w
                    ].clashes_with(metadata)) ==> self.edge_lists()[w]@ == g0.edge_lists()[w]@,
                forall|v: usize|
                    v != new_index ==> in_count(self.edge_lists(), v) == in_count(
                        g0.edge_lists(),
                        v,
                    ),
                in_count(self.edge_lists(), new_index as usize) == indeg,
                indeg <= u,
            decreases n - u,
        {
            let should_link = if self.layers[u] < target_layer {
                self.nodes[u].is_resource_clashing(&metadata)
            } else {
                false
            };
            if should_link {
                let ghost e_before = self.edge_lists();
                let list = &mut self.graph_edges[u];
                list.push(new_index);
                proof {
                    assert(self.edge_lists() =~= e_before.update(
                        u as int,
                        self.graph_edges@[u as int],
                    ));
                    assert(e_before[u as int]@ == g0.edge_lists()[u as int]@);
                    assert(!e_before[u as int]@.contains(new_index));
                    assert forall|v: usize|
                        v != new_index implies in_count(self.edge_lists(), v) == in_count(
                        g0.edge_lists(),
                        v,
                    ) by {
                        lemma_in_count_upto_update_push(
                            e_before,
                            u as int,
                            new_index,
                            self.graph_edges@[u as int],
                            v,
                            n as int,
                        );
                    }
                    lemma_in_count_upto_update_push(
                        e_before,
                        u as int,
                        new_index,
                        self.graph_edges@[u as int],
                        new_index,
                        n as int,
                    );
                }
                indeg = indeg + 1;
            }
            u += 1;
        }
        // An explicitly ordered unit always waits on its chain predecessor,
        // clash or not.
        match chain_parent {
            Some(p) => {
                let clash_with_parent = self.nodes[p].is_resource_clashing(&metadata);
                if !clash_with_parent {
                    let ghost e_before = self.edge_lists();
                    let list = &mut self.graph_edges[p];
                    list.push(new_index);
                    proof {
                        assert(self.edge_lists() =~= e_before.update(
                            p as int,
                            self.graph_edges@[p as int],
                        ));
                        assert(e_before[p as int]@ == g0.edge_lists()[p as int]@);
                        assert(!e_before[p as int]@.contains(new_index));
                        assert forall|v: usize|
                            v != new_index implies in_count(self.edge_lists(), v) == in_count(
                            g0.edge_lists(),
                            v,
                        ) by {
                            lemma_in_count_upto_update_push(
                                e_before,
                                p as int,
                                new_index,
                                self.graph_edges@[p as int],
                                v,
                                n as int,
                            );
                        }
                        lemma_in_count_upto_update_push(
                            e_before,
                            p as int,
                            new_index,
                            self.graph_edges@[p as int],
                            new_index,
                            n as int,
                        );
                    }
                    indeg = indeg + 1;
                }
            },
            None => {},
        }
        let ghost e_linked = self.edge_lists();
        self.nodes.push(metadata);
        self.indegrees.push(indeg);
        self.graph_edges.push(Vec::new());
        self.layers.push(target_layer);
        proof {
            self.lemma_insert_wf(g0, metadata, chain_parent, e_linked, target_layer, floor, indeg);
        }
        new_index
    }
}

impl DependencyGraph {
    /// Whether inserting `md` at layer `tl` records an edge from `w`.
    pub open spec fn links(
        g0: DependencyGraph,
        md: SystemMetadata,
        chain_parent: Option<usize>,
        tl: u32,
        w: int,
    ) -> bool {
        (g0.layers_view()[w] < tl && g0.nodes_view()[w].clashes_with(md)) || chain_parent == Some(
            w as usize,
        )
    }

    proof fn lemma_insert_wf(
        self,
        g0: DependencyGraph,
        md: SystemMetadata,
        chain_parent: Option<usize>,
        e_linked: Seq<Vec<usize>>,
        tl: u32,
        floor: u32,
        indeg: usize,
    )
        requires
            g0.wf(),
            g0.n() < u32::MAX,
            chain_parent is Some ==> 0 <= chain_parent->0 < g0.n() && floor == g0.layers_view()[
                chain_parent->0 as int] + 1,
            chain_parent is None ==> floor == 0,
            floor <= tl,
            tl as int <= g0.n(),
            forall|w: int|
                0 <= w < g0.n() ==> !((#[trigger] g0.layers_view()[w]) == tl && g0.nodes_view()[
                    w
                ].clashes_with(md)),
            forall|l: int| floor <= l < tl ==> #[trigger] has_clasher_at(g0, md, l),
            e_linked.len() == g0.n(),
            forall|w: int|
                0 <= w < g0.n() && Self::links(g0, md, chain_parent, tl, w) ==> (
                #[trigger] e_linked[w])@ == g0.edge_lists()[w]@.push(g0.n() as usize),
            forall|w: int|
                0 <= w < g0.n() && !Self::links(g0, md, chain_parent, tl, w) ==> (
                #[trigger] e_linked[w])@ == g0.edge_lists()[w]@,
            forall|v: usize|
                v != g0.n() as usize ==> in_count(e_linked, v) == in_count(g0.edge_lists(), v),
            in_count(e_linked, g0.n() as usize) == indeg,
            self.nodes_view() == g0.nodes_view().push(md),
            self.indegrees_view() == g0.indegrees_view().push(indeg),
            self.layers_view() == g0.layers_view().push(tl),
            self.edge_lists().len() == g0.n() + 1,
            forall|w: int| 0 <= w < g0.n() ==> (#[trigger] self.edge_lists()[w])@ == e_linked[w]@,
            self.edge_lists()[g0.n()]@ == Seq::<usize>::empty(),
        ensures
            self.wf(),
            self.n() == g0.n() + 1,
            forall|i: int| 0 <= i < g0.n() ==> self.layers_view()[i] == g0.layers_view()[i],
            self.layers_view()[g0.n()] == tl,
            forall|u: int, v: int|
                0 <= u < g0.n() && 0 <= v < g0.n() ==> (self.edge(u, v) <==> g0.edge(u, v)),
            forall|u: int|
                0 <= u < g0.n() ==> (self.edge(u, g0.n()) <==> Self::links(
                    g0,
                    md,
                    chain_parent,
                    tl,
                    u,
                )),
            forall|v: int| !self.edge(g0.n(), v),
    {
        let n = g0.n();
        let nn = n as usize;
        // Old edges survive and the only new edges point at the new node.
        assert forall|u: int, v: int|
            0 <= u < n && 0 <= v < n implies (self.edge(u, v) <==> g0.edge(u, v)) by {
            if Self::links(g0, md, chain_parent, tl, u) {
                let base = g0.edge_lists()[u]@;
                assert(self.edge_lists()[u]@ == base.push(nn));
                if g0.edge(u, v) {
                    let k = choose|k: int| 0 <= k < base.len() && base[k] == v as usize;
                    assert(self.edge_lists()[u]@[k] == v as usize);
                }
                if self.edge(u, v) {
                    let k = choose|k: int|
                        0 <= k < base.push(nn).len() && base.push(nn)[k] == v as usize;
                    assert(k != base.len());
                    assert(base[k] == v as usize);
                }
            } else {
                assert(self.edge_lists()[u]@ == g0.edge_lists()[u]@);
            }
        }
        assert forall|u: int|
            0 <= u < n implies (self.edge(u, n) <==> Self::links(g0, md, chain_parent, tl, u)) by {
            if Self::links(g0, md, chain_parent, tl, u) {
                let base = g0.edge_lists()[u]@;
                assert(self.edge_lists()[u]@ == base.push(nn));
                assert(self.edge_lists()[u]@[base.len() as int] == nn);
            } else {
                assert(self.edge_lists()[u]@ == g0.edge_lists()[u]@);
                if self.edge(u, n) {
                    let k = choose|k: int|
                        0 <= k < g0.edge_lists()[u]@.len() && g0.edge_lists()[u]@[k] == nn;
                    assert(g0.edge_lists()[u]@[k] < n);
                }
            }
        }
        assert forall|v: int| !self.edge(n, v) by {
            assert(self.edge_lists()[n]@.len() == 0);
        }
        // Bounded, duplicate-free, layer-ascending adjacency lists.
        assert forall|u: int, k: int|
            0 <= u < self.n() && 0 <= k < self.edge_lists()[u]@.len() implies (
        #[trigger] self.edge_lists()[u]@[k]) < self.n() && self.layers_view()[self.edge_lists()[
            u
        ]@[k] as int] > self.layers_view()[u] by {
            if u < n {
                let base = g0.edge_lists()[u]@;
                if Self::links(g0, md, chain_parent, tl, u) {
                    assert(self.edge_lists()[u]@ == base.push(nn));
                    if k < base.len() {
                        assert(self.edge_lists()[u]@[k] == base[k]);
                        assert(base[k] < n);
                        assert(g0.layers_view()[base[k] as int] > g0.layers_view()[u]);
                    } else {
                        assert(self.edge_lists()[u]@[k] == nn);
                        if g0.layers_view()[u] < tl {
                        } else {
                            assert(chain_parent == Some(u as usize));
                            assert(g0.layers_view()[u] + 1 == floor);
                        }
                    }
                } else {
                    assert(self.edge_lists()[u]@ == base);
                    assert(base[k] < n);
                }
            }
        }
        assert forall|u: int, k1: int, k2: int|
            0 <= u < self.n() && 0 <= k1 < k2 < self.edge_lists()[u]@.len() implies self.edge_lists()[
            u
        ]@[k1] != self.edge_lists()[u]@[k2] by {
            if u < n {
                let base = g0.edge_lists()[u]@;
                if Self::links(g0, md, chain_parent, tl, u) {
                    assert(self.edge_lists()[u]@ == base.push(nn));
                    if k2 < base.len() {
                        assert(base[k1] != base[k2]);
                    } else {
                        assert(self.edge_lists()[u]@[k2] == nn);
                        assert(self.edge_lists()[u]@[k1] == base[k1]);
                        assert(base[k1] < n);
                    }
                } else {
                    assert(self.edge_lists()[u]@ == base);
                }
            }
        }
        // Indegrees still count the incoming edges.
        assert forall|v: int|
            0 <= v < self.n() implies (#[trigger] self.indegrees_view()[v]) == in_count(
            self.edge_lists(),
            v as usize,
        ) by {
            let vv = v as usize;
            lemma_in_count_upto_agree(self.edge_lists(), e_linked, vv, n);
            assert(self.edge_lists()[n]@ == Seq::<usize>::empty());
            assert(self.edge_lists()[n]@.len() == 0);
            assert(!self.edge_lists()[n]@.contains(vv));
            assert(in_count(self.edge_lists(), vv) == in_count_upto(self.edge_lists(), vv, n + 1));
            assert(in_count_upto(self.edge_lists(), vv, n + 1) == in_count_upto(
                self.edge_lists(),
                vv,
                n,
            ) + if self.edge_lists()[n]@.contains(vv) {
                1nat
            } else {
                0nat
            });
            assert(in_count(e_linked, vv) == in_count_upto(e_linked, vv, n));
            if v < n {
                assert(vv != g0.n() as usize);
                assert(in_count(e_linked, vv) == in_count(g0.edge_lists(), vv));
                assert(self.indegrees_view()[v] == g0.indegrees_view()[v]);
                assert(in_count(g0.edge_lists(), vv) == g0.indegrees_view()[v]);
            } else {
                assert(vv == g0.n() as usize);
                assert(in_count(e_linked, vv) == indeg);
                assert(self.indegrees_view()[v] == indeg);
            }
        }
        // Units sharing a layer never clash.
        assert forall|i: int, j: int|
            0 <= i < self.n() && 0 <= j < self.n() && i != j && self.layers_view()[i]
                == self.layers_view()[j] implies !self.clash_at(i, j) by {
            if i < n && j < n {
                assert(!g0.clash_at(i, j));
            } else if i < n && j == n {
                assert(g0.layers_view()[i] == tl);
                assert(!g0.nodes_view()[i].clashes_with(md));
            } else if i == n && j < n {
                assert(g0.layers_view()[j] == tl);
                assert(!g0.nodes_view()[j].clashes_with(md));
                lemma_clashes_symmetric(md.accesses(), g0.nodes_view()[j].accesses());
            }
        }
        // Every node of a positive layer has a predecessor one layer below.
        assert forall|v: int|
            0 <= v < self.n() && (#[trigger] self.layers_view()[v]) > 0 implies exists|u: int|
            0 <= u < self.n() && self.edge(u, v) && self.layers_view()[u] as int
                == self.layers_view()[v] - 1 by {
            if v < n {
                let u = choose|u: int|
                    0 <= u < n && g0.edge(u, v) && g0.layers_view()[u] as int == g0.layers_view()[
                        v] - 1;
                assert(self.edge(u, v) && self.layers_view()[u] as int == self.layers_view()[v]
                    - 1);
            } else {
                assert(tl > 0);
                if tl == floor {
                    let p = chain_parent->0 as int;
                    assert(Self::links(g0, md, chain_parent, tl, p));
                    assert(self.edge(p, n));
                    assert(self.layers_view()[p] as int == tl - 1);
                } else {
                    assert(has_clasher_at(g0, md, tl - 1));
                    let w = choose|w: int|
                        0 <= w < g0.n() && (#[trigger] g0.layers_view()[w]) as int == tl - 1
                            && g0.nodes_view()[w].clashes_with(md);
                    assert(Self::links(g0, md, chain_parent, tl, w));
                    assert(self.edge(w, n));
                }
            }
        }
        assert forall|i: int| 0 <= i < self.n() implies (#[trigger] self.layers_view()[i]) as int
            <= i by {
            if i < n {
                assert(self.layers_view()[i] == g0.layers_view()[i]);
            }
        }
    }
}

impl DependencyGraph {
    /// Registers one unit by conflict analysis alone.
    pub fn add_system(&mut self, metadata: SystemMetadata) -> (idx: usize)
        requires
            old(self).wf(),
            old(self).n() < u32::MAX,
        ensures
            final(self).wf(),
            idx == old(self).n(),
            final(self).n() == old(self).n() + 1,
            final(self).nodes_view() == old(self).nodes_view().push(metadata),
            forall|i: int|
                0 <= i < old(self).n() ==> final(self).layers_view()[i] == old(self).layers_view()[i],
            forall|u: int, v: int|
                0 <= u < old(self).n() && 0 <= v < old(self).n() ==> (final(self).edge(u, v)
                    <==> old(self).edge(u, v)),
            forall|u: int|
                0 <= u < old(self).n() && final(self).edge(u, idx as int) ==> old(self).nodes_view()[
                    u
                ].clashes_with(metadata),
            forall|u: int|
                0 <= u < old(self).n() && old(self).layers_view()[u]
                    < final(self).layers_view()[idx as int] && old(self).nodes_view()[
                    u
                ].clashes_with(metadata) ==> final(self).edge(u, idx as int),
            (forall|j: int|
                0 <= j < old(self).n() ==> !old(self).nodes_view()[j].clashes_with(metadata))
                ==> final(self).layers_view()[idx as int] == 0,
            forall|l: int|
                0 <= l < final(self).layers_view()[idx as int] ==> has_clasher_at(
                    *old(self),
                    metadata,
                    l,
                ),
            old(self).conflict_edges_only() ==> final(self).conflict_edges_only(),
            forall|v: int| !final(self).edge(idx as int, v),
    {
        let ghost pre = *self;
        let idx = self.check_indegree_and_insert(metadata, None);
        proof {
            if pre.conflict_edges_only() {
                assert forall|u: int, v: int| #[trigger]
                    self.edge(u, v) implies self.clash_at(u, v) by {
                    assert(0 <= u < self.n());
                    assert(u < pre.n());
                    if v < pre.n() {
                        assert(pre.edge(u, v));
                        assert(pre.clash_at(u, v));
                        assert(self.nodes_view()[u] == pre.nodes_view()[u]);
                        assert(self.nodes_view()[v] == pre.nodes_view()[v]);
                    } else {
                        assert(self.edge_lists()[u]@.contains(v as usize));
                        let k = choose|k: int|
                            0 <= k < self.edge_lists()[u]@.len() && #[trigger] self.edge_lists()[
                                u
                            ]@[k] == v as usize;
                        assert(v < self.n());
                        assert(v == pre.n());
                        assert(pre.nodes_view()[u].clashes_with(metadata));
                        assert(self.nodes_view()[v] == metadata);
                    }
                }
            }
        }
        idx
    }

    /// Registers an explicitly ordered chain: each unit is placed by
    /// conflict analysis, then additionally forced to wait on its chain
    /// predecessor, so the chain executes in declared order in every cycle.
    pub fn add_dependent_systems(&mut self, metadatas: Vec<SystemMetadata>) -> (idxs: Vec<usize>)
        requires
            old(self).wf(),
            metadatas@.len() > 1,
            old(self).n() + metadatas@.len() <= u32::MAX,
        ensures
            final(self).wf(),
            final(self).n() == old(self).n() + metadatas@.len(),
            idxs@.len() == metadatas@.len(),
            forall|k: int| 0 <= k < idxs@.len() ==> (#[trigger] idxs@[k]) as int == old(self).n() + k,
            forall|k: int|
                0 <= k < idxs@.len() - 1 ==> final(self).edge(
                    (#[trigger] idxs@[k]) as int,
                    idxs@[k + 1] as int,
                ),
            forall|i: int|
                0 <= i < old(self).n() ==> final(self).layers_view()[i] == old(self).layers_view()[i],
    {
        let ghost n0 = self.n();
        let ghost all = metadatas@;
        let ghost initial = *self;
        let total = metadatas.len();
        let mut mds = metadatas;
        let mut idxs: Vec<usize> = Vec::new();
        let mut first = true;
        let mut prev: usize = 0;
        while mds.len() > 0
            invariant
                self.wf(),
                mds@.len() + idxs@.len() == total,
                total == all.len(),
                1 < total,
                n0 + total <= u32::MAX,
                n0 == initial.n(),
                self.n() == n0 + idxs@.len(),
                forall|k: int| 0 <= k < idxs@.len() ==> (#[trigger] idxs@[k]) as int == n0 + k,
                forall|k: int|
                    0 <= k < idxs@.len() - 1 ==> self.edge(
                        (#[trigger] idxs@[k]) as int,
                        idxs@[k + 1] as int,
                    ),
                first <==> idxs@.len() == 0,
                !first ==> prev as int == self.n() - 1,
                forall|i: int| 0 <= i < n0 ==> self.layers_view()[i] == initial.layers_view()[i],
            decreases mds@.len(),
        {
            let md = mds.remove(0);
            let ghost before = *self;
            let idx = if first {
                self.check_indegree_and_insert(md, None)
            } else {
                self.check_indegree_and_insert(md, Some(prev))
            };
            proof {
                assert forall|k: int|
                    0 <= k < idxs@.len() - 1 implies self.edge(
                    (#[trigger] idxs@[k]) as int,
                    idxs@[k + 1] as int,
                ) by {
                    assert(before.edge(idxs@[k] as int, idxs@[k + 1] as int));
                }
            }
            idxs.push(idx);
            first = false;
            prev = idx;
        }
        idxs
    }

    /// Law: units with clashing descriptors are never assigned to the same
    /// layer, whatever insertion order built the graph.
    pub proof fn lemma_clashing_units_never_share_layer(self, i: int, j: int)
        requires
            self.wf(),
            0 <= i < self.n(),
            0 <= j < self.n(),
            i != j,
            self.clash_at(i, j),
        ensures
            self.layers_view()[i] != self.layers_view()[j],
    {
    }

    /// Law: an ordering edge always runs its source in a strictly earlier
    /// layer than its target, so across every cycle the target never begins
    /// before the source completes.
    pub proof fn lemma_edge_runs_in_earlier_layer(self, u: int, v: int)
        requires
            self.wf(),
            0 <= u < self.n(),
            0 <= v < self.n(),
            self.edge(u, v),
        ensures
            self.layers_view()[u] < self.layers_view()[v],
    {
        let k = choose|k: int|
            0 <= k < self.edge_lists()[u]@.len() && #[trigger] self.edge_lists()[u]@[k]
                == v as usize;
        assert(self.layers_view()[self.edge_lists()[u]@[k] as int] > self.layers_view()[u]);
    }

    /// Law: if no pair among the registered units clashes and no explicit
    /// ordering chain was used, every unit sits in the single first layer.
    pub proof fn lemma_no_clashes_single_layer(self)
        requires
            self.wf(),
            self.conflict_edges_only(),
            forall|i: int, j: int|
                0 <= i < self.n() && 0 <= j < self.n() && i != j ==> !self.clash_at(i, j),
        ensures
            forall|i: int| 0 <= i < self.n() ==> self.layers_view()[i] == 0,
    {
        assert forall|i: int| 0 <= i < self.n() implies self.layers_view()[i] == 0 by {
            if self.layers_view()[i] > 0 {
                let u = choose|u: int|
                    0 <= u < self.n() && self.edge(u, i) && self.layers_view()[u] as int
                        == self.layers_view()[i] - 1;
                assert(self.clash_at(u, i));
                self.lemma_edge_runs_in_earlier_layer(u, i);
                assert(u != i);
            }
        }
    }

    /// How many layers the graph currently spans.
    pub fn layer_count(&self) -> (r: u32)
        requires
            self.wf(),
        ensures
            r as int == max_layer_upto(self.layers_view(), self.n()) + 1,
            forall|i: int| 0 <= i < self.n() ==> (#[trigger] self.layers_view()[i]) < r,
    {
        let mut m: u32 = 0;
        let mut i: usize = 0;
        while i < self.layers.len()
            invariant
                self.wf(),
                0 <= i <= self.n(),
                m as int == max_layer_upto(self.layers_view(), i as int) + 1,
                forall|w: int| 0 <= w < i ==> (#[trigger] self.layers_view()[w]) < m,
            decreases self.n() - i,
        {
            if self.layers[i] >= m {
                m = self.layers[i] + 1;
            }
            i += 1;
        }
        m
    }

    /// The nodes assigned to one layer, in insertion order.
    pub fn nodes_at_layer(&self, lay: u32) -> (r: Vec<usize>)
        requires
            self.wf(),
        ensures
            forall|k: int|
                0 <= k < r@.len() ==> (#[trigger] r@[k]) < self.n() && self.layers_view()[
                    r@[k] as int] == lay,
            forall|i: int|
                0 <= i < self.n() && (#[trigger] self.layers_view()[i]) == lay ==> r@.contains(
                    i as usize,
                ),
            forall|k1: int, k2: int| 0 <= k1 < k2 < r@.len() ==> r@[k1] < r@[k2],
    {
        let mut out: Vec<usize> = Vec::new();
        let mut i: usize = 0;
        while i < self.layers.len()
            invariant
                self.wf(),
                0 <= i <= self.n(),
                forall|k: int|
                    0 <= k < out@.len() ==> (#[trigger] out@[k]) < i && self.layers_view()[
                        out@[k] as int] == lay,
                forall|w: int|
                    0 <= w < i && (#[trigger] self.layers_view()[w]) == lay ==> out@.contains(
                        w as usize,
                    ),
                forall|k1: int, k2: int| 0 <= k1 < k2 < out@.len() ==> out@[k1] < out@[k2],
            decreases self.n() - i,
        {
            if self.layers[i] == lay {
                let ghost prefix = out@;
                out.push(i);
                proof {
                    assert forall|w: int|
                        0 <= w < i + 1 && (#[trigger] self.layers_view()[w]) == lay
                        implies out@.contains(w as usize) by {
                        if w < i {
                            let k = choose|k: int|
                                0 <= k < prefix.len() && #[trigger] prefix[k] == w as usize;
                            assert(out@[k] == w as usize);
                        } else {
                            assert(out@[out@.len() - 1] == w as usize);
                        }
                    }
                }
            }
            i += 1;
        }
        out
    }

    /// The full per-cycle execution plan: layer by layer, each node exactly
    /// once, clashing nodes never sharing a group, and every ordering edge
    /// crossing from an earlier group to a later one.
    pub fn execution_layers(&self) -> (r: Vec<Vec<usize>>)
        requires
            self.wf(),
        ensures
            forall|i: int|
                0 <= i < self.n() ==> (#[trigger] self.layers_view()[i]) < r@.len() && r@[
                    self.layers_view()[i] as int]@.contains(i as usize),
            forall|k: int, p: int|
                0 <= k < r@.len() && 0 <= p < r@[k]@.len() ==> (#[trigger] r@[k]@[p]) < self.n()
                    && self.layers_view()[r@[k]@[p] as int] == k,
            forall|k: int, p1: int, p2: int|
                0 <= k < r@.len() && 0 <= p1 < r@[k]@.len() && 0 <= p2 < r@[k]@.len() && p1 != p2
                    ==> !self.clash_at(r@[k]@[p1] as int, r@[k]@[p2] as int),
    {
        let count = self.layer_count();
        let mut groups: Vec<Vec<usize>> = Vec::new();
        let mut lay: u32 = 0;
        while lay < count
            invariant
                self.wf(),
                forall|i: int| 0 <= i < self.n() ==> (#[trigger] self.layers_view()[i]) < count,
                0 <= lay <= count,
                groups@.len() == lay,
                forall|k: int, p: int|
                    0 <= k < groups@.len() && 0 <= p < groups@[k]@.len() ==> (
                    #[trigger] groups@[k]@[p]) < self.n() && self.layers_view()[
                        groups@[k]@[p] as int] == k,
                forall|i: int|
                    0 <= i < self.n() && (#[trigger] self.layers_view()[i]) < lay ==> groups@[
                        self.layers_view()[i] as int]@.contains(i as usize),
                forall|k: int, p1: int, p2: int|
                    0 <= k < groups@.len() && 0 <= p1 < groups@[k]@.len() && 0 <= p2 < groups@[
                        k
                    ]@.len() && p1 != p2 ==> groups@[k]@[p1] != groups@[k]@[p2],
            decreases count - lay,
        {
            let members = self.nodes_at_layer(lay);
            groups.push(members);
            lay = lay + 1;
        }
        proof {
            assert forall|k: int, p1: int, p2: int|
                0 <= k < groups@.len() && 0 <= p1 < groups@[k]@.len() && 0 <= p2 < groups@[
                    k
                ]@.len() && p1 != p2 implies !self.clash_at(
                groups@[k]@[p1] as int,
                groups@[k]@[p2] as int,
            ) by {
                let a = groups@[k]@[p1] as int;
                let b = groups@[k]@[p2] as int;
                assert(self.layers_view()[a] == k && self.layers_view()[b] == k);
                assert(groups@[k]@[p1] != groups@[k]@[p2]);
            }
        }
        groups
    }
}

/// The greatest layer among the first `n` nodes, or -1 of none.
pub open spec fn max_layer_upto(layers: Seq<u32>, n: int) -> int
    decreases n,
{
    if n <= 0 {
        -1
    } else {
        let m = max_layer_upto(layers, n - 1);
        if layers[n - 1] as int > m {
            layers[n - 1] as int
        } else {
            m
        }
    }
}

/// How many of the first `u` adjacency lists carry an edge into `v` from a
/// node still waiting at round `k`: nodes before the boundary `b` have
/// already run their round-`k` frontier, so only their layers `> k` count.
pub open spec fn waiting_count_upto(
    e: Seq<Vec<usize>>,
    layers: Seq<u32>,
    v: usize,
    k: int,
    b: int,
    u: int,
) -> nat
    decreases u,
{
    if u <= 0 {
        0
    } else {
        waiting_count_upto(e, layers, v, k, b, u - 1) + if e[u - 1]@.contains(v) && (if u - 1 < b {
            layers[u - 1] as int >= k + 1
        } else {
            layers[u - 1] as int >= k
        }) {
            1nat
        } else {
            0nat
        }
    }
}

/// The indegree `v` still sees at round `k` with the boundary at `b`.
pub open spec fn waiting_count(e: Seq<Vec<usize>>, layers: Seq<u32>, v: usize, k: int, b: int) -> nat {
    waiting_count_upto(e, layers, v, k, b, e.len() as int)
}

proof fn lemma_wc_round_zero(e: Seq<Vec<usize>>, layers: Seq<u32>, v: usize, u: int)
    requires
        0 <= u <= e.len(),
    ensures
        waiting_count_upto(e, layers, v, 0, 0, u) == in_count_upto(e, v, u),
    decreases u,
{
    if u > 0 {
        lemma_wc_round_zero(e, layers, v, u - 1);
    }
}

proof fn lemma_wc_zero(e: Seq<Vec<usize>>, layers: Seq<u32>, v: usize, k: int, u: int)
    requires
        0 <= u <= e.len(),
        forall|w: int| 0 <= w < u && (#[trigger] e[w])@.contains(v) ==> (layers[w] as int) < k,
    ensures
        waiting_count_upto(e, layers, v, k, 0, u) == 0,
    decreases u,
{
    if u > 0 {
        lemma_wc_zero(e, layers, v, k, u - 1);
    }
}

proof fn lemma_wc_pos(e: Seq<Vec<usize>>, layers: Seq<u32>, v: usize, k: int, b: int, u0: int, u: int)
    requires
        0 <= b <= u0 < u <= e.len(),
        e[u0]@.contains(v),
        layers[u0] as int >= k,
    ensures
        waiting_count_upto(e, layers, v, k, b, u) >= 1,
    decreases u,
{
    if u - 1 > u0 {
        lemma_wc_pos(e, layers, v, k, b, u0, u - 1);
    }
}

proof fn lemma_wc_skip(e: Seq<Vec<usize>>, layers: Seq<u32>, v: usize, k: int, b1: int, b2: int, u: int)
    requires
        0 <= b1 <= b2,
        0 <= u <= e.len(),
        forall|w: int| b1 <= w < b2 ==> (#[trigger] layers[w]) as int != k,
    ensures
        waiting_count_upto(e, layers, v, k, b2, u) == waiting_count_upto(e, layers, v, k, b1, u),
    decreases u,
{
    if u > 0 {
        lemma_wc_skip(e, layers, v, k, b1, b2, u - 1);
    }
}

proof fn lemma_wc_step(e: Seq<Vec<usize>>, layers: Seq<u32>, v: usize, k: int, b: int, u: int)
    requires
        0 <= b < e.len(),
        0 <= u <= e.len(),
        layers[b] as int == k,
    ensures
        waiting_count_upto(e, layers, v, k, b, u) == waiting_count_upto(e, layers, v, k, b + 1, u)
            + if b < u && e[b]@.contains(v) {
            1nat
        } else {
            0nat
        },
    decreases u,
{
    if u > 0 {
        lemma_wc_step(e, layers, v, k, b, u - 1);
    }
}

proof fn lemma_wc_next_round(e: Seq<Vec<usize>>, layers: Seq<u32>, v: usize, k: int, u: int)
    requires
        0 <= u <= e.len(),
    ensures
        waiting_count_upto(e, layers, v, k, e.len() as int, u) == waiting_count_upto(
            e,
            layers,
            v,
            k + 1,
            0,
            u,
        ),
    decreases u,
{
    if u > 0 {
        lemma_wc_next_round(e, layers, v, k, u - 1);
    }
}

/// Per-cycle execution state of a graph: which nodes already ran this cycle
/// and how many of each node's ordering predecessors still have to run.
pub struct CycleState {
    remaining: Vec<usize>,
    visited: Vec<bool>,
    round: u32,
}

impl CycleState {
    pub closed spec fn remaining_view(self) -> Seq<usize> {
        self.remaining@
    }

    pub closed spec fn visited_view(self) -> Seq<bool> {
        self.visited@
    }

    pub closed spec fn round_spec(self) -> u32 {
        self.round
    }
}

impl DependencyGraph {
    /// The state in which a cycle's frontier walk stands before round `k`:
    /// exactly the nodes of earlier layers have run, and each node's count
    /// records its ordering predecessors that have not.
    pub open spec fn cycle_inv(self, st: CycleState) -> bool {
        &&& st.remaining_view().len() == self.n()
        &&& st.visited_view().len() == self.n()
        &&& forall|v: int|
            0 <= v < self.n() ==> ((#[trigger] st.visited_view()[v]) <==> (self.layers_view()[v]
                as int) < st.round_spec() as int)
        &&& forall|v: int|
            0 <= v < self.n() ==> (#[trigger] st.remaining_view()[v]) == waiting_count(
                self.edge_lists(),
                self.layers_view(),
                v as usize,
                st.round_spec() as int,
                0,
            )
    }

    /// Starts a cycle: nothing has run and every node still waits on its
    /// full indegree.
    pub fn begin_cycle(&self) -> (st: CycleState)
        requires
            self.wf(),
        ensures
            self.cycle_inv(st),
            st.round_spec() == 0,
    {
        let n = self.nodes.len();
        let mut remaining: Vec<usize> = Vec::new();
        let mut visited: Vec<bool> = Vec::new();
        let mut i: usize = 0;
        while i < n
            invariant
                self.wf(),
                n == self.n(),
                0 <= i <= n,
                remaining@.len() == i,
                visited@.len() == i,
                forall|v: int| 0 <= v < i ==> !(#[trigger] visited@[v]),
                forall|v: int|
                    0 <= v < i ==> (#[trigger] remaining@[v]) == self.indegrees_view()[v],
            decreases n - i,
        {
            remaining.push(self.indegrees[i]);
            visited.push(false);
            i += 1;
        }
        let st = CycleState { remaining, visited, round: 0 };
        proof {
            assert forall|v: int|
                0 <= v < self.n() implies (#[trigger] st.remaining_view()[v]) == waiting_count(
                self.edge_lists(),
                self.layers_view(),
                v as usize,
                0,
                0,
            ) by {
                lemma_wc_round_zero(
                    self.edge_lists(),
                    self.layers_view(),
                    v as usize,
                    self.n(),
                );
            }
        }
        st
    }

    /// Whether every node has run this cycle.
    pub fn cycle_complete(&self, st: &CycleState) -> (r: bool)
        requires
            self.wf(),
            self.cycle_inv(*st),
        ensures
            r == (forall|v: int| 0 <= v < self.n() ==> #[trigger] st.visited_view()[v]),
    {
        let count = self.layer_count();
        if st.round >= count {
            proof {
                assert forall|v: int| 0 <= v < self.n() implies #[trigger] st.visited_view()[v] by {
                    assert(self.layers_view()[v] < count);
                }
            }
            true
        } else {
            proof {
                if self.n() > 0 && st.round < count {
                    let l = st.round_spec() as int;
                    if forall|v: int| 0 <= v < self.n() ==> #[trigger] st.visited_view()[v] {
                        assert(max_layer_upto(self.layers_view(), self.n()) + 1 == count);
                        self.lemma_max_layer_is_reached(self.n());
                        let w = choose|w: int|
                            0 <= w < self.n() && (#[trigger] self.layers_view()[w]) as int
                                == max_layer_upto(self.layers_view(), self.n());
                        assert(st.visited_view()[w]);
                    }
                }
            }
            false
        }
    }

    proof fn lemma_max_layer_is_reached(self, u: int)
        requires
            0 < u <= self.n(),
            self.layers_view().len() == self.n(),
        ensures
            exists|w: int|
                0 <= w < u && (#[trigger] self.layers_view()[w]) as int == max_layer_upto(
                    self.layers_view(),
                    u,
                ),
        decreases u,
    {
        let layers = self.layers_view();
        if u == 1 {
            assert(max_layer_upto(layers, 0) == -1);
            assert(max_layer_upto(layers, 1) == layers[0] as int);
        } else if max_layer_upto(layers, u) == layers[u - 1] as int {
        } else {
            assert(max_layer_upto(layers, u) == max_layer_upto(layers, u - 1));
            self.lemma_max_layer_is_reached(u - 1);
        }
    }

    /// One executor step of a cycle: the frontier of nodes with no ordering
    /// predecessor left is collected and marked as run, and each frontier
    /// node's successors have their counts decremented. The frontier is
    /// exactly the current layer of the graph.
    pub fn next_frontier(&self, st: &mut CycleState) -> (frontier: Vec<usize>)
        requires
            self.wf(),
            self.cycle_inv(*old(st)),
            old(st).round_spec() < u32::MAX,
        ensures
            self.cycle_inv(*final(st)),
            final(st).round_spec() == old(st).round_spec() + 1,
            forall|k: int|
                0 <= k < frontier@.len() ==> (#[trigger] frontier@[k]) < self.n()
                    && self.layers_view()[frontier@[k] as int] == old(st).round_spec(),
            forall|i: int|
                0 <= i < self.n() && (#[trigger] self.layers_view()[i]) == old(st).round_spec()
                    ==> frontier@.contains(i as usize),
            forall|k1: int, k2: int| 0 <= k1 < k2 < frontier@.len() ==> frontier@[k1] < frontier@[k2],
    {
        let n = self.nodes.len();
        let lay = st.round;
        let ghost e = self.edge_lists();
        let ghost layers = self.layers_view();
        let ghost k = lay as int;
        // Collect and mark the frontier: unvisited nodes whose every
        // ordering predecessor has completed.
        let mut frontier: Vec<usize> = Vec::new();
        let mut u: usize = 0;
        while u < n
            invariant
                self.wf(),
                n == self.n(),
                k == lay as int,
                e == self.edge_lists(),
                layers == self.layers_view(),
                0 <= u <= n,
                st.round_spec() == lay,
                st.remaining_view().len() == n,
                st.visited_view().len() == n,
                forall|v: int|
                    0 <= v < n ==> (#[trigger] st.remaining_view()[v]) == waiting_count(
                        e,
                        layers,
                        v as usize,
                        k,
                        0,
                    ),
                forall|v: int|
                    0 <= v < n ==> ((#[trigger] st.visited_view()[v]) <==> ((layers[v] as int) < k
                        || (v < u && layers[v] as int == k))),
                forall|p: int|
                    0 <= p < frontier@.len() ==> (#[trigger] frontier@[p]) < u && layers[
                        frontier@[p] as int] == lay,
                forall|w: int|
                    0 <= w < u && (#[trigger] layers[w]) == lay ==> frontier@.contains(w as usize),
                forall|p1: int, p2: int|
                    0 <= p1 < p2 < frontier@.len() ==> frontier@[p1] < frontier@[p2],
            decreases n - u,
        {
            let was_visited = st.visited[u];
            let rem_here = st.remaining[u];
            proof {
                if !was_visited {
                    assert(layers[u as int] as int >= k);
                    if layers[u as int] as int == k {
                        assert forall|w: int|
                            0 <= w < n && (#[trigger] e[w])@.contains(u) implies (layers[w] as int) < k by {
                            let kk = choose|kk: int|
                                0 <= kk < e[w]@.len() && #[trigger] e[w]@[kk] == u;
                            assert(layers[e[w]@[kk] as int] > layers[w]);
                        }
                        lemma_wc_zero(e, layers, u, k, n as int);
                    } else {
                        let w0 = choose|w0: int|
                            0 <= w0 < n && self.edge(w0, u as int) && layers[w0] as int == layers[
                                u as int] - 1;
                        lemma_wc_pos(e, layers, u, k, 0, w0, n as int);
                    }
                }
            }
            if !was_visited && rem_here == 0 {
                let ghost prefix = frontier@;
                frontier.push(u);
                st.visited[u] = true;
                proof {
                    assert forall|w: int|
                        0 <= w < u + 1 && (#[trigger] layers[w]) == lay
                        implies frontier@.contains(w as usize) by {
                        if w < u {
                            let p = choose|p: int|
                                0 <= p < prefix.len() && #[trigger] prefix[p] == w as usize;
                            assert(frontier@[p] == w as usize);
                        } else {
                            assert(frontier@[frontier@.len() - 1] == w as usize);
                        }
                    }
                }
            }
            u += 1;
        }
        // Advance past the barrier: every frontier node's successors see
        // one ordering predecessor fewer.
        let f_len = frontier.len();
        let mut t: usize = 0;
        while t < f_len
            invariant
                self.wf(),
                n == self.n(),
                k == lay as int,
                e == self.edge_lists(),
                layers == self.layers_view(),
                0 <= t <= f_len,
                f_len == frontier@.len(),
                st.round_spec() == lay,
                st.remaining_view().len() == n,
                st.visited_view().len() == n,
                forall|v: int|
                    0 <= v < n ==> ((#[trigger] st.visited_view()[v]) <==> (layers[v] as int) < k + 1),
                forall|p: int|
                    0 <= p < f_len ==> (#[trigger] frontier@[p]) < n && layers[frontier@[p] as int]
                        == lay,
                forall|w: int|
                    0 <= w < n && (#[trigger] layers[w]) == lay ==> frontier@.contains(w as usize),
                forall|p1: int, p2: int|
                    0 <= p1 < p2 < f_len ==> frontier@[p1] < frontier@[p2],
                forall|v: int|
                    0 <= v < n ==> (#[trigger] st.remaining_view()[v]) == waiting_count(
                        e,
                        layers,
                        v as usize,
                        k,
                        if t == 0 {
                            0int
                        } else {
                            frontier@[t - 1] as int + 1
                        },
                    ),
            decreases f_len - t,
        {
            let f = frontier[t];
            let ghost b_old: int = if t == 0 { 0int } else { frontier@[t - 1] as int + 1 };
            proof {
                // Boundary advance over nodes of other layers changes no
                // count; crossing the frontier node itself moves each of
                // its successors' counts down by one.
                assert(b_old <= f as int) by {
                    if t > 0 {
                        assert(frontier@[t - 1] < frontier@[t as int]);
                    }
                }
                assert forall|w: int| b_old <= w < f as int implies (#[trigger] layers[w]) as int
                    != k by {
                    if layers[w] == lay {
                        assert(frontier@.contains(w as usize));
                        let p = choose|p: int|
                            0 <= p < f_len && #[trigger] frontier@[p] == w as usize;
                        if p <= t - 1 {
                            assert(frontier@[p] <= frontier@[t - 1]);
                        } else {
                            assert(frontier@[t as int] <= frontier@[p]);
                        }
                    }
                }
                assert forall|v: int|
                    0 <= v < n implies (#[trigger] st.remaining_view()[v]) == waiting_count(
                    e,
                    layers,
                    v as usize,
                    k,
                    f as int,
                ) by {
                    lemma_wc_skip(e, layers, v as usize, k, b_old, f as int, n as int);
                }
            }
            let m = self.graph_edges[f].len();
            let ghost succs = self.edge_lists()[f as int]@;
            let mut j: usize = 0;
            while j < m
                invariant
                    self.wf(),
                    n == self.n(),
                    k == lay as int,
                    e == self.edge_lists(),
                    layers == self.layers_view(),
                    f < n,
                    layers[f as int] == lay,
                    succs == e[f as int]@,
                    m == succs.len(),
                    0 <= j <= m,
                    st.round_spec() == lay,
                    st.remaining_view().len() == n,
                    st.visited_view().len() == n,
                    forall|v: int|
                        0 <= v < n ==> ((#[trigger] st.visited_view()[v]) <==> (layers[v] as int) < k + 1),
                    forall|v: int|
                        0 <= v < n && !succs.take(j as int).contains(v as usize) ==> (
                        #[trigger] st.remaining_view()[v]) == waiting_count(
                            e,
                            layers,
                            v as usize,
                            k,
                            f as int,
                        ),
                    forall|v: int|
                        0 <= v < n && succs.take(j as int).contains(v as usize) ==> (
                        #[trigger] st.remaining_view()[v]) + 1 == waiting_count(
                            e,
                            layers,
                            v as usize,
                            k,
                            f as int,
                        ),
                decreases m - j,
            {
                let v = self.graph_edges[f][j];
                proof {
                    assert(succs[j as int] == v);
                    assert(!succs.take(j as int).contains(v)) by {
                        if succs.take(j as int).contains(v) {
                            let p = choose|p: int|
                                0 <= p < j && #[trigger] succs.take(j as int)[p] == v;
                            assert(succs[p] == succs[j as int]);
                        }
                    }
                    lemma_wc_pos(e, layers, v, k, f as int, f as int, n as int);
                    assert(succs.take(j + 1) =~= succs.take(j as int).push(v));
                    assert forall|v2: usize|
                        #![trigger succs.take(j as int).contains(v2)]
                        succs.take(j as int).contains(v2) implies succs.take(j + 1).contains(
                        v2,
                    ) by {
                        let p = choose|p: int|
                            0 <= p < j && #[trigger] succs.take(j as int)[p] == v2;
                        assert(succs.take(j + 1)[p] == v2);
                    }
                    assert forall|v2: usize|
                        #![trigger succs.take(j + 1).contains(v2)]
                        succs.take(j + 1).contains(v2) && v2 != v implies succs.take(
                        j as int,
                    ).contains(v2) by {
                        let p = choose|p: int|
                            0 <= p < j + 1 && #[trigger] succs.take(j + 1)[p] == v2;
                        assert(p != j);
                        assert(succs.take(j as int)[p] == v2);
                    }
                }
                let cur = st.remaining[v];
                st.remaining[v] = cur - 1;
                proof {
                    assert(succs.take(j + 1).contains(v)) by {
                        assert(succs.take(j + 1)[j as int] == v);
                    }
                    assert forall|v2: int|
                        0 <= v2 < n && !succs.take(j + 1).contains(v2 as usize) implies (
                        #[trigger] st.remaining_view()[v2]) == waiting_count(
                        e,
                        layers,
                        v2 as usize,
                        k,
                        f as int,
                    ) by {
                        assert(v2 as usize != v);
                        assert(!succs.take(j as int).contains(v2 as usize));
                    }
                    assert forall|v2: int|
                        0 <= v2 < n && succs.take(j + 1).contains(v2 as usize) implies (
                        #[trigger] st.remaining_view()[v2]) + 1 == waiting_count(
                        e,
                        layers,
                        v2 as usize,
                        k,
                        f as int,
                    ) by {
                        if v2 as usize == v {
                        } else {
                            assert(succs.take(j as int).contains(v2 as usize));
                        }
                    }
                }
                j += 1;
            }
            proof {
                assert forall|v: int|
                    0 <= v < n implies (#[trigger] st.remaining_view()[v]) == waiting_count(
                    e,
                    layers,
                    v as usize,
                    k,
                    f as int + 1,
                ) by {
                    lemma_wc_step(e, layers, v as usize, k, f as int, n as int);
                    if succs.contains(v as usize) {
                        assert(succs.take(m as int) =~= succs);
                        assert(e[f as int]@.contains(v as usize));
                    } else {
                        assert(succs.take(m as int) =~= succs);
                        assert(!e[f as int]@.contains(v as usize));
                    }
                }
            }
            t += 1;
        }
        proof {
            let b_final: int = if f_len == 0 { 0int } else { frontier@[f_len - 1] as int + 1 };
            assert forall|w: int| b_final <= w < n implies (#[trigger] layers[w]) as int != k by {
                if layers[w] == lay {
                    assert(frontier@.contains(w as usize));
                    let p = choose|p: int| 0 <= p < f_len && #[trigger] frontier@[p] == w as usize;
                    assert(frontier@[p] <= frontier@[f_len - 1]);
                }
            }
            assert forall|v: int|
                0 <= v < n implies (#[trigger] st.remaining_view()[v]) == waiting_count(
                e,
                layers,
                v as usize,
                k + 1,
                0,
            ) by {
                lemma_wc_skip(e, layers, v as usize, k, b_final, n as int, n as int);
                lemma_wc_next_round(e, layers, v as usize, k, n as int);
            }
        }
        st.round = st.round + 1;
        frontier
    }
}

} // verus!
