//! A directed graph over integer node ids with topological sort and cycle
//! detection, the scheduling core behind gate compilation.

use vstd::prelude::*;

verus! {

/// Sorting fails exactly when the graph holds a directed cycle.
#[derive(Debug)]
pub enum GraphError {
    Cycle,
}

struct GraphNode {
    id: i64,
    next: Vec<i64>,
}

/// A directed graph; an edge `(a, b)` means `a` must be ordered before `b`.
pub struct Graph {
    nodes: Vec<GraphNode>,
}

impl Graph {
    /// The node ids, in insertion order.
    pub closed spec fn node_ids(&self) -> Seq<i64> {
        Seq::new(self.nodes@.len(), |i: int| self.nodes@[i].id)
    }

    /// Whether the edge `(a, b)` was added: `a` is ordered before `b`.
    pub closed spec fn edge(&self, a: i64, b: i64) -> bool {
        exists|i: int|
            0 <= i < self.nodes@.len() && (#[trigger] self.nodes@[i]).id == a
                && self.nodes@[i].next@.contains(b)
    }

    /// Node ids are distinct and edges lead to declared nodes.
    pub closed spec fn wf(&self) -> bool {
        &&& forall|i: int, j: int|
            0 <= i < self.nodes@.len() && 0 <= j < self.nodes@.len() && (#[trigger] self.nodes@[i]).id
                == (#[trigger] self.nodes@[j]).id ==> i == j
        &&& forall|i: int, e: int|
            0 <= i < self.nodes@.len() && 0 <= e < self.nodes@[i].next@.len()
                ==> self.node_ids().contains(#[trigger] self.nodes@[i].next@[e])
    }

    pub fn new() -> (r: Self)
        ensures
            r.wf(),
            r.node_ids() == Seq::<i64>::empty(),
            forall|a: i64, b: i64| !r.edge(a, b),
    {
        let r = Graph { nodes: Vec::new() };
        proof {
            assert(r.node_ids() =~= Seq::<i64>::empty());
        }
        r
    }

    fn position_of(&self, id: i64) -> (r: Option<usize>)
        ensures
            match r {
                Some(p) => p < self.nodes@.len() && self.nodes@[p as int].id == id,
                None => !self.node_ids().contains(id),
            },
    {
        let n = self.nodes.len();
        let mut i: usize = 0;
        while i < n
            invariant
                i <= n,
                n == self.nodes@.len(),
                forall|j: int| 0 <= j < i ==> (#[trigger] self.nodes@[j]).id != id,
            decreases n - i,
        {
            if self.nodes[i].id == id {
                return Some(i);
            }
            i = i + 1;
        }
        proof {
            if self.node_ids().contains(id) {
                let j = choose|j: int|
                    0 <= j < self.node_ids().len() && self.node_ids()[j] == id;
                assert(self.nodes@[j].id == id);
            }
        }
        None
    }

    /// Declares the node `i`; redeclaring it drops the edges leaving it.
    pub fn add_node(&mut self, i: i64)
        requires
            old(self).wf(),
        ensures
            final(self).wf(),
            final(self).node_ids().contains(i),
            old(self).node_ids().contains(i) ==> final(self).node_ids() == old(self).node_ids(),
            !old(self).node_ids().contains(i) ==> final(self).node_ids() == old(
                self,
            ).node_ids().push(i),
            forall|a: i64, b: i64|
                #[trigger] final(self).edge(a, b) == (old(self).edge(a, b) && a != i),
    {
        let ghost v0 = self.nodes@;
        let node = GraphNode { id: i, next: Vec::new() };
        match self.position_of(i) {
            Some(p) => {
                let _ = self.nodes.remove(p);
                self.nodes.insert(p, node);
                proof {
                    assert(self.nodes@ =~= v0.update(p as int, self.nodes@[p as int]));
                    assert(final(self).node_ids() =~= old(self).node_ids());
                    assert(old(self).node_ids()[p as int] == i);
                    assert(final(self).node_ids()[p as int] == i);
                    assert forall|a: i64, b: i64| #[trigger]
                        final(self).edge(a, b) == (old(self).edge(a, b) && a != i) by {
                        if final(self).edge(a, b) {
                            let q = choose|q: int|
                                0 <= q < self.nodes@.len() && (#[trigger] self.nodes@[q]).id == a
                                    && self.nodes@[q].next@.contains(b);
                            assert(q != p);
                            assert(v0[q] == self.nodes@[q]);
                            assert(v0[q].id == v0[p as int].id ==> q == p);
                        }
                        if old(self).edge(a, b) && a != i {
                            let q = choose|q: int|
                                0 <= q < v0.len() && (#[trigger] v0[q]).id == a
                                    && v0[q].next@.contains(b);
                            assert(q != p);
                            assert(self.nodes@[q] == v0[q]);
                        }
                    }
                }
            },
            None => {
                self.nodes.push(node);
                proof {
                    assert(final(self).node_ids() =~= old(self).node_ids().push(i));
                    assert(final(self).node_ids().contains(i)) by {
                        assert(final(self).node_ids()[v0.len() as int] == i);
                    }
                    assert forall|a: i64, b: i64| #[trigger]
                        final(self).edge(a, b) == (old(self).edge(a, b) && a != i) by {
                        if final(self).edge(a, b) {
                            let q = choose|q: int|
                                0 <= q < self.nodes@.len() && (#[trigger] self.nodes@[q]).id == a
                                    && self.nodes@[q].next@.contains(b);
                            if q < v0.len() {
                                assert(v0[q] == self.nodes@[q]);
                                if a == i {
                                    assert(old(self).node_ids()[q] == i);
                                }
                            }
                        }
                        if old(self).edge(a, b) && a != i {
                            let q = choose|q: int|
                                0 <= q < v0.len() && (#[trigger] v0[q]).id == a
                                    && v0[q].next@.contains(b);
                            assert(self.nodes@[q] == v0[q]);
                        }
                        if old(self).node_ids().contains(i) {
                            let q = choose|q: int|
                                0 <= q < old(self).node_ids().len() && old(self).node_ids()[q]
                                    == i;
                        }
                    }
                    assert forall|ii: int, e: int|
                        0 <= ii < self.nodes@.len() && 0 <= e < self.nodes@[ii].next@.len()
                        implies final(self).node_ids().contains(
                        #[trigger] self.nodes@[ii].next@[e],
                    ) by {
                        if ii < v0.len() {
                            assert(self.nodes@[ii] == v0[ii]);
                            assert(old(self).node_ids().contains(v0[ii].next@[e]));
                            let q = choose|q: int|
                                0 <= q < old(self).node_ids().len() && old(self).node_ids()[q]
                                    == v0[ii].next@[e];
                            assert(final(self).node_ids()[q] == v0[ii].next@[e]);
                        }
                    }
                    assert forall|ii: int, jj: int|
                        0 <= ii < self.nodes@.len() && 0 <= jj < self.nodes@.len()
                        && (#[trigger] self.nodes@[ii]).id == (#[trigger] self.nodes@[jj]).id
                        implies ii == jj by {
                        if ii < v0.len() && jj < v0.len() {
                            assert(v0[ii] == self.nodes@[ii] && v0[jj] == self.nodes@[jj]);
                        } else if ii < v0.len() && jj == v0.len() {
                            assert(old(self).node_ids()[ii] == i);
                        } else if jj < v0.len() && ii == v0.len() {
                            assert(old(self).node_ids()[jj] == i);
                        }
                    }
                }
            },
        }
    }

    /// Adds the edge `(from, to)`: `from` must be ordered before `to`.
    /// Both ends must be declared nodes.
    pub fn add_edge(&mut self, from: i64, to: i64)
        requires
            old(self).wf(),
            old(self).node_ids().contains(from),
            old(self).node_ids().contains(to),
        ensures
            final(self).wf(),
            final(self).node_ids() == old(self).node_ids(),
            forall|a: i64, b: i64|
                #[trigger] final(self).edge(a, b) == (old(self).edge(a, b) || (a == from && b
                    == to)),
    {
        let ghost v0 = self.nodes@;
        proof {
            let q = choose|q: int|
                0 <= q < old(self).node_ids().len() && old(self).node_ids()[q] == from;
            assert(self.nodes@[q].id == from);
        }
        match self.position_of(from) {
            Some(p) => {
                let mut node = self.nodes.remove(p);
                node.next.push(to);
                self.nodes.insert(p, node);
                proof {
                    assert(self.nodes@.len() == v0.len());
                    assert(forall|j: int|
                        0 <= j < v0.len() && j != p ==> self.nodes@[j] == v0[j]);
                    assert(self.nodes@[p as int].id == v0[p as int].id);
                    assert(self.nodes@[p as int].next@ == v0[p as int].next@.push(to));
                    assert(final(self).node_ids() =~= old(self).node_ids());
                    assert forall|a: i64, b: i64| #[trigger]
                        final(self).edge(a, b) == (old(self).edge(a, b) || (a == from && b == to))
                        by {
                        if final(self).edge(a, b) {
                            let q = choose|q: int|
                                0 <= q < self.nodes@.len() && (#[trigger] self.nodes@[q]).id == a
                                    && self.nodes@[q].next@.contains(b);
                            if q != p {
                                assert(v0[q] == self.nodes@[q]);
                            } else {
                                if b != to {
                                    let e = choose|e: int|
                                        0 <= e < self.nodes@[p as int].next@.len()
                                            && self.nodes@[p as int].next@[e] == b;
                                    assert(v0[p as int].next@[e] == b);
                                    assert(v0[p as int].next@.contains(b));
                                }
                            }
                        }
                        if old(self).edge(a, b) {
                            let q = choose|q: int|
                                0 <= q < v0.len() && (#[trigger] v0[q]).id == a
                                    && v0[q].next@.contains(b);
                            if q != p {
                                assert(self.nodes@[q] == v0[q]);
                            } else {
                                let e = choose|e: int|
                                    0 <= e < v0[p as int].next@.len() && v0[p as int].next@[e]
                                        == b;
                                assert(self.nodes@[p as int].next@[e] == b);
                            }
                        }
                        if a == from && b == to {
                            assert(self.nodes@[p as int].next@.last() == to);
                            assert(self.nodes@[p as int].next@.contains(to));
                        }
                    }
                    assert forall|ii: int, e: int|
                        0 <= ii < self.nodes@.len() && 0 <= e < self.nodes@[ii].next@.len()
                        implies final(self).node_ids().contains(
                        #[trigger] self.nodes@[ii].next@[e],
                    ) by {
                        if ii != p {
                            assert(self.nodes@[ii] == v0[ii]);
                        } else {
                            if e < v0[p as int].next@.len() {
                                assert(self.nodes@[ii].next@[e] == v0[p as int].next@[e]);
                            } else {
                                assert(self.nodes@[ii].next@[e] == to);
                            }
                        }
                    }
                    assert forall|ii: int, jj: int|
                        0 <= ii < self.nodes@.len() && 0 <= jj < self.nodes@.len()
                        && (#[trigger] self.nodes@[ii]).id == (#[trigger] self.nodes@[jj]).id
                        implies ii == jj by {
                        assert(self.nodes@[ii].id == v0[ii].id);
                        assert(self.nodes@[jj].id == v0[jj].id);
                    }
                }
            },
            None => {
                proof {
                    assert(false);
                }
            },
        }
    }
}


/// Every element of `a` occurs in `b`.
pub open spec fn id_subset(a: Seq<i64>, b: Seq<i64>) -> bool {
    forall|x: i64| a.contains(x) ==> b.contains(x)
}

/// Every recorded element's successors already stand earlier in `res`:
/// the invariant that makes the reversed record a topological order.
pub open spec fn closed_record(g: &Graph, res: Seq<i64>) -> bool {
    forall|p: int, b: i64|
        0 <= p < res.len() && #[trigger] g.edge(res[p], b) ==> exists|q: int|
            0 <= q < p && res[q] == b
}

proof fn lemma_nodup_subset_le(a: Seq<i64>, b: Seq<i64>)
    requires
        a.no_duplicates(),
        id_subset(a, b),
    ensures
        a.len() <= b.len(),
{
    a.unique_seq_to_set();
    vstd::seq_lib::seq_to_set_is_finite(a);
    vstd::seq_lib::seq_to_set_is_finite(b);
    assert(a.to_set().subset_of(b.to_set())) by {
        assert forall|x: i64| a.to_set().contains(x) implies b.to_set().contains(x) by {
            assert(a.contains(x));
            assert(b.contains(x));
        }
    }
    vstd::set_lib::lemma_len_subset(a.to_set(), b.to_set());
    b.lemma_cardinality_of_set();
}

proof fn lemma_nodup_subset_missing_le(a: Seq<i64>, b: Seq<i64>, y: i64)
    requires
        a.no_duplicates(),
        b.no_duplicates(),
        id_subset(a, b),
        b.contains(y),
        !a.contains(y),
    ensures
        a.len() < b.len(),
{
    lemma_nodup_subset_le(a.push(y), b);
    assert(a.push(y).no_duplicates());
    assert forall|x: i64| a.push(y).contains(x) implies b.contains(x) by {
        if x != y {
            let q = choose|q: int| 0 <= q < a.push(y).len() && a.push(y)[q] == x;
            assert(a[q] == x);
            assert(a.contains(x));
        }
    }
}

fn vec_contains_id(v: &Vec<i64>, x: i64) -> (r: bool)
    ensures
        r == v@.contains(x),
{
    let n = v.len();
    let mut i: usize = 0;
    while i < n
        invariant
            i <= n,
            n == v@.len(),
            forall|j: int| 0 <= j < i ==> v@[j] != x,
        decreases n - i,
    {
        if v[i] == x {
            return true;
        }
        i = i + 1;
    }
    false
}

impl Graph {
    /// Invariants of one depth-first search state.
    spec fn search_inv(
        &self,
        results: Seq<i64>,
        visited: Seq<i64>,
        finished: Seq<i64>,
    ) -> bool {
        &&& visited.no_duplicates()
        &&& finished.no_duplicates()
        &&& results.no_duplicates()
        &&& id_subset(visited, self.node_ids())
        &&& id_subset(finished, visited)
        &&& (forall|x: i64| results.contains(x) <==> finished.contains(x))
        &&& closed_record(self, results)
    }

    fn dfs(
        &self,
        i: i64,
        results: &mut Vec<i64>,
        visited: &mut Vec<i64>,
        finished: &mut Vec<i64>,
        path: Ghost<Seq<i64>>,
    ) -> (r: bool)
        requires
            self.wf(),
            self.node_ids().contains(i),
            self.search_inv(old(results)@, old(visited)@, old(finished)@),
            forall|y: i64|
                path@.contains(y) <==> (old(visited)@.contains(y) && !old(finished)@.contains(y)),
            forall|j: int| 0 <= j < path@.len() - 1 ==> self.edge(#[trigger] path@[j], path@[j + 1]),
            path@.len() > 0 ==> self.edge(path@.last(), i),
        ensures
            self.search_inv(final(results)@, final(visited)@, final(finished)@),
            id_subset(old(visited)@, final(visited)@),
            id_subset(old(finished)@, final(finished)@),
            final(visited)@.contains(i),
            !r ==> final(finished)@.contains(i) || old(visited)@.contains(i),
            !r ==> forall|x: i64|
                (final(visited)@.contains(x) && !final(finished)@.contains(x)) <==> (old(
                    visited,
                )@.contains(x) && !old(finished)@.contains(x)),
            r ==> exists|cyc: Seq<i64>| is_cycle(self, cyc),
        decreases self.node_ids().len() - visited@.len(),
    {
        if vec_contains_id(visited, i) {
            return false;
        }
        visited.push(i);
        proof {
            assert(visited@.no_duplicates());
            assert(visited@.drop_last() == old(visited)@);
            assert forall|x: i64| old(visited)@.contains(x) implies visited@.contains(x) by {
                let q = choose|q: int| 0 <= q < old(visited)@.len() && old(visited)@[q] == x;
                assert(visited@[q] == x);
            }
            assert(visited@.last() == i);
            assert(visited@.contains(i));
        }
        let ghost path1 = path@.push(i);
        proof {
            assert(path1.last() == i);
            assert forall|j: int|
                0 <= j < path1.len() - 1 implies self.edge(#[trigger] path1[j], path1[j + 1]) by {
                if j < path@.len() - 1 {
                    assert(path1[j] == path@[j] && path1[j + 1] == path@[j + 1]);
                } else {
                    assert(j == path@.len() - 1);
                    assert(path1[j] == path@[j] && path@[j] == path@.last());
                    assert(path1[j + 1] == i);
                }
            }
            assert forall|y: i64|
                path1.contains(y) <==> (visited@.contains(y) && !finished@.contains(y)) by {
                if path1.contains(y) {
                    let q = choose|q: int| 0 <= q < path1.len() && path1[q] == y;
                    if q < path@.len() {
                        assert(path@[q] == y);
                        assert(path@.contains(y));
                    } else {
                        assert(y == i);
                    }
                }
                if path@.contains(y) {
                    let q = choose|q: int| 0 <= q < path@.len() && path@[q] == y;
                    assert(path1[q] == y);
                }
                if y == i {
                    assert(path1[path1.len() - 1] == y);
                    assert(!old(finished)@.contains(i));
                }
            }
        }
        let p = match self.position_of(i) {
            Some(p) => p,
            None => {
                proof {
                    let q = choose|q: int|
                        0 <= q < self.node_ids().len() && self.node_ids()[q] == i;
                    assert(self.nodes@[q].id == i);
                    assert(false);
                }
                0
            },
        };
        let m = self.nodes[p].next.len();
        let ghost entry_visited = visited@;
        let ghost entry_finished = finished@;
        let ghost entry_results = results@;
        let mut e: usize = 0;
        while e < m
            invariant
                self.wf(),
                p < self.nodes@.len(),
                self.nodes@[p as int].id == i,
                m == self.nodes@[p as int].next@.len(),
                e <= m,
                self.search_inv(results@, visited@, finished@),
                self.search_inv(entry_results, old(visited)@, old(finished)@),
                entry_visited == old(visited)@.push(i),
                entry_finished == old(finished)@,
                !old(visited)@.contains(i),
                id_subset(entry_visited, visited@),
                id_subset(old(visited)@, visited@),
                id_subset(entry_finished, finished@),
                visited@.contains(i),
                !finished@.contains(i),
                forall|x: i64|
                    (visited@.contains(x) && !finished@.contains(x)) <==> (
                    entry_visited.contains(x) && !entry_finished.contains(x)),
                forall|d: int| 0 <= d < e ==> finished@.contains(#[trigger] self.nodes@[p as int].next@[d]),
                path1 == path@.push(i),
                path1.len() >= 1,
                path1.last() == i,
                forall|y: i64|
                    path1.contains(y) <==> (visited@.contains(y) && !finished@.contains(y)),
                forall|j: int|
                    0 <= j < path1.len() - 1 ==> self.edge(#[trigger] path1[j], path1[j + 1]),
            decreases m - e,
        {
            let x = self.nodes[p].next[e];
            proof {
                assert(self.node_ids().contains(x));
                assert(self.edge(i, x)) by {
                    assert(self.nodes@[p as int].next@[e as int] == x);
                    assert(self.nodes@[p as int].next@.contains(x));
                }
            }
            if !vec_contains_id(visited, x) {
                proof {
                    lemma_nodup_subset_missing_le(old(visited)@, visited@, i);
                    lemma_nodup_subset_le(visited@, self.node_ids());
                }
                if self.dfs(x, results, visited, finished, Ghost(path1)) {
                    return true;
                }
            } else if !vec_contains_id(finished, x) {
                proof {
                    assert(path1.contains(x));
                    let ix = choose|ix: int| 0 <= ix < path1.len() && path1[ix] == x;
                    let cyc = path1.subrange(ix, path1.len() as int);
                    assert(cyc.len() >= 1);
                    assert(cyc[0] == x);
                    assert(cyc.last() == i);
                    assert forall|k: int|
                        0 <= k < cyc.len() implies #[trigger] self.edge(
                        cyc[k],
                        cycle_next(cyc, k),
                    ) by {
                        if k + 1 == cyc.len() {
                            assert(cyc[k] == path1[path1.len() - 1]);
                            assert(cycle_next(cyc, k) == cyc[0]);
                        } else {
                            assert(cyc[k] == path1[ix + k]);
                            assert(cycle_next(cyc, k) == cyc[k + 1]);
                            assert(cyc[k + 1] == path1[ix + k + 1]);
                            assert(self.edge(path1[ix + k], path1[ix + k + 1]));
                        }
                    }
                    assert(is_cycle(self, cyc));
                }
                return true;
            }
            e = e + 1;
        }
        let ghost res0 = results@;
        let ghost fin0 = finished@;
        results.push(i);
        finished.push(i);
        proof {
            assert(results@.drop_last() == res0);
            assert(finished@.drop_last() == fin0);
            assert(results@.last() == i);
            assert(finished@.last() == i);
            assert(!res0.contains(i));
            assert(results@.no_duplicates());
            assert(finished@.no_duplicates());
            assert forall|x: i64| results@.contains(x) <==> finished@.contains(x) by {
                if results@.contains(x) && x != i {
                    let q = choose|q: int| 0 <= q < results@.len() && results@[q] == x;
                    assert(res0[q] == x);
                    assert(res0.contains(x));
                    let q2 = choose|q2: int| 0 <= q2 < fin0.len() && fin0[q2] == x;
                    assert(finished@[q2] == x);
                }
                if finished@.contains(x) && x != i {
                    let q = choose|q: int| 0 <= q < finished@.len() && finished@[q] == x;
                    assert(fin0[q] == x);
                    assert(fin0.contains(x));
                    let q2 = choose|q2: int| 0 <= q2 < res0.len() && res0[q2] == x;
                    assert(results@[q2] == x);
                }
            }
            assert forall|x: i64| fin0.contains(x) implies finished@.contains(x) by {
                let q = choose|q: int| 0 <= q < fin0.len() && fin0[q] == x;
                assert(finished@[q] == x);
            }
            assert forall|x: i64| finished@.contains(x) implies visited@.contains(x) by {
                if x != i {
                    let q = choose|q: int| 0 <= q < finished@.len() && finished@[q] == x;
                    assert(fin0[q] == x);
                    assert(fin0.contains(x));
                }
            }
            assert(closed_record(self, results@)) by {
                assert forall|pp: int, b: i64|
                    0 <= pp < results@.len() && #[trigger] self.edge(results@[pp], b)
                    implies exists|q: int| 0 <= q < pp && results@[q] == b by {
                    if pp < res0.len() {
                        assert(results@[pp] == res0[pp]);
                        let q = choose|q: int| 0 <= q < pp && res0[q] == b;
                        assert(results@[q] == b);
                    } else {
                        assert(results@[pp] == i);
                        let ni = choose|ni: int|
                            0 <= ni < self.nodes@.len() && (#[trigger] self.nodes@[ni]).id == i
                                && self.nodes@[ni].next@.contains(b);
                        assert(ni == p);
                        let d = choose|d: int|
                            0 <= d < self.nodes@[p as int].next@.len()
                                && self.nodes@[p as int].next@[d] == b;
                        assert(fin0.contains(b));
                        assert(res0.contains(b));
                        let q = choose|q: int| 0 <= q < res0.len() && res0[q] == b;
                        assert(results@[q] == b);
                    }
                }
            }
        }
        false
    }

    /// Orders the nodes so that the source of every edge comes before the
    /// edge's target; fails when the edges form a directed cycle.
    pub fn topological_sort_with_cycle_detection(&self) -> (r: Result<Vec<i64>, GraphError>)
        requires
            self.wf(),
        ensures
            match r {
                Ok(ord) => {
                    &&& ord@.len() == self.node_ids().len()
                    &&& ord@.no_duplicates()
                    &&& (forall|x: i64| ord@.contains(x) <==> self.node_ids().contains(x))
                    &&& (forall|p: int, q: int|
                        0 <= p <= q < ord@.len() ==> !self.edge(ord@[q], ord@[p]))
                    &&& (forall|cyc: Seq<i64>| !is_cycle(self, cyc))
                },
                Err(e) => e is Cycle && exists|cyc: Seq<i64>| is_cycle(self, cyc),
            },
            (forall|cyc: Seq<i64>| !is_cycle(self, cyc)) ==> r is Ok,
    {
        let mut finished: Vec<i64> = Vec::new();
        let mut visited: Vec<i64> = Vec::new();
        let mut results: Vec<i64> = Vec::new();
        let n = self.nodes.len();
        // walk the roots in reverse declaration order: the final reversal
        // then lists nodes that no edge constrains in declaration order,
        // ascending ids when nodes were declared in ascending order
        let mut t: usize = n;
        while t > 0
            invariant
                self.wf(),
                n == self.nodes@.len(),
                t <= n,
                self.search_inv(results@, visited@, finished@),
                forall|x: i64| visited@.contains(x) <==> finished@.contains(x),
                forall|j: int| t <= j < n ==> finished@.contains(#[trigger] self.nodes@[j].id),
            decreases t,
        {
            t = t - 1;
            let id = self.nodes[t].id;
            proof {
                assert(self.node_ids()[t as int] == id);
                assert(self.node_ids().contains(id));
            }
            let ghost vis0 = visited@;
            let ghost fin0 = finished@;
            proof {
                assert(forall|y: i64|
                    Seq::<i64>::empty().contains(y) <==> (visited@.contains(y)
                        && !finished@.contains(y)));
            }
            if self.dfs(id, &mut results, &mut visited, &mut finished, Ghost(Seq::empty())) {
                return Err(GraphError::Cycle);
            }
            proof {
                assert(finished@.contains(id)) by {
                    if vis0.contains(id) {
                        assert(fin0.contains(id));
                    }
                }
                assert forall|x: i64| visited@.contains(x) implies finished@.contains(x) by {
                    assert(!(visited@.contains(x) && !finished@.contains(x)));
                }
                assert forall|j: int|
                    t <= j < n implies finished@.contains(#[trigger] self.nodes@[j].id) by {
                    if j > t {
                        assert(fin0.contains(self.nodes@[j].id));
                    }
                }
            }
        }
        proof {
            assert forall|x: i64| results@.contains(x) <==> self.node_ids().contains(x) by {
                if self.node_ids().contains(x) {
                    let q = choose|q: int|
                        0 <= q < self.node_ids().len() && self.node_ids()[q] == x;
                    assert(finished@.contains(self.nodes@[q].id));
                }
            }
            assert(results@.len() == self.node_ids().len()) by {
                lemma_nodup_subset_le(results@, self.node_ids());
                assert(self.node_ids().no_duplicates());
                lemma_nodup_subset_le(self.node_ids(), results@);
            }
        }
        let len = results.len();
        let mut ord: Vec<i64> = Vec::new();
        let mut j: usize = len;
        while j > 0
            invariant
                j <= len,
                len == results@.len(),
                ord@.len() == len - j,
                forall|d: int| 0 <= d < ord@.len() ==> ord@[d] == results@[len - 1 - d],
            decreases j,
        {
            j = j - 1;
            ord.push(results[j]);
        }
        proof {
            assert(ord@.len() == self.node_ids().len());
            assert forall|x: i64| ord@.contains(x) <==> self.node_ids().contains(x) by {
                if ord@.contains(x) {
                    let d = choose|d: int| 0 <= d < ord@.len() && ord@[d] == x;
                    assert(results@[len - 1 - d] == x);
                    assert(results@.contains(x));
                }
                if self.node_ids().contains(x) {
                    assert(results@.contains(x));
                    let d = choose|d: int| 0 <= d < results@.len() && results@[d] == x;
                    assert(ord@[len - 1 - d] == x);
                }
            }
            assert(ord@.no_duplicates()) by {
                assert forall|a: int, b: int|
                    0 <= a < ord@.len() && 0 <= b < ord@.len() && a != b implies ord@[a]
                    != ord@[b] by {
                    assert(ord@[a] == results@[len - 1 - a]);
                    assert(ord@[b] == results@[len - 1 - b]);
                }
            }
            assert forall|p: int, q: int|
                0 <= p <= q < ord@.len() implies !self.edge(ord@[q], ord@[p]) by {
                if self.edge(ord@[q], ord@[p]) {
                    let ap = len - 1 - q;
                    let bp = len - 1 - p;
                    assert(ord@[q] == results@[ap]);
                    assert(ord@[p] == results@[bp]);
                    assert(self.edge(results@[ap], results@[bp]));
                    let w = choose|w: int| 0 <= w < ap && results@[w] == results@[bp];
                    assert(w != bp);
                }
            }
            assert forall|cyc: Seq<i64>| !is_cycle(self, cyc) by {
                lemma_order_excludes_cycles(self, ord@, cyc);
            }
        }
        Ok(ord)
    }
}


/// The element after position `k` on a cycle, wrapping at the end.
pub open spec fn cycle_next(cyc: Seq<i64>, k: int) -> i64 {
    if k + 1 == cyc.len() {
        cyc[0]
    } else {
        cyc[k + 1]
    }
}

/// A non-empty node sequence each of whose elements has an edge to the
/// next, the last one back to the first: a directed cycle.
pub open spec fn is_cycle(g: &Graph, cyc: Seq<i64>) -> bool {
    cyc.len() >= 1 && forall|k: int|
        0 <= k < cyc.len() ==> #[trigger] g.edge(cyc[k], cycle_next(cyc, k))
}

/// Both ends of an edge are declared nodes.
pub proof fn lemma_edge_ends(g: &Graph, a: i64, b: i64)
    requires
        g.wf(),
        g.edge(a, b),
    ensures
        g.node_ids().contains(a),
        g.node_ids().contains(b),
{
    let i = choose|i: int|
        0 <= i < g.nodes@.len() && (#[trigger] g.nodes@[i]).id == a && g.nodes@[i].next@.contains(
            b,
        );
    assert(g.node_ids()[i] == a);
    let e = choose|e: int| 0 <= e < g.nodes@[i].next@.len() && g.nodes@[i].next@[e] == b;
    assert(g.node_ids().contains(g.nodes@[i].next@[e]));
}

proof fn lemma_chain_position(g: &Graph, ord: Seq<i64>, cyc: Seq<i64>, k: int)
    requires
        g.wf(),
        forall|x: i64| ord.contains(x) <==> g.node_ids().contains(x),
        ord.no_duplicates(),
        forall|p: int, q: int| 0 <= p <= q < ord.len() ==> !g.edge(ord[q], ord[p]),
        is_cycle(g, cyc),
        0 <= k < cyc.len(),
    ensures
        ord.contains(cyc[k]),
        ord.index_of(cyc[0]) <= ord.index_of(cyc[k]),
    decreases k,
{
    assert(g.edge(cyc[k], cycle_next(cyc, k)));
    lemma_edge_ends(g, cyc[k], cycle_next(cyc, k));
    assert(ord.contains(cyc[k]));
    let pk = ord.index_of(cyc[k]);
    assert(0 <= pk < ord.len() && ord[pk] == cyc[k]);
    if k > 0 {
        lemma_chain_position(g, ord, cyc, k - 1);
        let pprev = ord.index_of(cyc[k - 1]);
        assert(0 <= pprev < ord.len() && ord[pprev] == cyc[k - 1]);
        assert(g.edge(cyc[k - 1], cycle_next(cyc, k - 1)));
        assert(cycle_next(cyc, k - 1) == cyc[k]);
        if pk <= pprev {
            assert(!g.edge(ord[pprev], ord[pk]));
            assert(false);
        }
    }
}

/// A graph that admits a topological order holds no directed cycle: an
/// ordering that never places an edge's target at or before its source
/// contradicts any would-be cycle.
pub proof fn lemma_order_excludes_cycles(g: &Graph, ord: Seq<i64>, cyc: Seq<i64>)
    requires
        g.wf(),
        forall|x: i64| ord.contains(x) <==> g.node_ids().contains(x),
        ord.no_duplicates(),
        forall|p: int, q: int| 0 <= p <= q < ord.len() ==> !g.edge(ord[q], ord[p]),
    ensures
        !is_cycle(g, cyc),
{
    if is_cycle(g, cyc) {
        let last = cyc.len() - 1;
        lemma_chain_position(g, ord, cyc, last);
        let p0 = ord.index_of(cyc[0]);
        let pl = ord.index_of(cyc[last]);
        assert(ord.contains(cyc[0])) by {
            assert(g.edge(cyc[0], cycle_next(cyc, 0)));
            lemma_edge_ends(g, cyc[0], cycle_next(cyc, 0));
        }
        assert(0 <= p0 < ord.len() && ord[p0] == cyc[0]);
        assert(0 <= pl < ord.len() && ord[pl] == cyc[last]);
        assert(g.edge(cyc[last], cycle_next(cyc, last)));
        assert(cycle_next(cyc, last) == cyc[0]);
        assert(!g.edge(ord[pl], ord[p0]));
    }
}

} // verus!
