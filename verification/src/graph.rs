use vstd::prelude::*;

use crate::compiler::SRef;

verus! {

/// One stored half of an undirected connection: the neighbor net and the
/// switch state that must be closed for the connection to conduct.
#[derive(Debug, Clone)]
pub struct Edge {
    pub sref: SRef,
    pub node_idx: usize,
}

/// One net: its edges, in insertion order.
#[derive(Debug, Clone)]
pub struct Node {
    pub edges: Vec<Edge>,
}

/// Undirected multigraph over net indices; an edge between `a` and `b` is
/// stored in both nodes' edge lists.
#[derive(Debug, Clone)]
pub struct Graph {
    pub nodes: Vec<Node>,
}

impl View for Graph {
    type V = Seq<Seq<Edge>>;

    open spec fn view(&self) -> Seq<Seq<Edge>> {
        self.nodes@.map_values(|n: Node| n.edges@)
    }
}

/// Number of `false` entries of `s`: the flood fill's termination measure.
pub open spec fn count_false(s: Seq<bool>) -> nat
    decreases s.len(),
{
    if s.len() == 0 {
        0
    } else {
        (if s[0] {
            0nat
        } else {
            1nat
        }) + count_false(s.drop_first())
    }
}

/// A pointwise-larger marking has at most as many `false` entries.
pub proof fn lemma_count_false_le(a: Seq<bool>, b: Seq<bool>)
    requires
        a.len() == b.len(),
        forall|j: int| 0 <= j < a.len() && a[j] ==> b[j],
    ensures
        count_false(b) <= count_false(a),
    decreases a.len(),
{
    if a.len() > 0 {
        let at = a.drop_first();
        let bt = b.drop_first();
        assert forall|j: int| 0 <= j < at.len() && at[j] implies bt[j] by {
            assert(at[j] == a[j + 1]);
            assert(bt[j] == b[j + 1]);
        }
        lemma_count_false_le(at, bt);
    }
}

/// A pointwise-larger marking that flips at least one entry has strictly
/// fewer `false` entries.
pub proof fn lemma_count_false_lt(a: Seq<bool>, b: Seq<bool>, k: int)
    requires
        a.len() == b.len(),
        forall|j: int| 0 <= j < a.len() && a[j] ==> b[j],
        0 <= k < a.len(),
        !a[k],
        b[k],
    ensures
        count_false(b) < count_false(a),
    decreases a.len(),
{
    let at = a.drop_first();
    let bt = b.drop_first();
    assert forall|j: int| 0 <= j < at.len() && at[j] implies bt[j] by {
        assert(at[j] == a[j + 1]);
        assert(bt[j] == b[j + 1]);
    }
    if k == 0 {
        lemma_count_false_le(at, bt);
    } else {
        assert(at[k - 1] == a[k]);
        assert(bt[k - 1] == b[k]);
        lemma_count_false_lt(at, bt, k - 1);
    }
}

/// `b` occurs among the pending worklist entries.
pub open spec fn in_stack(stack: Seq<usize>, b: int) -> bool {
    exists|k: int| 0 <= k < stack.len() && stack[k] == b
}

impl Graph {
    /// Every edge points at a node of the graph and at a switch state with
    /// an index below `n_states`.
    pub open spec fn wf(&self, n_states: nat) -> bool {
        forall|i: int, j: int|
            0 <= i < self@.len() && 0 <= j < self@[i].len() ==> {
                &&& (#[trigger] self@[i][j]).node_idx < self@.len()
                &&& self@[i][j].sref.0 < n_states
            }
    }

    /// The graph holds an edge from `a` to `b` gated by switch state `s`.
    pub open spec fn has_edge(&self, a: int, b: int, s: int) -> bool {
        &&& 0 <= a < self@.len()
        &&& exists|j: int|
            0 <= j < self@[a].len() && (#[trigger] self@[a][j]).node_idx == b && self@[a][j].sref.0
                == s
    }

    /// Some edge from `a` to `b` conducts under switch assignment `state`.
    pub open spec fn closed_step(&self, state: Seq<bool>, a: int, b: int) -> bool {
        &&& 0 <= a < self@.len()
        &&& exists|j: int|
            0 <= j < self@[a].len() && (#[trigger] self@[a][j]).node_idx == b && state[self@[a][j].sref.0 as int]
    }

    /// `p` is a walk through the graph along conducting edges.
    pub open spec fn is_path(&self, state: Seq<bool>, p: Seq<int>) -> bool {
        &&& p.len() >= 1
        &&& forall|t: int| 0 <= t < p.len() ==> 0 <= #[trigger] p[t] < self@.len()
        &&& forall|t: int| 0 <= t < p.len() - 1 ==> #[trigger] self.closed_step(state, p[t], p[t + 1])
    }

    /// `dst` is reachable from `src` along conducting edges. Defined over
    /// edge presence only, so insertion order and duplicate edges cannot
    /// change it.
    pub open spec fn connected(&self, state: Seq<bool>, src: int, dst: int) -> bool {
        exists|p: Seq<int>| self.is_path(state, p) && p.first() == src && p.last() == dst
    }

    /// Every node reaches itself.
    pub proof fn lemma_connected_refl(&self, state: Seq<bool>, a: int)
        requires
            0 <= a < self@.len(),
        ensures
            self.connected(state, a, a),
    {
        let p = seq![a];
        assert(self.is_path(state, p));
        assert(p.first() == a && p.last() == a);
    }

    /// Reachability extends over one more conducting edge.
    pub proof fn lemma_connected_extend(&self, state: Seq<bool>, src: int, a: int, b: int)
        requires
            self.connected(state, src, a),
            self.closed_step(state, a, b),
            0 <= b < self@.len(),
        ensures
            self.connected(state, src, b),
    {
        let p = choose|p: Seq<int>|
            self.is_path(state, p) && p.first() == src && p.last() == a;
        let q = p.push(b);
        assert forall|t: int| 0 <= t < q.len() - 1 implies #[trigger] self.closed_step(
            state,
            q[t],
            q[t + 1],
        ) by {
            if t < p.len() - 1 {
                assert(q[t] == p[t] && q[t + 1] == p[t + 1]);
                assert(self.closed_step(state, p[t], p[t + 1]));
            } else {
                assert(q[t] == p[p.len() - 1] && q[t + 1] == b);
            }
        }
        assert(self.is_path(state, q));
        assert(q.first() == src && q.last() == b);
    }

    /// A marking that contains `p`'s start and is closed under conducting
    /// edges contains `p`'s end: with the flood fill's closure property,
    /// every reachable net is marked.
    pub proof fn lemma_closed_marking_reaches(&self, state: Seq<bool>, marked: Seq<bool>, p: Seq<int>)
        requires
            marked.len() == self@.len(),
            self.is_path(state, p),
            marked[p.first()],
            forall|a: int, b: int|
                0 <= a < marked.len() && marked[a] && 0 <= b < marked.len()
                    && #[trigger] self.closed_step(state, a, b) ==> marked[b],
        ensures
            marked[p.last()],
        decreases p.len(),
    {
        if p.len() > 1 {
            assert(self.closed_step(state, p[0], p[0int + 1]));
            assert(marked[p[0int + 1]]);
            assert(marked[p[1]]);
            let q = p.drop_first();
            assert forall|t: int| 0 <= t < q.len() - 1 implies #[trigger] self.closed_step(
                state,
                q[t],
                q[t + 1],
            ) by {
                assert(q[t] == p[t + 1] && q[t + 1] == p[t + 2]);
                assert(self.closed_step(state, p[t + 1], p[t + 2]));
            }
            assert forall|t: int| 0 <= t < q.len() implies 0 <= #[trigger] q[t] < self@.len() by {
                assert(q[t] == p[t + 1]);
            }
            assert(self.is_path(state, q));
            self.lemma_closed_marking_reaches(state, marked, q);
            assert(q.last() == p.last());
        }
    }

    /// Allocates `num_nodes` nodes with no edges.
    pub fn new(num_nodes: usize) -> (r: Self)
        ensures
            r@.len() == num_nodes,
            forall|i: int| 0 <= i < num_nodes ==> (#[trigger] r@[i]).len() == 0,
    {
        let mut nodes: Vec<Node> = Vec::new();
        let mut i: usize = 0;
        while i < num_nodes
            invariant
                i <= num_nodes,
                nodes@.len() == i,
                forall|j: int| 0 <= j < i ==> (#[trigger] nodes@[j]).edges@.len() == 0,
            decreases num_nodes - i,
        {
            nodes.push(Node { edges: Vec::new() });
            i += 1;
        }
        let g = Graph { nodes };
        g
    }

    /// Records an undirected edge between `n1` and `n2` gated by `sref`,
    /// unless the same directed triple is already present, in which case the
    /// graph is left exactly as it was: the same connection is never stored
    /// twice.
    pub fn add_edge(&mut self, n1: usize, n2: usize, sref: SRef)
        requires
            n1 < old(self)@.len(),
            n2 < old(self)@.len(),
        ensures
            final(self)@.len() == old(self)@.len(),
            old(self).has_edge(n1 as int, n2 as int, sref.0 as int) ==> final(self)@ == old(
                self,
            )@,
            !old(self).has_edge(n1 as int, n2 as int, sref.0 as int) ==> final(self)@ == ({
                let mid = old(self)@.update(
                    n1 as int,
                    old(self)@[n1 as int].push(Edge { sref, node_idx: n2 }),
                );
                mid.update(n2 as int, mid[n2 as int].push(Edge { sref, node_idx: n1 }))
            }),
            forall|a: int, b: int, s: int|
                #[trigger] old(self).has_edge(a, b, s) ==> final(self).has_edge(a, b, s),
            forall|a: int, b: int, s: int|
                #[trigger] final(self).has_edge(a, b, s) ==> old(self).has_edge(a, b, s) || (a
                    == n1 && b == n2 && s == sref.0) || (a == n2 && b == n1 && s == sref.0),
            final(self).has_edge(n1 as int, n2 as int, sref.0 as int),
            !old(self).has_edge(n1 as int, n2 as int, sref.0 as int) ==> final(self).has_edge(
                n2 as int,
                n1 as int,
                sref.0 as int,
            ),
            forall|ns: nat| #[trigger] old(self).wf(ns) && sref.0 < ns ==> final(self).wf(ns),
    {
        let edges_len: usize = self.nodes[n1].edges.len();
        let mut j: usize = 0;
        while j < edges_len
            invariant
                n1 < self@.len(),
                n2 < self@.len(),
                edges_len == self@[n1 as int].len(),
                j <= edges_len,
                forall|k: int|
                    0 <= k < j ==> !((#[trigger] self@[n1 as int][k]).node_idx == n2
                        && self@[n1 as int][k].sref.0 == sref.0),
            decreases edges_len - j,
        {
            let e: &Edge = &self.nodes[n1].edges[j];
            proof {
                assert(self@[n1 as int] == self.nodes@[n1 as int].edges@);
            }
            if e.node_idx == n2 && e.sref == sref {
                proof {
                    assert(self@[n1 as int][j as int].node_idx == n2 && self@[n1 as int][
                        j as int].sref.0 == sref.0);
                    assert(self.has_edge(n1 as int, n2 as int, sref.0 as int));
                }
                return ;
            }
            j += 1;
        }
        proof {
            assert(!self.has_edge(n1 as int, n2 as int, sref.0 as int));
        }
        let e1 = Edge { sref, node_idx: n2 };
        self.nodes[n1].edges.push(e1);
        let ghost mid = self@;
        proof {
            assert(mid =~= old(self)@.update(
                n1 as int,
                old(self)@[n1 as int].push(Edge { sref, node_idx: n2 }),
            ));
        }
        let e2 = Edge { sref, node_idx: n1 };
        self.nodes[n2].edges.push(e2);
        proof {
            assert(self@ =~= mid.update(n2 as int, mid[n2 as int].push(Edge { sref, node_idx: n1 })));
            let fin = self@;
            let prev = old(self)@;
            assert forall|a: int, b: int, s: int| #[trigger] old(self).has_edge(a, b, s)
                implies self.has_edge(a, b, s) by {
                let k = choose|k: int|
                    0 <= k < prev[a].len() && (#[trigger] prev[a][k]).node_idx == b
                        && prev[a][k].sref.0 == s;
                assert(fin[a][k] == prev[a][k]);
            }
            assert forall|a: int, b: int, s: int| #[trigger] self.has_edge(a, b, s)
                implies old(self).has_edge(a, b, s) || (a == n1 && b == n2 && s == sref.0) || (a
                == n2 && b == n1 && s == sref.0) by {
                let k = choose|k: int|
                    0 <= k < fin[a].len() && (#[trigger] fin[a][k]).node_idx == b
                        && fin[a][k].sref.0 == s;
                if a != n1 && a != n2 {
                    assert(fin[a] == prev[a]);
                } else {
                    if k < prev[a].len() {
                        assert(fin[a][k] == prev[a][k]);
                    }
                }
            }
            assert(fin[n1 as int].len() > 0);
            if n1 == n2 {
                let li = fin[n1 as int].len() - 2;
                assert(fin[n1 as int][li] == mid[n1 as int][li]);
                assert(mid[n1 as int][li] == (Edge { sref, node_idx: n2 }));
                assert(self.has_edge(n1 as int, n2 as int, sref.0 as int));
                let lj = fin[n2 as int].len() - 1;
                assert(fin[n2 as int][lj] == (Edge { sref, node_idx: n1 }));
                assert(self.has_edge(n2 as int, n1 as int, sref.0 as int));
            } else {
                let li = fin[n1 as int].len() - 1;
                assert(fin[n1 as int] == mid[n1 as int]);
                assert(fin[n1 as int][li] == (Edge { sref, node_idx: n2 }));
                assert(self.has_edge(n1 as int, n2 as int, sref.0 as int));
                let lj = fin[n2 as int].len() - 1;
                assert(fin[n2 as int][lj] == (Edge { sref, node_idx: n1 }));
                assert(self.has_edge(n2 as int, n1 as int, sref.0 as int));
            }
            assert forall|ns: nat| #[trigger] old(self).wf(ns) && sref.0 < ns implies self.wf(
                ns,
            ) by {
                assert forall|i: int, j2: int|
                    0 <= i < fin.len() && 0 <= j2 < fin[i].len() implies {
                    &&& (#[trigger] fin[i][j2]).node_idx < fin.len()
                    &&& fin[i][j2].sref.0 < ns
                } by {
                    if i != n1 && i != n2 {
                        assert(fin[i] == prev[i]);
                        assert(prev[i][j2].node_idx < prev.len() && prev[i][j2].sref.0 < ns);
                    } else if j2 < prev[i].len() {
                        assert(fin[i][j2] == prev[i][j2]);
                        assert(prev[i][j2].node_idx < prev.len() && prev[i][j2].sref.0 < ns);
                    }
                }
            }
        }
    }

    /// Flood fill from `node_idx` over conducting edges. Marks `node_idx`
    /// and, transitively, every conducting neighbor; nets marked beforehand
    /// act as barriers; no mark is ever cleared. Every net marked by the
    /// call is reachable from `node_idx`, and the new marking is closed
    /// under conducting edges out of newly marked nets.
    pub fn update(&self, state: &Vec<bool>, net: &mut Vec<bool>, node_idx: usize)
        requires
            self.wf(state@.len() as nat),
            old(net)@.len() == self@.len(),
            node_idx < self@.len(),
        ensures
            final(net)@.len() == old(net)@.len(),
            forall|j: int| 0 <= j < old(net)@.len() && old(net)@[j] ==> final(net)@[j],
            final(net)@[node_idx as int],
            forall|j: int|
                0 <= j < old(net)@.len() && #[trigger] final(net)@[j] ==> old(net)@[j]
                    || self.connected(state@, node_idx as int, j),
            forall|a: int, b: int|
                0 <= a < old(net)@.len() && final(net)@[a] && !old(net)@[a] && 0 <= b < old(
                    net,
                )@.len() && #[trigger] self.closed_step(state@, a, b) ==> final(net)@[b],
    {
        let ghost net0 = net@;
        let mut stack: Vec<usize> = Vec::new();
        stack.push(node_idx);
        proof {
            self.lemma_connected_refl(state@, node_idx as int);
            assert(stack@[0] == node_idx);
            assert(in_stack(stack@, node_idx as int));
        }
        while stack.len() != 0
            invariant
                self.wf(state@.len() as nat),
                net@.len() == net0.len(),
                net0.len() == self@.len(),
                node_idx < self@.len(),
                forall|k: int| 0 <= k < stack@.len() ==> (#[trigger] stack@[k]) < self@.len(),
                forall|k: int|
                    0 <= k < stack@.len() ==> self.connected(
                        state@,
                        node_idx as int,
                        (#[trigger] stack@[k]) as int,
                    ),
                forall|j: int| 0 <= j < net@.len() && net0[j] ==> net@[j],
                forall|j: int|
                    0 <= j < net@.len() && #[trigger] net@[j] ==> net0[j] || self.connected(
                        state@,
                        node_idx as int,
                        j,
                    ),
                net@[node_idx as int] || in_stack(stack@, node_idx as int),
                forall|a: int, b: int|
                    0 <= a < net@.len() && net@[a] && !net0[a] && 0 <= b < net@.len()
                        && #[trigger] self.closed_step(state@, a, b) ==> net@[b] || in_stack(
                        stack@,
                        b,
                    ),
            decreases count_false(net@), stack@.len(),
        {
            let ghost stack_at_entry = stack@;
            let ghost net_at_entry = net@;
            let v: usize = stack.pop().unwrap();
            proof {
                assert(stack@ =~= stack_at_entry.drop_last());
                assert(v == stack_at_entry.last());
                assert forall|b: int|
                    in_stack(stack_at_entry, b) && b != v as int implies in_stack(stack@, b) by {
                    let k = choose|k: int|
                        0 <= k < stack_at_entry.len() && stack_at_entry[k] == b;
                    assert(k < stack_at_entry.len() - 1);
                    assert(stack@[k] == b);
                }
            }
            if !net[v] {
                net[v] = true;
                proof {
                    assert(net@ =~= net_at_entry.update(v as int, true));
                    lemma_count_false_lt(net_at_entry, net@, v as int);
                }
                let ghost net1 = net@;
                let edges_len: usize = self.nodes[v].edges.len();
                proof {
                    assert(self@[v as int] == self.nodes@[v as int].edges@);
                }
                let mut j: usize = 0;
                while j < edges_len
                    invariant
                        self.wf(state@.len() as nat),
                        net@ == net1,
                        net1 == net_at_entry.update(v as int, true),
                        net@.len() == net0.len(),
                        net0.len() == self@.len(),
                        node_idx < self@.len(),
                        v < self@.len(),
                        state@.len() == state.len(),
                        edges_len == self@[v as int].len(),
                        j <= edges_len,
                        self.connected(state@, node_idx as int, v as int),
                        forall|k: int|
                            0 <= k < stack@.len() ==> (#[trigger] stack@[k]) < self@.len(),
                        forall|k: int|
                            0 <= k < stack@.len() ==> self.connected(
                                state@,
                                node_idx as int,
                                (#[trigger] stack@[k]) as int,
                            ),
                        forall|j2: int| 0 <= j2 < net@.len() && net0[j2] ==> net@[j2],
                        forall|j2: int|
                            0 <= j2 < net@.len() && #[trigger] net@[j2] ==> net0[j2]
                                || self.connected(state@, node_idx as int, j2),
                        net@[node_idx as int] || in_stack(stack@, node_idx as int),
                        forall|a: int, b: int|
                            0 <= a < net@.len() && net@[a] && !net0[a] && a != v as int && 0 <= b
                                < net@.len() && #[trigger] self.closed_step(state@, a, b)
                                ==> net@[b] || in_stack(stack@, b),
                        forall|jj: int|
                            0 <= jj < j && state@[(#[trigger] self@[v as int][jj]).sref.0 as int]
                                ==> net@[self@[v as int][jj].node_idx as int] || in_stack(
                                stack@,
                                self@[v as int][jj].node_idx as int,
                            ),
                    decreases edges_len - j,
                {
                    let e: &Edge = &self.nodes[v].edges[j];
                    proof {
                        assert(self@[v as int] == self.nodes@[v as int].edges@);
                        assert(self@[v as int][j as int].node_idx < self@.len());
                        assert(self@[v as int][j as int].sref.0 < state@.len());
                    }
                    if state[e.sref.idx()] {
                        let ghost stack_before_push = stack@;
                        stack.push(e.node_idx);
                        proof {
                            assert(e.node_idx == self@[v as int][j as int].node_idx);
                            assert(self.closed_step(state@, v as int, e.node_idx as int)) by {
                                assert((#[trigger] self@[v as int][j as int]).node_idx
                                    == e.node_idx as int && state@[self@[v as int][
                                    j as int].sref.0 as int]);
                            }
                            self.lemma_connected_extend(
                                state@,
                                node_idx as int,
                                v as int,
                                e.node_idx as int,
                            );
                            assert forall|b: int|
                                in_stack(stack_before_push, b) implies in_stack(stack@, b) by {
                                let k = choose|k: int|
                                    0 <= k < stack_before_push.len() && stack_before_push[k] == b;
                                assert(stack@[k] == b);
                            }
                            assert(in_stack(stack@, e.node_idx as int)) by {
                                assert(stack@[stack@.len() - 1] == e.node_idx);
                            }
                        }
                    }
                    j += 1;
                }
                proof {
                    // the closure invariant now also covers v itself
                    assert forall|a: int, b: int|
                        0 <= a < net@.len() && net@[a] && !net0[a] && 0 <= b < net@.len()
                            && #[trigger] self.closed_step(state@, a, b) implies net@[b]
                        || in_stack(stack@, b) by {
                        if a == v as int {
                            let jj = choose|jj: int|
                                0 <= jj < self@[a].len() && (#[trigger] self@[a][jj]).node_idx
                                    == b && state@[self@[a][jj].sref.0 as int];
                            assert(state@[self@[v as int][jj].sref.0 as int]);
                            assert(net@[self@[v as int][jj].node_idx as int] || in_stack(
                                stack@,
                                self@[v as int][jj].node_idx as int,
                            ));
                        }
                    }
                }
            } else {
                proof {
                    assert forall|a: int, b: int|
                        0 <= a < net@.len() && net@[a] && !net0[a] && 0 <= b < net@.len()
                            && #[trigger] self.closed_step(state@, a, b) implies net@[b]
                        || in_stack(stack@, b) by {
                        if !net@[b] && in_stack(stack_at_entry, b) {
                            if b == v as int {
                                assert(net@[v as int]);
                            } else {
                                assert(in_stack(stack@, b));
                            }
                        }
                    }
                    if !net@[node_idx as int] {
                        assert(in_stack(stack_at_entry, node_idx as int));
                        assert(node_idx != v || net@[v as int]);
                        if node_idx as int != v as int {
                            assert(in_stack(stack@, node_idx as int));
                        }
                    }
                }
            }
        }
        proof {
            assert(stack@.len() == 0);
            assert(!in_stack(stack@, node_idx as int)) by {
                if in_stack(stack@, node_idx as int) {
                    let k = choose|k: int| 0 <= k < stack@.len() && stack@[k] == node_idx as int;
                }
            }
            assert forall|a: int, b: int|
                0 <= a < net@.len() && net@[a] && !net0[a] && 0 <= b < net@.len()
                    && #[trigger] self.closed_step(state@, a, b) implies net@[b] by {
                if !net@[b] {
                    assert(in_stack(stack@, b));
                    let k = choose|k: int| 0 <= k < stack@.len() && stack@[k] == b;
                }
            }
        }
    }
}

} // verus!
