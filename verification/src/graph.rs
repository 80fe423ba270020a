use vstd::prelude::*;

use crate::op::{arity, OpView, Operation};

verus! {

/// Identifier of a node: its index in the graph's arena.
pub type NodeId = usize;

/// One node of the expression graph. `value` is meaningful only for `Input`
/// nodes (it defaults to the zero bit pattern until bound); `operands` are
/// indices of strictly earlier nodes; `deps` lists the `Input` nodes
/// transitively reachable from this node, in strictly increasing order; and
/// `cache` maps dependency-value snapshots to previously computed results.
pub struct Node {
    pub op: Operation,
    pub value: u32,
    pub operands: Vec<NodeId>,
    pub deps: Vec<NodeId>,
    pub cache: Vec<(Vec<u32>, u32)>,
}

/// Ghost counterpart of [`Node`].
#[verifier::ext_equal]
pub ghost struct NodeView {
    pub op: OpView,
    pub value: u32,
    pub operands: Seq<usize>,
    pub deps: Seq<usize>,
    pub cache: Seq<(Seq<u32>, u32)>,
}

impl View for Node {
    type V = NodeView;

    open spec fn view(&self) -> NodeView {
        NodeView {
            op: self.op@,
            value: self.value,
            operands: self.operands@,
            deps: self.deps@,
            cache: self.cache@.map_values(|e: (Vec<u32>, u32)| (e.0@, e.1)),
        }
    }
}

/// The mathematical content of a graph: the views of its nodes, in arena
/// order.
pub open spec fn nodes_view(nodes: Seq<Node>) -> Seq<NodeView> {
    nodes.map_values(|n: Node| n@)
}

/// The elements of `s` appear in strictly increasing order (so `s` also holds
/// no duplicates).
pub open spec fn strictly_sorted(s: Seq<usize>) -> bool {
    forall|j: int, k: int| 0 <= j < k < s.len() ==> s[j] < s[k]
}

/// Well-formedness of the node at index `i` of `g`:
/// - it has exactly as many operands as its operation's arity, and each
///   operand is a strictly earlier node (so the graph is acyclic);
/// - its dependency list is strictly sorted and holds only `Input` nodes no
///   later than `i`;
/// - an `Input` node depends exactly on itself;
/// - a unary node inherits its operand's dependency list unchanged;
/// - a binary node's dependency set is the union of its operands' sets.
pub open spec fn node_wf(g: Seq<NodeView>, i: int) -> bool {
    let n = g[i];
    &&& n.operands.len() == arity(n.op)
    &&& forall|k: int| 0 <= k < n.operands.len() ==> (#[trigger] n.operands[k]) < i
    &&& strictly_sorted(n.deps)
    &&& forall|k: int|
        0 <= k < n.deps.len() ==> (#[trigger] n.deps[k]) <= i && g[n.deps[k] as int].op is Input
    &&& match n.op {
        OpView::Input(_) => n.deps.len() == 1 && n.deps[0] == i,
        OpView::Sin => n.deps == g[n.operands[0] as int].deps,
        OpView::Pow(_) => n.deps == g[n.operands[0] as int].deps,
        OpView::Add => n.deps.to_set() == g[n.operands[0] as int].deps.to_set().union(
            g[n.operands[1] as int].deps.to_set(),
        ),
        OpView::Mul => n.deps.to_set() == g[n.operands[0] as int].deps.to_set().union(
            g[n.operands[1] as int].deps.to_set(),
        ),
    }
}

/// Every node of `g` is well-formed.
pub open spec fn graph_wf(g: Seq<NodeView>) -> bool {
    forall|i: int| 0 <= i < g.len() ==> #[trigger] node_wf(g, i)
}

/// Well-formedness survives any change that keeps every node's operation,
/// operand list and dependency list intact (such as binding a value or
/// touching a cache).
pub proof fn lemma_wf_same_structure(g1: Seq<NodeView>, g2: Seq<NodeView>)
    requires
        graph_wf(g1),
        g2.len() == g1.len(),
        forall|j: int|
            0 <= j < g1.len() ==> {
                &&& (#[trigger] g2[j]).op == g1[j].op
                &&& g2[j].operands == g1[j].operands
                &&& g2[j].deps == g1[j].deps
            },
    ensures
        graph_wf(g2),
{
    assert forall|i: int| 0 <= i < g2.len() implies #[trigger] node_wf(g2, i) by {
        assert(node_wf(g1, i));
    }
}

/// Merges two strictly sorted lists into their strictly sorted union.
fn union_sorted(xs: &Vec<NodeId>, ys: &Vec<NodeId>) -> (r: Vec<NodeId>)
    requires
        strictly_sorted(xs@),
        strictly_sorted(ys@),
    ensures
        strictly_sorted(r@),
        r@.to_set() == xs@.to_set().union(ys@.to_set()),
{
    let mut r: Vec<NodeId> = Vec::new();
    let mut i: usize = 0;
    let mut j: usize = 0;
    while i < xs.len() || j < ys.len()
        invariant
            strictly_sorted(xs@),
            strictly_sorted(ys@),
            i <= xs@.len(),
            j <= ys@.len(),
            strictly_sorted(r@),
            forall|d: usize|
                #[trigger] r@.contains(d) <==> (xs@.take(i as int).contains(d) || ys@.take(
                    j as int,
                ).contains(d)),
            forall|k: int| i <= k < xs@.len() ==> r@.len() == 0 || r@.last() < #[trigger] xs@[k],
            forall|k: int| j <= k < ys@.len() ==> r@.len() == 0 || r@.last() < #[trigger] ys@[k],
        decreases xs@.len() - i + ys@.len() - j,
    {
        let ghost prev = r@;
        let ghost pi = i as int;
        let ghost pj = j as int;
        let v: NodeId;
        if i < xs.len() && (j >= ys.len() || xs[i] < ys[j]) {
            v = xs[i];
            i = i + 1;
        } else if j < ys.len() && (i >= xs.len() || ys[j] < xs[i]) {
            v = ys[j];
            j = j + 1;
        } else {
            v = xs[i];
            i = i + 1;
            j = j + 1;
        }
        proof {
            if prev.len() > 0 {
                assert(prev.last() < v);
            }
        }
        r.push(v);
        proof {
            assert(xs@.take(pi) =~= xs@.take(i as int).take(pi));
            assert(ys@.take(pj) =~= ys@.take(j as int).take(pj));
            if i as int == pi + 1 {
                assert(xs@.take(i as int) =~= xs@.take(pi).push(xs@[pi]));
            }
            if j as int == pj + 1 {
                assert(ys@.take(j as int) =~= ys@.take(pj).push(ys@[pj]));
            }
            assert forall|d: usize| #[trigger] r@.contains(d) implies (xs@.take(
                i as int,
            ).contains(d) || ys@.take(j as int).contains(d)) by {
                let idx = choose|idx: int| 0 <= idx < r@.len() && r@[idx] == d;
                if idx < prev.len() {
                    assert(prev.contains(d));
                } else {
                    assert(d == v);
                    if i as int == pi + 1 {
                        assert(xs@.take(i as int).last() == v);
                    } else {
                        assert(ys@.take(j as int).last() == v);
                    }
                }
            }
            assert forall|d: usize| (xs@.take(i as int).contains(d) || ys@.take(
                j as int,
            ).contains(d)) implies #[trigger] r@.contains(d) by {
                if prev.contains(d) || d == v {
                    if d == v {
                        assert(r@[r@.len() - 1] == v);
                    } else {
                        let idx = choose|idx: int| 0 <= idx < prev.len() && prev[idx] == d;
                        assert(r@[idx] == d);
                    }
                } else {
                    if xs@.take(i as int).contains(d) {
                        let idx = choose|idx: int|
                            0 <= idx < xs@.take(i as int).len() && xs@.take(i as int)[idx] == d;
                        assert(idx == pi && i as int == pi + 1);
                        assert(d == xs@[pi]);
                        assert(false);
                    } else {
                        let idx = choose|idx: int|
                            0 <= idx < ys@.take(j as int).len() && ys@.take(j as int)[idx] == d;
                        assert(idx == pj && j as int == pj + 1);
                        assert(d == ys@[pj]);
                        assert(false);
                    }
                }
            }
            assert forall|p: int, q: int| 0 <= p < q < r@.len() implies r@[p] < r@[q] by {
                if q < prev.len() {
                    assert(prev[p] < prev[q]);
                } else {
                    assert(r@[q] == v);
                    if p < prev.len() - 1 {
                        assert(prev[p] < prev.last());
                    }
                }
            }
        }
    }
    proof {
        assert(xs@.take(xs@.len() as int) =~= xs@);
        assert(ys@.take(ys@.len() as int) =~= ys@);
        assert(r@.to_set() =~= xs@.to_set().union(ys@.to_set()));
    }
    r
}

/// An expression graph: an arena of nodes whose edges were fixed when each
/// node was created. Only the `value` of `Input` nodes and the caches ever
/// change afterwards.
pub struct Graph {
    pub nodes: Vec<Node>,
}

impl View for Graph {
    type V = Seq<NodeView>;

    open spec fn view(&self) -> Seq<NodeView> {
        nodes_view(self.nodes@)
    }
}

impl Graph {
    /// The graph's well-formedness invariant; established by `new` and
    /// preserved by every method.
    pub open spec fn wf(self) -> bool {
        graph_wf(self@)
    }

    /// Creates an empty graph.
    pub fn new() -> (g: Graph)
        ensures
            g.wf(),
            g@.len() == 0,
    {
        let g = Graph { nodes: Vec::new() };
        proof {
            assert(g@ =~= Seq::<NodeView>::empty());
        }
        g
    }

    /// The number of nodes created so far.
    pub fn len(&self) -> (n: usize)
        ensures
            n == self@.len(),
    {
        self.nodes.len()
    }

    /// Creates a leaf node with the given name. Its value defaults to the
    /// zero bit pattern until `set` is called.
    pub fn input(&mut self, name: String) -> (id: NodeId)
        requires
            old(self).wf(),
        ensures
            final(self).wf(),
            id == old(self)@.len(),
            final(self)@.len() == old(self)@.len() + 1,
            forall|j: int| 0 <= j < old(self)@.len() ==> final(self)@[j] == old(self)@[j],
            final(self)@[id as int] == (NodeView {
                op: OpView::Input(name@),
                value: 0,
                operands: Seq::<usize>::empty(),
                deps: seq![id],
                cache: Seq::<(Seq<u32>, u32)>::empty(),
            }),
    {
        let id = self.nodes.len();
        let node = Node {
            op: Operation::Input(name),
            value: 0,
            operands: Vec::new(),
            deps: vec![id],
            cache: Vec::new(),
        };
        self.nodes.push(node);
        proof {
            assert(self@ =~~= old(self)@.push(
                NodeView {
                    op: self.nodes@.last().op@,
                    value: 0,
                    operands: Seq::<usize>::empty(),
                    deps: seq![id],
                    cache: Seq::<(Seq<u32>, u32)>::empty(),
                },
            ));
            assert forall|i: int| 0 <= i < self@.len() implies #[trigger] node_wf(self@, i) by {
                if i < old(self)@.len() {
                    assert(node_wf(old(self)@, i));
                }
            }
        }
        id
    }

    /// Appends a node with one operand; its dependency list is the operand's
    /// own, unchanged.
    fn push_unary(&mut self, op: Operation, a: NodeId) -> (id: NodeId)
        requires
            old(self).wf(),
            a < old(self)@.len(),
            arity(op@) == 1,
        ensures
            final(self).wf(),
            id == old(self)@.len(),
            final(self)@.len() == old(self)@.len() + 1,
            forall|j: int| 0 <= j < old(self)@.len() ==> final(self)@[j] == old(self)@[j],
            final(self)@[id as int] == (NodeView {
                op: op@,
                value: 0,
                operands: seq![a],
                deps: old(self)@[a as int].deps,
                cache: Seq::<(Seq<u32>, u32)>::empty(),
            }),
    {
        proof {
            assert(node_wf(self@, a as int));
        }
        let id = self.nodes.len();
        let deps = self.nodes[a].deps.clone();
        proof {
            assert(deps@ =~= self@[a as int].deps);
        }
        let node = Node { op, value: 0, operands: vec![a], deps, cache: Vec::new() };
        self.nodes.push(node);
        proof {
            assert(self@ =~~= old(self)@.push(
                NodeView {
                    op: self.nodes@.last().op@,
                    value: 0,
                    operands: seq![a],
                    deps: old(self)@[a as int].deps,
                    cache: Seq::<(Seq<u32>, u32)>::empty(),
                },
            ));
            assert forall|i: int| 0 <= i < self@.len() implies #[trigger] node_wf(self@, i) by {
                if i < old(self)@.len() {
                    assert(node_wf(old(self)@, i));
                } else {
                    assert(node_wf(old(self)@, a as int));
                }
            }
        }
        id
    }

    /// Appends a node with two operands; its dependency list is the strictly
    /// sorted union of the operands' lists.
    fn push_binary(&mut self, op: Operation, a: NodeId, b: NodeId) -> (id: NodeId)
        requires
            old(self).wf(),
            a < old(self)@.len(),
            b < old(self)@.len(),
            arity(op@) == 2,
        ensures
            final(self).wf(),
            id == old(self)@.len(),
            final(self)@.len() == old(self)@.len() + 1,
            forall|j: int| 0 <= j < old(self)@.len() ==> final(self)@[j] == old(self)@[j],
            final(self)@[id as int].op == op@,
            final(self)@[id as int].value == 0,
            final(self)@[id as int].operands == seq![a, b],
            final(self)@[id as int].cache == Seq::<(Seq<u32>, u32)>::empty(),
            final(self)@[id as int].deps.to_set() == old(self)@[a as int].deps.to_set().union(
                old(self)@[b as int].deps.to_set(),
            ),
    {
        proof {
            assert(node_wf(self@, a as int));
            assert(node_wf(self@, b as int));
        }
        let id = self.nodes.len();
        let deps = union_sorted(&self.nodes[a].deps, &self.nodes[b].deps);
        let ghost depseq = deps@;
        let node = Node { op, value: 0, operands: vec![a, b], deps, cache: Vec::new() };
        self.nodes.push(node);
        proof {
            assert(self@ =~~= old(self)@.push(
                NodeView {
                    op: self.nodes@.last().op@,
                    value: 0,
                    operands: seq![a, b],
                    deps: depseq,
                    cache: Seq::<(Seq<u32>, u32)>::empty(),
                },
            ));
            assert forall|k: int| 0 <= k < depseq.len() implies (#[trigger] depseq[k]) <= id
                && self@[depseq[k] as int].op is Input by {
                let d = depseq[k];
                assert(depseq.to_set().contains(d));
                if old(self)@[a as int].deps.to_set().contains(d) {
                    let m = choose|m: int|
                        0 <= m < old(self)@[a as int].deps.len() && old(
                            self,
                        )@[a as int].deps[m] == d;
                    assert(node_wf(old(self)@, a as int));
                } else {
                    let m = choose|m: int|
                        0 <= m < old(self)@[b as int].deps.len() && old(
                            self,
                        )@[b as int].deps[m] == d;
                    assert(node_wf(old(self)@, b as int));
                }
            }
            assert forall|i: int| 0 <= i < self@.len() implies #[trigger] node_wf(self@, i) by {
                if i < old(self)@.len() {
                    assert(node_wf(old(self)@, i));
                }
            }
        }
        id
    }

    /// Creates an addition node over `a` and `b`. The new node's dependency
    /// set is the union of the operands' dependency sets: an input shared
    /// between `a` and `b` is counted once.
    pub fn add(&mut self, a: NodeId, b: NodeId) -> (id: NodeId)
        requires
            old(self).wf(),
            a < old(self)@.len(),
            b < old(self)@.len(),
        ensures
            final(self).wf(),
            id == old(self)@.len(),
            final(self)@.len() == old(self)@.len() + 1,
            forall|j: int| 0 <= j < old(self)@.len() ==> final(self)@[j] == old(self)@[j],
            final(self)@[id as int].op == OpView::Add,
            final(self)@[id as int].value == 0,
            final(self)@[id as int].operands == seq![a, b],
            final(self)@[id as int].cache == Seq::<(Seq<u32>, u32)>::empty(),
            final(self)@[id as int].deps.to_set() == old(self)@[a as int].deps.to_set().union(
                old(self)@[b as int].deps.to_set(),
            ),
    {
        self.push_binary(Operation::Add, a, b)
    }

    /// Creates a multiplication node over `a` and `b`; its dependency set is
    /// the union of the operands' dependency sets.
    pub fn mul(&mut self, a: NodeId, b: NodeId) -> (id: NodeId)
        requires
            old(self).wf(),
            a < old(self)@.len(),
            b < old(self)@.len(),
        ensures
            final(self).wf(),
            id == old(self)@.len(),
            final(self)@.len() == old(self)@.len() + 1,
            forall|j: int| 0 <= j < old(self)@.len() ==> final(self)@[j] == old(self)@[j],
            final(self)@[id as int].op == OpView::Mul,
            final(self)@[id as int].value == 0,
            final(self)@[id as int].operands == seq![a, b],
            final(self)@[id as int].cache == Seq::<(Seq<u32>, u32)>::empty(),
            final(self)@[id as int].deps.to_set() == old(self)@[a as int].deps.to_set().union(
                old(self)@[b as int].deps.to_set(),
            ),
    {
        self.push_binary(Operation::Mul, a, b)
    }

    /// Creates a sine node over `a`; it depends on exactly the inputs `a`
    /// depends on.
    pub fn sin(&mut self, a: NodeId) -> (id: NodeId)
        requires
            old(self).wf(),
            a < old(self)@.len(),
        ensures
            final(self).wf(),
            id == old(self)@.len(),
            final(self)@.len() == old(self)@.len() + 1,
            forall|j: int| 0 <= j < old(self)@.len() ==> final(self)@[j] == old(self)@[j],
            final(self)@[id as int] == (NodeView {
                op: OpView::Sin,
                value: 0,
                operands: seq![a],
                deps: old(self)@[a as int].deps,
                cache: Seq::<(Seq<u32>, u32)>::empty(),
            }),
    {
        self.push_unary(Operation::Sin, a)
    }

    /// Creates a node raising `a` to the fixed exponent whose bit pattern is
    /// `exponent`; it depends on exactly the inputs `a` depends on.
    pub fn pow(&mut self, a: NodeId, exponent: u32) -> (id: NodeId)
        requires
            old(self).wf(),
            a < old(self)@.len(),
        ensures
            final(self).wf(),
            id == old(self)@.len(),
            final(self)@.len() == old(self)@.len() + 1,
            forall|j: int| 0 <= j < old(self)@.len() ==> final(self)@[j] == old(self)@[j],
            final(self)@[id as int] == (NodeView {
                op: OpView::Pow(exponent),
                value: 0,
                operands: seq![a],
                deps: old(self)@[a as int].deps,
                cache: Seq::<(Seq<u32>, u32)>::empty(),
            }),
    {
        self.push_unary(Operation::Pow(exponent), a)
    }

    /// Binds the value of the input node `id`. Nothing else changes; in
    /// particular, rebinding the value already held leaves the graph exactly
    /// as it was.
    pub fn set(&mut self, id: NodeId, value: u32)
        requires
            old(self).wf(),
            id < old(self)@.len(),
            old(self)@[id as int].op is Input,
        ensures
            final(self).wf(),
            final(self)@.len() == old(self)@.len(),
            forall|j: int|
                0 <= j < old(self)@.len() && j != id ==> final(self)@[j] == old(self)@[j],
            final(self)@[id as int] == (NodeView { value, ..old(self)@[id as int] }),
            old(self)@[id as int].value == value ==> final(self)@ == old(self)@,
    {
        self.nodes[id].value = value;
        proof {
            assert(self@ =~~= old(self)@.update(
                id as int,
                NodeView { value, ..old(self)@[id as int] },
            ));
            lemma_wf_same_structure(old(self)@, self@);
            if old(self)@[id as int].value == value {
                assert(self@ =~~= old(self)@);
            }
        }
    }

    /// The operation of node `id`.
    pub fn op(&self, id: NodeId) -> (r: &Operation)
        requires
            id < self@.len(),
        ensures
            r@ == self@[id as int].op,
    {
        &self.nodes[id].op
    }

    /// The currently bound value of node `id` (meaningful for input nodes).
    pub fn value(&self, id: NodeId) -> (r: u32)
        requires
            id < self@.len(),
        ensures
            r == self@[id as int].value,
    {
        self.nodes[id].value
    }

    /// The operand list of node `id`, fixed at construction.
    pub fn operands(&self, id: NodeId) -> (r: &Vec<NodeId>)
        requires
            id < self@.len(),
        ensures
            r@ == self@[id as int].operands,
    {
        &self.nodes[id].operands
    }

    /// The dependency list of node `id`: the input nodes it transitively
    /// reaches, in strictly increasing order, each counted once.
    pub fn deps(&self, id: NodeId) -> (r: &Vec<NodeId>)
        requires
            id < self@.len(),
        ensures
            r@ == self@[id as int].deps,
    {
        &self.nodes[id].deps
    }
}

} // verus!
