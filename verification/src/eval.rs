use vstd::pervasive::unreached;
use vstd::prelude::*;

use crate::graph::{graph_wf, lemma_wf_same_structure, node_wf, Graph, NodeId, NodeView};
use crate::op::{Operation, OpView, Request};

verus! {

/// The current dependency-value snapshot of node `i`: the values of its
/// dependencies, in the node's fixed dependency order.
pub open spec fn snapshot(g: Seq<NodeView>, i: int) -> Seq<u32> {
    g[i].deps.map_values(|d: NodeId| g[d as int].value)
}

/// The result recorded for `snap`, scanning the cache in order: the cache is
/// consulted by comparing each stored snapshot with the current one, element
/// by element, on the exact bit patterns.
pub open spec fn cache_lookup(cache: Seq<(Seq<u32>, u32)>, snap: Seq<u32>) -> Option<u32>
    decreases cache.len(),
{
    if cache.len() == 0 {
        None
    } else if cache[0].0 == snap {
        Some(cache[0].1)
    } else {
        cache_lookup(cache.drop_first(), snap)
    }
}

/// What node `i` resolves to without any new arithmetic: an input node
/// resolves to its currently bound value, any other node to its cached
/// result for the current snapshot, if one was recorded.
pub open spec fn resolved(g: Seq<NodeView>, i: int) -> Option<u32> {
    match g[i].op {
        OpView::Input(_) => Some(g[i].value),
        _ => cache_lookup(g[i].cache, snapshot(g, i)),
    }
}

/// Every operand of node `i` resolves.
pub open spec fn operands_resolved(g: Seq<NodeView>, i: int) -> bool {
    forall|k: int|
        0 <= k < g[i].operands.len() ==> resolved(g, (#[trigger] g[i].operands[k]) as int) is Some
}

/// The arithmetic step that finishes node `i` once all its operands resolve.
pub open spec fn request_for(g: Seq<NodeView>, i: int) -> Request {
    let n = g[i];
    match n.op {
        OpView::Input(_) => arbitrary(),
        OpView::Add => Request::Add(
            resolved(g, n.operands[0] as int).unwrap(),
            resolved(g, n.operands[1] as int).unwrap(),
        ),
        OpView::Mul => Request::Mul(
            resolved(g, n.operands[0] as int).unwrap(),
            resolved(g, n.operands[1] as int).unwrap(),
        ),
        OpView::Sin => Request::Sin(resolved(g, n.operands[0] as int).unwrap()),
        OpView::Pow(e) => Request::Pow(resolved(g, n.operands[0] as int).unwrap(), e),
    }
}

/// Node `b` lies in the operand subgraph of node `a` (including `a` itself).
pub open spec fn descends(g: Seq<NodeView>, a: int, b: int) -> bool
    decreases a
        when graph_wf(g) && 0 <= a < g.len()
{
    proof {
        assert(node_wf(g, a));
    }
    a == b || exists|k: int|
        0 <= k < g[a].operands.len() && descends(g, (#[trigger] g[a].operands[k]) as int, b)
}

/// Every node descends from itself.
pub proof fn lemma_descends_refl(g: Seq<NodeView>, a: int)
    requires
        graph_wf(g),
        0 <= a < g.len(),
    ensures
        descends(g, a, a),
{
}

/// Whatever descends from an operand of `a` descends from `a`.
pub proof fn lemma_descends_step(g: Seq<NodeView>, a: int, k: int, b: int)
    requires
        graph_wf(g),
        0 <= a < g.len(),
        0 <= k < g[a].operands.len(),
        descends(g, (g[a].operands[k]) as int, b),
    ensures
        descends(g, a, b),
{
    assert(node_wf(g, a));
}

/// What a `poll` call reports: either the root's value, or the one arithmetic
/// step the driver must perform and record before evaluation can go on.
pub enum Poll {
    Done(u32),
    Need(NodeId, Request),
}

/// Element-wise equality of two scalar vectors.
fn snap_eq(a: &Vec<u32>, b: &Vec<u32>) -> (r: bool)
    ensures
        r == (a@ == b@),
{
    if a.len() != b.len() {
        return false;
    }
    let mut k: usize = 0;
    while k < a.len()
        invariant
            k <= a@.len(),
            a@.len() == b@.len(),
            forall|m: int| 0 <= m < k ==> a@[m] == b@[m],
        decreases a@.len() - k,
    {
        if a[k] != b[k] {
            return false;
        }
        k = k + 1;
    }
    proof {
        assert(a@ =~= b@);
    }
    true
}

/// Appending a result for a snapshot that had none makes lookups of that
/// snapshot find it, and changes no other lookup.
proof fn lemma_cache_lookup_push(cache: Seq<(Seq<u32>, u32)>, snap: Seq<u32>, e: (Seq<u32>, u32))
    requires
        cache_lookup(cache, snap) is None,
    ensures
        cache_lookup(cache.push(e), snap) == if e.0 == snap {
            Some(e.1)
        } else {
            None::<u32>
        },
    decreases cache.len(),
{
    if cache.len() == 0 {
        assert(cache_lookup(Seq::<(Seq<u32>, u32)>::empty(), snap) is None);
        assert(cache.push(e)[0] == e);
        assert(cache.push(e).drop_first() =~= Seq::<(Seq<u32>, u32)>::empty());
    } else {
        assert(cache.push(e)[0] == cache[0]);
        assert(cache.push(e).drop_first() =~= cache.drop_first().push(e));
        lemma_cache_lookup_push(cache.drop_first(), snap, e);
    }
}

impl Graph {
    /// Builds the current dependency-value snapshot of node `i`.
    fn snapshot_vec(&self, i: NodeId) -> (r: Vec<u32>)
        requires
            self.wf(),
            i < self@.len(),
        ensures
            r@ == snapshot(self@, i as int),
    {
        proof {
            assert(node_wf(self@, i as int));
        }
        let mut r: Vec<u32> = Vec::new();
        let mut k: usize = 0;
        let n = self.nodes[i].deps.len();
        while k < n
            invariant
                self.wf(),
                i < self@.len(),
                node_wf(self@, i as int),
                n == self@[i as int].deps.len(),
                k <= n,
                r@ == snapshot(self@, i as int).take(k as int),
            decreases n - k,
        {
            let d = self.nodes[i].deps[k];
            r.push(self.nodes[d].value);
            proof {
                assert(snapshot(self@, i as int).take(k + 1) =~= snapshot(self@, i as int).take(
                    k as int,
                ).push(self@[d as int].value));
            }
            k = k + 1;
        }
        proof {
            assert(snapshot(self@, i as int).take(n as int) =~= snapshot(self@, i as int));
        }
        r
    }

    /// Returns what node `i` resolves to right now — its bound value for an
    /// input node, its cached result for the current snapshot otherwise —
    /// performing no arithmetic at all.
    pub fn cached_value(&self, i: NodeId) -> (r: Option<u32>)
        requires
            self.wf(),
            i < self@.len(),
        ensures
            r == resolved(self@, i as int),
    {
        match &self.nodes[i].op {
            Operation::Input(_) => Some(self.nodes[i].value),
            Operation::Add | Operation::Mul | Operation::Sin | Operation::Pow(_) => {
                let snap = self.snapshot_vec(i);
                let n = self.nodes[i].cache.len();
                let mut k: usize = 0;
                proof {
                    assert(self@[i as int].cache.skip(0) =~= self@[i as int].cache);
                }
                while k < n
                    invariant
                        self.wf(),
                        i < self@.len(),
                        !(self@[i as int].op is Input),
                        n == self@[i as int].cache.len(),
                        snap@ == snapshot(self@, i as int),
                        k <= n,
                        cache_lookup(self@[i as int].cache, snap@) == cache_lookup(
                            self@[i as int].cache.skip(k as int),
                            snap@,
                        ),
                    decreases n - k,
                {
                    if snap_eq(&self.nodes[i].cache[k].0, &snap) {
                        proof {
                            assert(self@[i as int].cache.skip(k as int)[0] == self@[i as int].cache[k as int]);
                            assert(cache_lookup(self@[i as int].cache.skip(k as int), snap@)
                                == Some(self@[i as int].cache[k as int].1));
                        }
                        return Some(self.nodes[i].cache[k].1);
                    }
                    proof {
                        assert(self@[i as int].cache.skip(k as int)[0] == self@[i as int].cache[k as int]);
                        assert(self@[i as int].cache.skip(k as int).drop_first()
                            =~= self@[i as int].cache.skip(k as int + 1));
                    }
                    k = k + 1;
                }
                proof {
                    assert(self@[i as int].cache.skip(n as int) =~= Seq::<(Seq<u32>, u32)>::empty());
                }
                None
            },
        }
    }

    /// One step of pull-based evaluation from `root`. Either the root already
    /// resolves — its value is returned with no arithmetic performed — or
    /// some node in the root's operand subgraph has all operands resolved but
    /// no cached result for the current snapshot; the deepest such node is
    /// reported, with the exact arithmetic step whose result `record` should
    /// be handed.
    pub fn poll(&self, root: NodeId) -> (r: Poll)
        requires
            self.wf(),
            root < self@.len(),
        ensures
            match r {
                Poll::Done(v) => resolved(self@, root as int) == Some(v),
                Poll::Need(i, req) => {
                    &&& resolved(self@, root as int) is None
                    &&& i < self@.len()
                    &&& descends(self@, root as int, i as int)
                    &&& !(self@[i as int].op is Input)
                    &&& resolved(self@, i as int) is None
                    &&& operands_resolved(self@, i as int)
                    &&& req == request_for(self@, i as int)
                },
            },
        decreases root,
    {
        let cached = self.cached_value(root);
        if let Some(v) = cached {
            return Poll::Done(v);
        }
        proof {
            assert(node_wf(self@, root as int));
            lemma_descends_refl(self@, root as int);
        }
        match &self.nodes[root].op {
            Operation::Input(_) => unreached(),
            Operation::Add => {
                let o0 = self.nodes[root].operands[0];
                let o1 = self.nodes[root].operands[1];
                let v0 = match self.poll(o0) {
                    Poll::Done(v) => v,
                    Poll::Need(ni, nreq) => {
                        proof {
                            lemma_descends_step(self@, root as int, 0, ni as int);
                        }
                        return Poll::Need(ni, nreq);
                    },
                };
                let v1 = match self.poll(o1) {
                    Poll::Done(v) => v,
                    Poll::Need(ni, nreq) => {
                        proof {
                            lemma_descends_step(self@, root as int, 1, ni as int);
                        }
                        return Poll::Need(ni, nreq);
                    },
                };
                Poll::Need(root, Request::Add(v0, v1))
            },
            Operation::Mul => {
                let o0 = self.nodes[root].operands[0];
                let o1 = self.nodes[root].operands[1];
                let v0 = match self.poll(o0) {
                    Poll::Done(v) => v,
                    Poll::Need(ni, nreq) => {
                        proof {
                            lemma_descends_step(self@, root as int, 0, ni as int);
                        }
                        return Poll::Need(ni, nreq);
                    },
                };
                let v1 = match self.poll(o1) {
                    Poll::Done(v) => v,
                    Poll::Need(ni, nreq) => {
                        proof {
                            lemma_descends_step(self@, root as int, 1, ni as int);
                        }
                        return Poll::Need(ni, nreq);
                    },
                };
                Poll::Need(root, Request::Mul(v0, v1))
            },
            Operation::Sin => {
                let o0 = self.nodes[root].operands[0];
                let v0 = match self.poll(o0) {
                    Poll::Done(v) => v,
                    Poll::Need(ni, nreq) => {
                        proof {
                            lemma_descends_step(self@, root as int, 0, ni as int);
                        }
                        return Poll::Need(ni, nreq);
                    },
                };
                Poll::Need(root, Request::Sin(v0))
            },
            Operation::Pow(e) => {
                let exponent = *e;
                let o0 = self.nodes[root].operands[0];
                let v0 = match self.poll(o0) {
                    Poll::Done(v) => v,
                    Poll::Need(ni, nreq) => {
                        proof {
                            lemma_descends_step(self@, root as int, 0, ni as int);
                        }
                        return Poll::Need(ni, nreq);
                    },
                };
                Poll::Need(root, Request::Pow(v0, exponent))
            },
        }
    }

    /// Records `result` for node `i` under the current dependency-value
    /// snapshot, which must not have a cached result yet (as reported by
    /// `poll`). Afterwards the node resolves to `result`; no other node's
    /// resolution, and nothing structural, changes.
    pub fn record(&mut self, i: NodeId, result: u32)
        requires
            old(self).wf(),
            i < old(self)@.len(),
            resolved(old(self)@, i as int) is None,
        ensures
            final(self).wf(),
            final(self)@.len() == old(self)@.len(),
            forall|j: int|
                0 <= j < old(self)@.len() && j != i ==> final(self)@[j] == old(self)@[j],
            final(self)@[i as int] == (NodeView {
                cache: old(self)@[i as int].cache.push((snapshot(old(self)@, i as int), result)),
                ..old(self)@[i as int]
            }),
            resolved(final(self)@, i as int) == Some(result),
            forall|j: int|
                0 <= j < old(self)@.len() ==> snapshot(final(self)@, j) == snapshot(old(self)@, j),
            forall|j: int|
                0 <= j < old(self)@.len() && j != i ==> resolved(final(self)@, j) == resolved(
                    old(self)@,
                    j,
                ),
    {
        let snap = self.snapshot_vec(i);
        let ghost snapseq = snap@;
        self.nodes[i].cache.push((snap, result));
        proof {
            assert(self@ =~~= old(self)@.update(
                i as int,
                NodeView {
                    cache: old(self)@[i as int].cache.push((snapseq, result)),
                    ..old(self)@[i as int]
                },
            ));
            lemma_wf_same_structure(old(self)@, self@);
            assert forall|j: int| 0 <= j < old(self)@.len() implies snapshot(self@, j) == snapshot(
                old(self)@,
                j,
            ) by {
                assert(node_wf(old(self)@, j));
                assert(snapshot(self@, j) =~= snapshot(old(self)@, j));
            }
            lemma_cache_lookup_push(
                old(self)@[i as int].cache,
                snapshot(old(self)@, i as int),
                (snapseq, result),
            );
        }
    }
}

} // verus!
