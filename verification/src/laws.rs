use vstd::prelude::*;

use crate::eval::{cache_lookup, descends, lemma_descends_step, resolved, snapshot};
use crate::graph::{graph_wf, lemma_wf_same_structure, node_wf, strictly_sorted, NodeId, NodeView};
use crate::op::{OpView, Request};

verus! {

/// From-scratch evaluation of node `i` with caching disabled, against an
/// oracle `ops` saying what the driver answers to each arithmetic request:
/// an input yields its bound value; a composite node applies its operation
/// to its operands' from-scratch values.
pub open spec fn denote(g: Seq<NodeView>, i: int, ops: spec_fn(Request) -> u32) -> u32
    decreases i
        when graph_wf(g) && 0 <= i < g.len()
{
    proof {
        assert(node_wf(g, i));
    }
    let n = g[i];
    match n.op {
        OpView::Input(_) => n.value,
        OpView::Add => ops(
            Request::Add(
                denote(g, n.operands[0] as int, ops),
                denote(g, n.operands[1] as int, ops),
            ),
        ),
        OpView::Mul => ops(
            Request::Mul(
                denote(g, n.operands[0] as int, ops),
                denote(g, n.operands[1] as int, ops),
            ),
        ),
        OpView::Sin => ops(Request::Sin(denote(g, n.operands[0] as int, ops))),
        OpView::Pow(e) => ops(Request::Pow(denote(g, n.operands[0] as int, ops), e)),
    }
}

/// `g2` has the same nodes as `g1` up to bound values and cache contents:
/// operations, operand lists and dependency lists all agree.
pub open spec fn same_structure(g1: Seq<NodeView>, g2: Seq<NodeView>) -> bool {
    &&& g1.len() == g2.len()
    &&& forall|j: int|
        0 <= j < g1.len() ==> {
            &&& (#[trigger] g2[j]).op == g1[j].op
            &&& g2[j].operands == g1[j].operands
            &&& g2[j].deps == g1[j].deps
        }
}

/// From-scratch evaluation of node `i` reads nothing but the values bound to
/// the inputs in `dependencies(i)`: two well-formed graphs with the same
/// structure up to `i` that agree on those values evaluate `i` identically.
pub proof fn lemma_denote_frame(
    g1: Seq<NodeView>,
    g2: Seq<NodeView>,
    i: int,
    ops: spec_fn(Request) -> u32,
)
    requires
        graph_wf(g1),
        graph_wf(g2),
        0 <= i < g1.len(),
        i < g2.len(),
        forall|j: int|
            0 <= j <= i ==> {
                &&& (#[trigger] g2[j]).op == g1[j].op
                &&& g2[j].operands == g1[j].operands
                &&& g2[j].deps == g1[j].deps
            },
        forall|d: NodeId|
            #[trigger] g1[i].deps.contains(d) ==> g2[d as int].value == g1[d as int].value,
    ensures
        denote(g2, i, ops) == denote(g1, i, ops),
    decreases i,
{
    assert(node_wf(g1, i));
    assert(node_wf(g2, i));
    let n = g1[i];
    match n.op {
        OpView::Input(_) => {
            assert(g1[i].deps.contains(g1[i].deps[0]));
        },
        OpView::Add | OpView::Mul => {
            let o0 = n.operands[0] as int;
            let o1 = n.operands[1] as int;
            assert forall|d: NodeId| #[trigger] g1[o0].deps.contains(d) implies g1[i].deps.contains(
                d,
            ) by {
                assert(g1[o0].deps.to_set().contains(d));
                assert(g1[i].deps.to_set().contains(d));
            }
            assert forall|d: NodeId| #[trigger] g1[o1].deps.contains(d) implies g1[i].deps.contains(
                d,
            ) by {
                assert(g1[o1].deps.to_set().contains(d));
                assert(g1[i].deps.to_set().contains(d));
            }
            lemma_denote_frame(g1, g2, o0, ops);
            lemma_denote_frame(g1, g2, o1, ops);
        },
        OpView::Sin | OpView::Pow(_) => {
            let o0 = n.operands[0] as int;
            assert(g1[o0].deps == g1[i].deps);
            lemma_denote_frame(g1, g2, o0, ops);
        },
    }
}

/// `g` with the dependency values of node `i` overridden, position by
/// position, by the stored snapshot `snap`; everything else unchanged.
pub open spec fn with_snapshot(g: Seq<NodeView>, i: int, snap: Seq<u32>) -> Seq<NodeView> {
    Seq::new(
        g.len(),
        |j: int|
            if g[i].deps.contains(j as NodeId) {
                NodeView { value: snap[g[i].deps.index_of(j as NodeId)], ..g[j] }
            } else {
                g[j]
            },
    )
}

/// Basic facts about `with_snapshot`: it keeps the structure (hence
/// well-formedness), binds each dependency to its snapshot entry, and leaves
/// every other value alone.
pub proof fn lemma_with_snapshot_facts(g: Seq<NodeView>, i: int, snap: Seq<u32>)
    requires
        graph_wf(g),
        0 <= i < g.len(),
    ensures
        with_snapshot(g, i, snap).len() == g.len(),
        same_structure(g, with_snapshot(g, i, snap)),
        graph_wf(with_snapshot(g, i, snap)),
        forall|j: int|
            0 <= j < g.len() ==> (#[trigger] with_snapshot(g, i, snap)[j]).cache == g[j].cache,
        forall|j: int|
            0 <= j < g.len() && !g[i].deps.contains(j as NodeId) ==> (#[trigger] with_snapshot(
                g,
                i,
                snap,
            )[j]).value == g[j].value,
        forall|k: int|
            0 <= k < g[i].deps.len() ==> (#[trigger] with_snapshot(g, i, snap)[g[i].deps[k] as int]).value
                == snap[k],
{
    let ws = with_snapshot(g, i, snap);
    assert(node_wf(g, i));
    assert forall|j: int| 0 <= j < g.len() implies {
        &&& (#[trigger] ws[j]).op == g[j].op
        &&& ws[j].operands == g[j].operands
        &&& ws[j].deps == g[j].deps
        &&& ws[j].cache == g[j].cache
    } by {
        if g[i].deps.contains(j as NodeId) {
            assert(ws[j] == (NodeView { value: snap[g[i].deps.index_of(j as NodeId)], ..g[j] }));
        }
    }
    lemma_wf_same_structure(g, ws);
    assert forall|k: int| 0 <= k < g[i].deps.len() implies (#[trigger] ws[g[i].deps[k] as int]).value
        == snap[k] by {
        let d = g[i].deps[k];
        assert(g[i].deps.contains(d));
        let m = g[i].deps.index_of(d);
        assert(0 <= m < g[i].deps.len() && g[i].deps[m] == d);
        if m < k {
            assert(g[i].deps[m] < g[i].deps[k]);
        }
        if k < m {
            assert(g[i].deps[k] < g[i].deps[m]);
        }
        assert(m == k);
        assert(d <= i < g.len());
    }
}

/// A successful cache lookup names an actual entry: some stored pair carries
/// the looked-up snapshot and the returned result.
pub proof fn lemma_cache_lookup_index(cache: Seq<(Seq<u32>, u32)>, snap: Seq<u32>) -> (k: int)
    requires
        cache_lookup(cache, snap) is Some,
    ensures
        0 <= k < cache.len(),
        cache[k].0 == snap,
        cache_lookup(cache, snap) == Some(cache[k].1),
    decreases cache.len(),
{
    if cache[0].0 == snap {
        0
    } else {
        let k = lemma_cache_lookup_index(cache.drop_first(), snap) + 1;
        assert(cache.drop_first()[k - 1] == cache[k]);
        k
    }
}

/// A cache entry of node `i` is coherent with the oracle `ops` when its
/// stored snapshot holds one value per dependency and its stored result is
/// the from-scratch value of `i` in the graph whose dependency values are
/// the stored ones.
pub open spec fn entry_ok(
    g: Seq<NodeView>,
    i: int,
    e: (Seq<u32>, u32),
    ops: spec_fn(Request) -> u32,
) -> bool {
    &&& e.0.len() == g[i].deps.len()
    &&& e.1 == denote(with_snapshot(g, i, e.0), i, ops)
}

/// Every cache entry of every node is coherent with the oracle `ops`. This
/// is the evaluator's central invariant: construction leaves caches empty,
/// `set` touches no cache, and `record` — handed the oracle's own answer —
/// appends only coherent entries.
pub open spec fn cache_ok(g: Seq<NodeView>, ops: spec_fn(Request) -> u32) -> bool {
    forall|i: int, k: int|
        0 <= i < g.len() && 0 <= k < g[i].cache.len() ==> entry_ok(
            g,
            i,
            #[trigger] g[i].cache[k],
            ops,
        )
}

/// A cache entry's coherence depends only on the graph's structure up to its
/// node, never on currently bound values or on any cache.
pub proof fn lemma_entry_ok_transfer(
    g1: Seq<NodeView>,
    g2: Seq<NodeView>,
    i: int,
    e: (Seq<u32>, u32),
    ops: spec_fn(Request) -> u32,
)
    requires
        graph_wf(g1),
        graph_wf(g2),
        0 <= i < g1.len(),
        i < g2.len(),
        forall|j: int|
            0 <= j <= i ==> {
                &&& (#[trigger] g2[j]).op == g1[j].op
                &&& g2[j].operands == g1[j].operands
                &&& g2[j].deps == g1[j].deps
            },
        entry_ok(g1, i, e, ops),
    ensures
        entry_ok(g2, i, e, ops),
{
    lemma_with_snapshot_facts(g1, i, e.0);
    lemma_with_snapshot_facts(g2, i, e.0);
    let w1 = with_snapshot(g1, i, e.0);
    let w2 = with_snapshot(g2, i, e.0);
    assert(node_wf(g1, i));
    assert forall|d: NodeId| #[trigger] w1[i].deps.contains(d) implies w2[d as int].value
        == w1[d as int].value by {
        let m = choose|m: int| 0 <= m < g1[i].deps.len() && g1[i].deps[m] == d;
        assert(w1[g1[i].deps[m] as int].value == e.0[m]);
        assert(w2[g2[i].deps[m] as int].value == e.0[m]);
    }
    lemma_denote_frame(w1, w2, i, ops);
}

/// Creating new nodes preserves cache coherence: existing nodes are left
/// untouched and a new node's cache starts empty.
pub proof fn lemma_extend_preserves_cache_ok(
    g1: Seq<NodeView>,
    g2: Seq<NodeView>,
    ops: spec_fn(Request) -> u32,
)
    requires
        graph_wf(g1),
        graph_wf(g2),
        cache_ok(g1, ops),
        g1.len() <= g2.len(),
        forall|j: int| 0 <= j < g1.len() ==> #[trigger] g2[j] == g1[j],
        forall|j: int| g1.len() <= j < g2.len() ==> (#[trigger] g2[j]).cache.len() == 0,
    ensures
        cache_ok(g2, ops),
{
    assert forall|i: int, k: int|
        0 <= i < g2.len() && 0 <= k < g2[i].cache.len() implies entry_ok(
        g2,
        i,
        #[trigger] g2[i].cache[k],
        ops,
    ) by {
        assert(i < g1.len());
        assert(entry_ok(g1, i, g1[i].cache[k], ops));
        lemma_entry_ok_transfer(g1, g2, i, g1[i].cache[k], ops);
    }
}

/// Re-binding input values (`set`) preserves cache coherence: a stored
/// snapshot overrides every value its stored result was computed from.
pub proof fn lemma_set_preserves_cache_ok(
    g1: Seq<NodeView>,
    g2: Seq<NodeView>,
    ops: spec_fn(Request) -> u32,
)
    requires
        graph_wf(g1),
        graph_wf(g2),
        cache_ok(g1, ops),
        same_structure(g1, g2),
        forall|j: int| 0 <= j < g1.len() ==> (#[trigger] g2[j]).cache == g1[j].cache,
    ensures
        cache_ok(g2, ops),
{
    assert forall|i: int, k: int|
        0 <= i < g2.len() && 0 <= k < g2[i].cache.len() implies entry_ok(
        g2,
        i,
        #[trigger] g2[i].cache[k],
        ops,
    ) by {
        assert(g2[i].cache[k] == g1[i].cache[k]);
        assert(entry_ok(g1, i, g1[i].cache[k], ops));
        lemma_entry_ok_transfer(g1, g2, i, g1[i].cache[k], ops);
    }
}

/// `record` preserves cache coherence when — as the driver contract has it —
/// the recorded result is the oracle's answer for the node's request, that
/// is, the node's from-scratch value at the current binding.
pub proof fn lemma_record_preserves_cache_ok(
    g1: Seq<NodeView>,
    g2: Seq<NodeView>,
    i: int,
    result: u32,
    ops: spec_fn(Request) -> u32,
)
    requires
        graph_wf(g1),
        graph_wf(g2),
        cache_ok(g1, ops),
        0 <= i < g1.len(),
        same_structure(g1, g2),
        forall|j: int| 0 <= j < g1.len() ==> (#[trigger] g2[j]).value == g1[j].value,
        forall|j: int| 0 <= j < g1.len() && j != i ==> (#[trigger] g2[j]).cache == g1[j].cache,
        g2[i].cache == g1[i].cache.push((snapshot(g1, i), result)),
        result == denote(g1, i, ops),
    ensures
        cache_ok(g2, ops),
{
    assert(node_wf(g1, i));
    assert forall|j: int, k: int|
        0 <= j < g2.len() && 0 <= k < g2[j].cache.len() implies entry_ok(
        g2,
        j,
        #[trigger] g2[j].cache[k],
        ops,
    ) by {
        if j != i || k < g1[i].cache.len() {
            assert(g2[j].cache[k] == g1[j].cache[k]);
            assert(entry_ok(g1, j, g1[j].cache[k], ops));
            lemma_entry_ok_transfer(g1, g2, j, g1[j].cache[k], ops);
        } else {
            let snap = snapshot(g1, i);
            assert(g2[i].cache[k] == (snap, result));
            lemma_with_snapshot_facts(g2, i, snap);
            let w2 = with_snapshot(g2, i, snap);
            assert forall|d: NodeId| #[trigger] g2[i].deps.contains(d) implies w2[d as int].value
                == g2[d as int].value by {
                let m = choose|m: int| 0 <= m < g2[i].deps.len() && g2[i].deps[m] == d;
                assert(w2[g2[i].deps[m] as int].value == snap[m]);
                assert(snap[m] == g1[g1[i].deps[m] as int].value);
            }
            lemma_denote_frame(g2, w2, i, ops);
            lemma_denote_frame(g1, g2, i, ops);
        }
    }
}

/// Memoization transparency: while every recorded entry is coherent with the
/// oracle `ops`, whatever a node resolves to — its bound value for an input,
/// a cache hit otherwise — equals the from-scratch recomputation with
/// caching disabled. In particular, computing a root twice with no `set`
/// between the calls returns the identical value both times: the second call
/// resolves at once to the result the first one recorded, and this lemma
/// equates that result with a cache-less evaluation's.
pub proof fn lemma_resolved_sound(g: Seq<NodeView>, i: int, ops: spec_fn(Request) -> u32)
    requires
        graph_wf(g),
        cache_ok(g, ops),
        0 <= i < g.len(),
        resolved(g, i) is Some,
    ensures
        resolved(g, i) == Some(denote(g, i, ops)),
{
    assert(node_wf(g, i));
    if !(g[i].op is Input) {
        let snap = snapshot(g, i);
        let k = lemma_cache_lookup_index(g[i].cache, snap);
        let e = g[i].cache[k];
        assert(entry_ok(g, i, e, ops));
        lemma_with_snapshot_facts(g, i, snap);
        let ws = with_snapshot(g, i, snap);
        assert forall|d: NodeId| #[trigger] g[i].deps.contains(d) implies ws[d as int].value
            == g[d as int].value by {
            let m = choose|m: int| 0 <= m < g[i].deps.len() && g[i].deps[m] == d;
            assert(ws[g[i].deps[m] as int].value == snap[m]);
            assert(snap[m] == g[g[i].deps[m] as int].value);
        }
        lemma_denote_frame(g, ws, i, ops);
        assert(resolved(g, i) == Some(e.1));
    }
}

/// Cache correctness under mutation: after changing the value bound to an
/// input that is not among `dependencies(n)`, node `n` resolves to exactly
/// what it resolved to before — the snapshots it is compared against read
/// only inputs it depends on — and its from-scratch value is unchanged too.
pub proof fn lemma_untouched_input(
    g1: Seq<NodeView>,
    g2: Seq<NodeView>,
    x: int,
    n: int,
    ops: spec_fn(Request) -> u32,
)
    requires
        graph_wf(g1),
        graph_wf(g2),
        same_structure(g1, g2),
        0 <= n < g1.len(),
        0 <= x < g1.len(),
        forall|j: int| 0 <= j < g1.len() && j != x ==> (#[trigger] g2[j]).value == g1[j].value,
        forall|j: int| 0 <= j < g1.len() ==> (#[trigger] g2[j]).cache == g1[j].cache,
        !g1[n].deps.contains(x as NodeId),
    ensures
        resolved(g2, n) == resolved(g1, n),
        denote(g2, n, ops) == denote(g1, n, ops),
{
    assert(node_wf(g1, n));
    assert forall|d: NodeId| #[trigger] g1[n].deps.contains(d) implies g2[d as int].value
        == g1[d as int].value by {
        let m = choose|m: int| 0 <= m < g1[n].deps.len() && g1[n].deps[m] == d;
        assert(d != x as NodeId);
    }
    lemma_denote_frame(g1, g2, n, ops);
    assert(snapshot(g2, n) =~= snapshot(g1, n));
    if g1[n].op is Input {
        assert(g1[n].deps.contains(g1[n].deps[0]));
    }
}

/// Idempotent rebind: re-binding an input to the value it already holds —
/// as a repeated `set(x, v)` does — leaves the graph, and with it every
/// node's resolved and from-scratch value, exactly as it was.
pub proof fn lemma_idempotent_rebind(g: Seq<NodeView>, x: int, v: u32)
    requires
        0 <= x < g.len(),
        g[x].value == v,
    ensures
        g.update(x, NodeView { value: v, ..g[x] }) == g,
{
    assert(g.update(x, NodeView { value: v, ..g[x] }) =~~= g);
}

/// The dependency list a node was built with is exactly the set of input
/// nodes transitively reachable from it through operand edges: the
/// construction-time unions compute transitive reachability once and for
/// all, with nothing re-derived at evaluation time.
pub proof fn lemma_deps_are_reachable_inputs(g: Seq<NodeView>, i: int, d: NodeId)
    requires
        graph_wf(g),
        0 <= i < g.len(),
    ensures
        g[i].deps.contains(d) <==> (descends(g, i, d as int) && d < g.len() && g[d as int].op
            is Input),
    decreases i,
{
    assert(node_wf(g, i));
    match g[i].op {
        OpView::Input(_) => {
            assert(g[i].deps.contains(g[i].deps[0]));
            if descends(g, i, d as int) && d as int != i {
                let k = choose|k: int|
                    0 <= k < g[i].operands.len() && descends(
                        g,
                        (g[i].operands[k]) as int,
                        d as int,
                    );
                assert(false);
            }
        },
        OpView::Sin | OpView::Pow(_) => {
            let o0 = (g[i].operands[0]) as int;
            lemma_deps_are_reachable_inputs(g, o0, d);
            if g[i].deps.contains(d) {
                lemma_descends_step(g, i, 0, d as int);
            }
            if descends(g, i, d as int) && d < g.len() && g[d as int].op is Input {
                if i == d as int {
                    assert(false);
                }
                let k = choose|k: int|
                    0 <= k < g[i].operands.len() && descends(
                        g,
                        (g[i].operands[k]) as int,
                        d as int,
                    );
                assert(k == 0);
                assert(g[o0].deps.contains(d));
            }
        },
        OpView::Add | OpView::Mul => {
            let o0 = (g[i].operands[0]) as int;
            let o1 = (g[i].operands[1]) as int;
            lemma_deps_are_reachable_inputs(g, o0, d);
            lemma_deps_are_reachable_inputs(g, o1, d);
            if g[i].deps.contains(d) {
                assert(g[i].deps.to_set().contains(d));
                if g[o0].deps.to_set().contains(d) {
                    lemma_descends_step(g, i, 0, d as int);
                } else {
                    assert(g[o1].deps.to_set().contains(d));
                    lemma_descends_step(g, i, 1, d as int);
                }
            }
            if descends(g, i, d as int) && d < g.len() && g[d as int].op is Input {
                if i == d as int {
                    assert(false);
                }
                let k = choose|k: int|
                    0 <= k < g[i].operands.len() && descends(
                        g,
                        (g[i].operands[k]) as int,
                        d as int,
                    );
                assert(k == 0 || k == 1);
                assert(g[i].deps.to_set().contains(d));
            }
        },
    }
}

/// How many of the first `n` nodes resolve.
pub open spec fn resolved_count(g: Seq<NodeView>, n: int) -> nat
    decreases n,
{
    if n <= 0 {
        0
    } else {
        resolved_count(g, n - 1) + (if resolved(g, n - 1) is Some {
            1nat
        } else {
            0nat
        })
    }
}

proof fn lemma_resolved_count_step(g1: Seq<NodeView>, g2: Seq<NodeView>, i: int, n: int)
    requires
        g1.len() == g2.len(),
        0 <= i < g1.len(),
        resolved(g1, i) is None,
        resolved(g2, i) is Some,
        forall|j: int| 0 <= j < g1.len() && j != i ==> resolved(g2, j) == resolved(g1, j),
        0 <= n <= g1.len(),
    ensures
        resolved_count(g2, n) == resolved_count(g1, n) + (if i < n {
            1nat
        } else {
            0nat
        }),
    decreases n,
{
    if n > 0 {
        lemma_resolved_count_step(g1, g2, i, n - 1);
    }
}

/// Progress: a `record` guided by `poll` makes its node resolve while no
/// other node's resolution changes — exactly what `record` ensures — so
/// every poll/record round raises the number of resolved nodes by one, and
/// evaluation finishes within as many rounds as the graph has nodes.
pub proof fn lemma_record_progress(g1: Seq<NodeView>, g2: Seq<NodeView>, i: int)
    requires
        g1.len() == g2.len(),
        0 <= i < g1.len(),
        resolved(g1, i) is None,
        resolved(g2, i) is Some,
        forall|j: int| 0 <= j < g1.len() && j != i ==> resolved(g2, j) == resolved(g1, j),
    ensures
        resolved_count(g2, g1.len() as int) == resolved_count(g1, g1.len() as int) + 1,
{
    lemma_resolved_count_step(g1, g2, i, g1.len() as int);
}

/// Dependency union: a two-operand node's dependency set is the union of its
/// operands' dependency sets, and the dependency list is strictly sorted, so
/// an input shared between the two operands is counted exactly once.
pub proof fn lemma_dependency_union(g: Seq<NodeView>, n: int)
    requires
        graph_wf(g),
        0 <= n < g.len(),
        g[n].op is Add || g[n].op is Mul,
    ensures
        g[n].deps.to_set() == g[g[n].operands[0] as int].deps.to_set().union(
            g[g[n].operands[1] as int].deps.to_set(),
        ),
        strictly_sorted(g[n].deps),
{
    assert(node_wf(g, n));
}

} // verus!
