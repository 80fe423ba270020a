use compgraph::eval::Poll;
use compgraph::graph::{Graph, NodeId};
use compgraph::op::{Operation, Request};

const NODE_VALUE_DEFAULT: f32 = 0f32;

/// Rounds to the given number of decimal digits.
fn round(x: f32, precision: u32) -> f32 {
    let m = 10i32.pow(precision) as f32;
    (x * m).round() / m
}

/// Performs one requested arithmetic step on f32 values carried as bits.
fn answer(req: Request) -> u32 {
    match req {
        Request::Add(a, b) => (f32::from_bits(a) + f32::from_bits(b)).to_bits(),
        Request::Mul(a, b) => (f32::from_bits(a) * f32::from_bits(b)).to_bits(),
        Request::Sin(a) => f32::from_bits(a).sin().to_bits(),
        Request::Pow(a, e) => f32::from_bits(a).powf(f32::from_bits(e)).to_bits(),
    }
}

/// Drives evaluation of `root` to completion, answering every request;
/// returns the computed value and how many arithmetic steps were needed.
fn compute_counting(g: &mut Graph, root: NodeId) -> (f32, usize) {
    let mut steps: usize = 0;
    loop {
        match g.poll(root) {
            Poll::Done(v) => return (f32::from_bits(v), steps),
            Poll::Need(i, req) => {
                g.record(i, answer(req));
                steps += 1;
            }
        }
    }
}

fn compute(g: &mut Graph, root: NodeId) -> f32 {
    compute_counting(g, root).0
}

fn set(g: &mut Graph, x: NodeId, v: f32) {
    g.set(x, v.to_bits());
}

#[test]
fn node_new_test() {
    let mut g = Graph::new();
    let node = g.input("x1".to_string());
    assert!(match g.op(node) {
        Operation::Input(name) => name == "x1",
        _ => false,
    });
    assert!(g.value(node) == NODE_VALUE_DEFAULT.to_bits());
    assert!(g.operands(node).len() == 0);
}

#[test]
fn node_set_test() {
    let mut g = Graph::new();
    let node = g.input("x1".to_string());
    set(&mut g, node, 10f32);
    assert!(match g.op(node) {
        Operation::Input(name) => name == "x1",
        _ => false,
    });
    assert!(g.value(node) == (10f32).to_bits());
    assert!(g.operands(node).len() == 0);
}

#[test]
fn node_compute_test() {
    let mut g = Graph::new();
    let x1 = g.input("x1".to_string());
    let x2 = g.input("x2".to_string());
    let x3 = g.input("x3".to_string());
    let x4 = g.input("x4".to_string());
    let x5 = g.input("x5".to_string());
    // graph = sin(x1) * x2^3 + (x3 + x4) * x5
    let s = g.sin(x1);
    let p = g.pow(x2, (3f32).to_bits());
    let left = g.mul(s, p);
    let sum = g.add(x3, x4);
    let right = g.mul(sum, x5);
    let graph = g.add(left, right);
    set(&mut g, x1, 1f32);
    set(&mut g, x2, 2f32);
    set(&mut g, x3, 3f32);
    set(&mut g, x4, 4f32);
    set(&mut g, x5, 5f32);

    let mut result = compute(&mut g, graph);
    assert_eq!(round(result, 5), 41.73177);

    set(&mut g, x1, 2f32);
    set(&mut g, x2, 3f32);
    set(&mut g, x3, 4f32);
    set(&mut g, x4, 5f32);
    set(&mut g, x5, 6f32);

    result = compute(&mut g, graph);
    assert_eq!(round(result, 5), 78.55103);
}

#[test]
fn create_input_test() {
    let mut g = Graph::new();
    let input = g.input("ABCD".to_string());
    assert!(match g.op(input) {
        Operation::Input(name) => name == "ABCD",
        _ => false,
    });
}

#[test]
fn pow_f32_test() {
    let mut g = Graph::new();
    let x1 = g.input("x1".to_string());
    let node = g.pow(x1, (10f32).to_bits());
    assert!(match g.op(node) {
        Operation::Pow(_exp) => true,
        _ => false,
    });
    assert!(g.value(node) == NODE_VALUE_DEFAULT.to_bits());
    assert!(g.operands(node).len() == 1);
}

#[test]
fn add_test() {
    let mut g = Graph::new();
    let x1 = g.input("x1".to_string());
    let x2 = g.input("x2".to_string());
    let node = g.add(x1, x2);
    assert!(match g.op(node) {
        Operation::Add => true,
        _ => false,
    });
    assert!(g.value(node) == NODE_VALUE_DEFAULT.to_bits());
    assert!(g.operands(node).len() == 2);
}

#[test]
fn mul_test() {
    let mut g = Graph::new();
    let x1 = g.input("x1".to_string());
    let x2 = g.input("x2".to_string());
    let node = g.mul(x1, x2);
    assert!(match g.op(node) {
        Operation::Mul => true,
        _ => false,
    });
    assert!(g.value(node) == NODE_VALUE_DEFAULT.to_bits());
    assert!(g.operands(node).len() == 2);
}

#[test]
fn sin_test() {
    let mut g = Graph::new();
    let x1 = g.input("x1".to_string());
    let node = g.sin(x1);
    assert!(match g.op(node) {
        Operation::Sin => true,
        _ => false,
    });
    assert!(g.value(node) == NODE_VALUE_DEFAULT.to_bits());
    assert!(g.operands(node).len() == 1);
}

// graph = x1 + x2 * sin(x2 + x3^3), evaluated at two bindings.
#[test]
fn scenario_diamond_test() {
    let mut g = Graph::new();
    let x1 = g.input("x1".to_string());
    let x2 = g.input("x2".to_string());
    let x3 = g.input("x3".to_string());
    let p = g.pow(x3, (3f32).to_bits());
    let inner = g.add(x2, p);
    let s = g.sin(inner);
    let m = g.mul(x2, s);
    let graph = g.add(x1, m);
    set(&mut g, x1, 1f32);
    set(&mut g, x2, 2f32);
    set(&mut g, x3, 3f32);
    let result = compute(&mut g, graph);
    assert_eq!(round(result, 5), -0.32727);
    set(&mut g, x1, 2f32);
    set(&mut g, x2, 3f32);
    set(&mut g, x3, 4f32);
    let result = compute(&mut g, graph);
    assert_eq!(round(result, 5), -0.56656);
}

// Dependency union: deps(add(a, b)) is the union of deps(a) and deps(b),
// with an input shared between the two counted once.
#[test]
fn dependency_union_test() {
    let mut g = Graph::new();
    let x = g.input("x".to_string());
    let y = g.input("y".to_string());
    let z = g.input("z".to_string());
    let a = g.add(x, y);
    let b = g.mul(x, z);
    let n = g.add(a, b);
    assert_eq!(g.deps(a).clone(), vec![x, y]);
    assert_eq!(g.deps(b).clone(), vec![x, z]);
    // x reachable through both operands, listed once:
    assert_eq!(g.deps(n).clone(), vec![x, y, z]);
    let twice = g.add(x, x);
    assert_eq!(g.deps(twice).clone(), vec![x]);
}

/// Builds `sin(x) * y + x` with `x = 0.5`, `y = 2.5`; returns its root.
fn build_transparency_graph(g: &mut Graph) -> NodeId {
    let x = g.input("x".to_string());
    let y = g.input("y".to_string());
    let s = g.sin(x);
    let m = g.mul(s, y);
    let r = g.add(m, x);
    set(g, x, 0.5f32);
    set(g, y, 2.5f32);
    r
}

// Memoization transparency: computing twice with no set in between returns
// the identical value, the second time without any arithmetic at all, and
// both equal a from-scratch recomputation on a fresh (cache-free) graph.
#[test]
fn memoization_transparency_test() {
    let mut g = Graph::new();
    let root = build_transparency_graph(&mut g);
    let (first, steps_first) = compute_counting(&mut g, root);
    assert!(steps_first > 0);
    let (second, steps_second) = compute_counting(&mut g, root);
    assert_eq!(first.to_bits(), second.to_bits());
    assert_eq!(steps_second, 0);
    let mut fresh = Graph::new();
    let fresh_root = build_transparency_graph(&mut fresh);
    let scratch = compute(&mut fresh, fresh_root);
    assert_eq!(first.to_bits(), scratch.to_bits());
}

// Cache correctness under mutation: changing an input outside deps(n) leaves
// compute(n) cached and unchanged.
#[test]
fn cache_mutation_test() {
    let mut g = Graph::new();
    let x1 = g.input("x1".to_string());
    let x2 = g.input("x2".to_string());
    let x3 = g.input("x3".to_string());
    let n = g.mul(x1, x2);
    let other = g.add(n, x3);
    set(&mut g, x1, 3f32);
    set(&mut g, x2, 4f32);
    set(&mut g, x3, 5f32);
    let before = compute(&mut g, n);
    assert!(!g.deps(n).contains(&x3));
    set(&mut g, x3, 100f32);
    let (after, steps) = compute_counting(&mut g, n);
    assert_eq!(before.to_bits(), after.to_bits());
    assert_eq!(steps, 0);
    // while a node that does depend on x3 sees the new value:
    assert_eq!(compute(&mut g, other), 12f32 + 100f32);
}

// Idempotent rebind: set(x, v) followed, after a compute, by set(x, v) again
// with the same v leaves the computed result (and the cache) unchanged.
#[test]
fn idempotent_rebind_test() {
    let mut g = Graph::new();
    let x = g.input("x".to_string());
    let y = g.input("y".to_string());
    let n = g.mul(x, y);
    set(&mut g, x, 7f32);
    set(&mut g, y, 6f32);
    let before = compute(&mut g, n);
    set(&mut g, x, 7f32);
    let (after, steps) = compute_counting(&mut g, n);
    assert_eq!(before.to_bits(), after.to_bits());
    assert_eq!(steps, 0);
}

// An input evaluated before any set yields zero, by definition.
#[test]
fn unbound_input_test() {
    let mut g = Graph::new();
    let x = g.input("x".to_string());
    let y = g.input("y".to_string());
    let n = g.add(x, y);
    assert_eq!(compute(&mut g, x), 0f32);
    assert_eq!(compute(&mut g, n), 0f32);
}

// A shared sub-expression (one node feeding two branches of one parent) is
// computed once per binding and contributes to both branches.
#[test]
fn shared_subexpression_test() {
    let mut g = Graph::new();
    let x = g.input("x".to_string());
    let d = g.add(x, x);
    let n = g.mul(d, d);
    set(&mut g, x, 3f32);
    let (v, steps) = compute_counting(&mut g, n);
    assert_eq!(v, 36f32);
    // one step for d, one for n: d's second occurrence hits the cache
    assert_eq!(steps, 2);
}

// Entries for earlier bindings stay valid: switching back to an
// already-computed binding is answered from the cache alone.
#[test]
fn snapshot_revalidation_test() {
    let mut g = Graph::new();
    let x = g.input("x".to_string());
    let y = g.input("y".to_string());
    let n = g.add(x, y);
    set(&mut g, x, 1f32);
    set(&mut g, y, 2f32);
    let first = compute(&mut g, n);
    assert_eq!(first, 3f32);
    set(&mut g, x, 10f32);
    assert_eq!(compute(&mut g, n), 12f32);
    set(&mut g, x, 1f32);
    let (again, steps) = compute_counting(&mut g, n);
    assert_eq!(again.to_bits(), first.to_bits());
    assert_eq!(steps, 0);
}

// cached_value performs no arithmetic: it reports an input's bound value,
// None for a composite node not yet computed under the current binding, and
// the recorded result afterwards.
#[test]
fn cached_value_test() {
    let mut g = Graph::new();
    let x = g.input("x".to_string());
    let y = g.input("y".to_string());
    let n = g.add(x, y);
    assert_eq!(g.len(), 3);
    set(&mut g, x, 4f32);
    assert_eq!(g.cached_value(x), Some((4f32).to_bits()));
    assert_eq!(g.cached_value(n), None);
    let v = compute(&mut g, n);
    assert_eq!(g.cached_value(n), Some(v.to_bits()));
    set(&mut g, x, 5f32);
    assert_eq!(g.cached_value(n), None);
}

// Exact operator semantics on representable values.
#[test]
fn operator_semantics_test() {
    let mut g = Graph::new();
    let x = g.input("x".to_string());
    let y = g.input("y".to_string());
    let s = g.add(x, y);
    let m = g.mul(x, y);
    let p = g.pow(x, (3f32).to_bits());
    let sine = g.sin(x);
    set(&mut g, x, 2f32);
    set(&mut g, y, 5f32);
    assert_eq!(compute(&mut g, s), 7f32);
    assert_eq!(compute(&mut g, m), 10f32);
    assert_eq!(compute(&mut g, p), 8f32);
    assert_eq!(compute(&mut g, sine), (2f32).sin());
}
