use neural_net_rs::{Graph, Operation, Scalar};

#[test]
fn sanity_check_add() {
    let mut g = Graph::new();
    let a = g.leaf(Scalar::from_int(-4));
    let b = g.leaf(Scalar::from_int(2));
    let c = g.add(a, b);
    assert_eq!(g.data(c), Scalar::from_int(-2));
    assert_ne!(g.data(c), Scalar::from_int(2));
}

#[test]
fn sanity_check_add_assign() {
    let mut g = Graph::new();
    let mut a = g.leaf(Scalar::from_int(-4));
    let b = g.leaf(Scalar::from_int(2));
    a = g.add(a, b);
    assert_eq!(g.data(a), Scalar::from_int(-2));
    assert_ne!(g.data(a), Scalar::from_int(2));
}

#[test]
fn sanity_check_sub() {
    let mut g = Graph::new();
    let a = g.leaf(Scalar::from_int(8));
    let b = g.leaf(Scalar::from_int(3));
    let c = g.sub(a, b);
    assert_eq!(g.data(c), Scalar::from_int(5));
    assert_ne!(g.data(c), Scalar::from_int(2));
}

#[test]
fn sanity_check_mul() {
    let mut g = Graph::new();
    let a = g.leaf(Scalar::from_int(-4));
    let b = g.leaf(Scalar::from_int(2));
    let c = g.mul(a, b);
    assert_eq!(g.data(c), Scalar::from_int(-8));
    assert_ne!(g.data(c), Scalar::from_int(2));
}

#[test]
fn sanity_check_mul_assign() {
    let mut g = Graph::new();
    let mut a = g.leaf(Scalar::from_int(-4));
    let b = g.leaf(Scalar::from_int(2));
    a = g.mul(a, b);
    assert_eq!(g.data(a), Scalar::from_int(-8));
    assert_ne!(g.data(a), Scalar::from_int(2));
}

#[test]
fn sanity_check_div() {
    let mut g = Graph::new();
    let a = g.leaf(Scalar::from_int(6));
    let b = g.leaf(Scalar::from_int(2));
    let c = g.div(a, b);
    assert_eq!(g.data(c), Scalar::from_int(3));
    assert_ne!(g.data(c), Scalar::from_int(2));
}

#[test]
fn sanity_check_neg() {
    let mut g = Graph::new();
    let a = g.leaf(Scalar::from_int(1));
    let b = g.neg(a);
    assert_eq!(g.data(b), Scalar::from_int(-1));
}

#[test]
fn sanity_check_pow() {
    let mut g = Graph::new();
    let a = g.leaf(Scalar::from_int(2));
    let c = g.pow(a, Scalar::from_int(3));
    assert_eq!(g.data(c), Scalar::from_int(8));
}

#[test]
fn sanity_check_backprop_add() {
    let mut g = Graph::new();
    let a = g.leaf(Scalar::from_int(1));
    let b = g.leaf(Scalar::from_int(2));
    let c = g.leaf(Scalar::from_int(3));
    let d = g.add(a, b);
    let e = g.add(c, d);
    for v in [a, b, c, d, e] {
        assert_eq!(g.grad(v), Scalar::from_int(0));
    }
    g.backward(e);
    for v in [a, b, c, d, e] {
        assert_eq!(g.grad(v), Scalar::from_int(1));
    }
}

#[test]
fn sanity_check_backprop() {
    let mut g = Graph::new();
    let a = g.leaf(Scalar::from_int(1));
    let b = g.leaf(Scalar::from_int(2));
    let c = g.leaf(Scalar::from_int(3));
    let d = g.mul(a, b);
    let e = g.mul(c, d);
    for v in [a, b, c, d, e] {
        assert_eq!(g.grad(v), Scalar::from_int(0));
    }
    g.backward(e);
    assert_eq!(g.grad(a), Scalar::from_int(6));
    assert_eq!(g.grad(b), Scalar::from_int(3));
    assert_eq!(g.grad(c), Scalar::from_int(2));
    assert_eq!(g.grad(d), Scalar::from_int(3));
    assert_eq!(g.grad(e), Scalar::from_int(1));
}

#[test]
fn sanity_check_relu() {
    let mut g = Graph::new();
    let a = g.leaf(Scalar::from_int(1));
    let b = g.leaf(Scalar::new(-3, 10));
    let c = g.sub(b, a);
    let ra = g.relu(a);
    let rb = g.relu(b);
    let rc = g.relu(c);
    assert_eq!(g.data(ra), Scalar::from_int(1));
    assert_eq!(g.data(rb), Scalar::from_int(0));
    assert_eq!(g.data(rc), Scalar::from_int(0));
}

// The end-to-end scenario with literal values: e = a*b, d = e+c, L = d*f.
#[test]
fn test_end_to_end_backprop() {
    let mut g = Graph::new();
    let a = g.leaf(Scalar::from_int(2));
    let b = g.leaf(Scalar::from_int(-3));
    let c = g.leaf(Scalar::from_int(10));
    let e = g.mul(a, b);
    let d = g.add(e, c);
    let f = g.leaf(Scalar::from_int(-2));
    let l = g.mul(d, f);
    assert_eq!(g.data(l), Scalar::from_int(-8));
    g.backward(l);
    assert_eq!(g.grad(f), Scalar::from_int(4));
    assert_eq!(g.grad(d), Scalar::from_int(-2));
    assert_eq!(g.grad(c), Scalar::from_int(-2));
    assert_eq!(g.grad(e), Scalar::from_int(-2));
    assert_eq!(g.grad(b), Scalar::from_int(-4));
    assert_eq!(g.grad(a), Scalar::from_int(6));
}

// The power rule: c = a^3 at a = 2 gives value 8 and gradient 3 * 2^2 = 12.
#[test]
fn test_power_rule() {
    let mut g = Graph::new();
    let a = g.leaf(Scalar::from_int(2));
    let c = g.pow(a, Scalar::from_int(3));
    assert_eq!(g.data(c), Scalar::from_int(8));
    g.backward(c);
    assert_eq!(g.grad(a), Scalar::from_int(12));
}

// Relu at a negative value blocks the gradient no matter how large the
// upstream gradient is; at a positive value it passes it through unchanged.
#[test]
fn test_relu_boundary() {
    let mut g = Graph::new();
    let b = g.leaf(Scalar::new(-3, 10));
    let r = g.relu(b);
    assert_eq!(g.data(r), Scalar::from_int(0));
    let k = g.leaf(Scalar::from_int(5));
    let m = g.mul(r, k);
    g.backward(m);
    assert_eq!(g.grad(b), Scalar::from_int(0));

    let mut g2 = Graph::new();
    let a = g2.leaf(Scalar::from_int(1));
    let r2 = g2.relu(a);
    assert_eq!(g2.data(r2), Scalar::from_int(1));
    let k2 = g2.leaf(Scalar::from_int(5));
    let m2 = g2.mul(r2, k2);
    g2.backward(m2);
    assert_eq!(g2.grad(a), Scalar::from_int(5));
}

// Fan-out accumulation: y = a + a must put gradient two on a, not one.
#[test]
fn test_fanout_accumulation() {
    let mut g = Graph::new();
    let a = g.leaf(Scalar::from_int(3));
    let y = g.add(a, a);
    g.backward(y);
    assert_eq!(g.grad(a), Scalar::from_int(2));
}

// Without a reset, a second backward pass accumulates on top of the first.
#[test]
fn test_accumulation_without_reset() {
    let mut g = Graph::new();
    let a = g.leaf(Scalar::from_int(3));
    let y = g.add(a, a);
    g.backward(y);
    g.backward(y);
    assert_eq!(g.grad(a), Scalar::from_int(4));
}

// Resetting all gradients between passes makes the passes agree exactly.
#[test]
fn test_idempotent_reset() {
    let mut g = Graph::new();
    let a = g.leaf(Scalar::from_int(2));
    let b = g.leaf(Scalar::from_int(-3));
    let e = g.mul(a, b);
    let c = g.leaf(Scalar::from_int(10));
    let d = g.add(e, c);
    let all: Vec<_> = (0..g.len()).map(neural_net_rs::Value).collect();
    g.zero_gradients(&all);
    g.backward(d);
    let first: Vec<Scalar> = all.iter().map(|v| g.grad(*v)).collect();
    g.zero_gradients(&all);
    g.backward(d);
    let second: Vec<Scalar> = all.iter().map(|v| g.grad(*v)).collect();
    assert_eq!(first, second);
}

// Every node of the topological order appears after all of its inputs.
#[test]
fn test_topological_order() {
    let mut g = Graph::new();
    let a = g.leaf(Scalar::from_int(2));
    let b = g.add(a, a);
    let c = g.mul(b, a);
    let r = g.relu(c);
    let order = g.build_topo(r);
    for (pos, node) in order.iter().enumerate() {
        for input in g.prev(neural_net_rs::Value(*node)) {
            let earlier = order[..pos].iter().any(|m| *m == input.0);
            assert!(earlier, "input {} of node {} must come earlier", input.0, node);
        }
    }
    assert_eq!(*order.last().unwrap(), r.0);
}

// The catalog tags recorded on nodes: leaves carry none, composed
// operations decompose into the primitive set.
#[test]
fn test_operation_tags() {
    let mut g = Graph::new();
    let a = g.leaf(Scalar::from_int(2));
    let b = g.leaf(Scalar::from_int(3));
    let s = g.add(a, b);
    let m = g.mul(a, b);
    let p = g.pow(a, Scalar::from_int(2));
    let r = g.relu(a);
    let n = g.neg(a);
    assert_eq!(g.op(a), None);
    assert_eq!(g.op(s), Some(Operation::Add));
    assert_eq!(g.op(m), Some(Operation::Mul));
    assert_eq!(g.op(p), Some(Operation::Pow));
    assert_eq!(g.op(r), Some(Operation::Relu));
    assert_eq!(g.op(n), Some(Operation::Mul));
    assert_eq!(g.prev(n).len(), 2);
}

// Division by a zero-valued node propagates the non-finite marker, the
// engine's stand-in for a floating-point infinity.
#[test]
fn test_division_by_zero_propagates() {
    let mut g = Graph::new();
    let a = g.leaf(Scalar::from_int(1));
    let z = g.leaf(Scalar::from_int(0));
    let q = g.div(a, z);
    assert!(!g.data(q).is_finite());
    let w = g.leaf(Scalar::from_int(7));
    let y = g.add(q, w);
    assert!(!g.data(y).is_finite());
}

// A sum of a sequence of nodes, built by repeated addition.
#[test]
fn test_sum_of_nodes() {
    let mut g = Graph::new();
    let xs: Vec<_> = [1i64, 2, 3, 4].iter().map(|i| g.leaf(Scalar::from_int(*i))).collect();
    let s = g.sum(&xs);
    assert_eq!(g.data(s), Scalar::from_int(10));
    g.backward(s);
    for x in xs {
        assert_eq!(g.grad(x), Scalar::from_int(1));
    }
}

// Exact fractions: 1/2 + 1/3 == 5/6, kept in lowest terms.
#[test]
fn test_exact_fractions() {
    let mut g = Graph::new();
    let a = g.leaf(Scalar::new(1, 2));
    let b = g.leaf(Scalar::new(2, 6));
    let c = g.add(a, b);
    assert_eq!(g.data(c), Scalar::new(5, 6));
    assert_eq!(g.data(b), Scalar::new(1, 3));
}

// An external optimizer step may overwrite a leaf's value directly.
#[test]
fn test_set_data() {
    let mut g = Graph::new();
    let a = g.leaf(Scalar::from_int(2));
    g.set_data(a, Scalar::new(3, 2));
    assert_eq!(g.data(a), Scalar::new(3, 2));
    assert_eq!(g.grad(a), Scalar::from_int(0));
}
