//! The engine's laws: forward correctness of each primitive (and of the
//! composed division), local gradient correctness of each primitive in
//! isolation, fan-out accumulation, and idempotence of reset-then-backward.
//!
//! Each constructor's own contract already pins the new node's value to the
//! exact arithmetic of its operands' values, and the topological-order
//! property is part of `build_topo`'s contract; the lemmas here restate the
//! forward formulas in closed form over numerators and denominators, and
//! say what a whole backward pass computes.

use vstd::prelude::*;
use vstd::arithmetic::power::pow;
use crate::engine::{
    Operation, SpecNode, add_node, div_nodes, graph_wf, leaf_node, lemma_wf_push, mul_node,
    node_wf, pow_node, pow_nodes, relu_node,
};
use crate::scalar::{
    Scalar, gcd, is_int, is_rat, lemma_add_exact, lemma_gcd_one, lemma_mul_exact,
    lemma_norm_in_range, lemma_norm_is_rat, lemma_norm_units, lemma_pow_rec_exact,
    lemma_recip_exact, lemma_sign, lemma_zero_add_sem, norm, pow_rec, s_den, s_num, s_neg_one,
    s_one, s_zero, scalar_wf, sem_eq, spec_add, spec_mul, spec_neg, spec_pow, spec_recip,
    spec_relu, spec_sub,
};
use crate::topo::{
    TopoState, empty_state, lemma_visit_inv, spec_topo, st_inv, topo_visit, topo_visit_list,
};
use crate::backward::{
    add_grad, apply_node, backward_model, lemma_apply_props, lemma_run_frame, lemma_run_props,
    run_rev, same_structure, seed_root, touches,
};

verus! {

/// Visiting an unvisited leaf marks it and appends it, nothing more.
proof fn lemma_visit_leaf(ns: Seq<SpecNode>, n: int, st: TopoState)
    requires
        0 <= n < ns.len(),
        ns[n].prev.len() == 0,
        !st.visited.contains(n),
    ensures
        topo_visit(ns, n, st) == (TopoState {
            visited: st.visited.insert(n),
            order: st.order.push(n),
        }),
{
    let st1 = TopoState { visited: st.visited.insert(n), order: st.order };
    assert(topo_visit_list(ns, n, ns[n].prev, st1) == st1);
}

/// The graph after appending one `Add` node on inputs `a` and `b`.
pub open spec fn with_add(ns: Seq<SpecNode>, a: int, b: int) -> Seq<SpecNode> {
    ns.push(add_node(ns, a, b))
}

/// Fan-out accumulation: summing a node with itself and running backward
/// from the sum leaves gradient two on it — each of the two uses
/// contributes one, added, never overwritten.
pub proof fn lemma_fanout_accumulation(ns: Seq<SpecNode>, a: int)
    requires
        graph_wf(ns),
        0 <= a < ns.len(),
        ns[a].grad == s_zero(),
    ensures
        is_int(backward_model(with_add(ns, a, a), ns.len() as int)[a].grad, 2),
        backward_model(with_add(ns, a, a), ns.len() as int)[a].grad == (Scalar::Finite {
            num: 2,
            den: 1,
        }),
{
    lemma_norm_units();
    let y = ns.len() as int;
    let nd = add_node(ns, a, a);
    let ns1 = with_add(ns, a, a);
    lemma_wf_push(ns, nd);
    assert(node_wf(ns1, y));
    // the traversal: y's only input subtree is a's, whose nodes all lie at
    // or below a
    let st0 = empty_state();
    let st1 = TopoState { visited: st0.visited.insert(y), order: st0.order };
    assert(st_inv(ns1, st1, Set::<int>::empty().insert(y)));
    lemma_visit_inv(ns1, a, st1, Set::<int>::empty().insert(y));
    let sa = topo_visit(ns1, a, st1);
    assert(ns1[y].prev =~= seq![a, a]);
    assert(seq![a, a][0] == a && seq![a][0] == a);
    assert(seq![a, a].drop_first() =~= seq![a]);
    assert(seq![a].drop_first() =~= Seq::<int>::empty());
    assert(topo_visit(ns1, a, sa) == sa);
    assert(topo_visit_list(ns1, y, Seq::<int>::empty(), sa) == sa);
    assert(topo_visit_list(ns1, y, seq![a], sa) == sa);
    assert(topo_visit_list(ns1, y, seq![a, a], st1) == sa);
    let ord = spec_topo(ns1, y);
    assert(ord == sa.order.push(y));
    // seed and fire y's rule: both uses of a contribute the seed gradient
    let sr = seed_root(ns1, y);
    assert(graph_wf(sr)) by {
        assert forall|i: int| 0 <= i < sr.len() implies node_wf(sr, i) by {
            assert(node_wf(ns1, i));
            if i != y {
                assert(sr[i] == ns1[i]);
            }
        }
    }
    assert(sr[y].grad == s_one() && sr[a].grad == s_zero());
    assert(sr[y].op == Some(crate::engine::Operation::Add) && sr[y].prev =~= seq![a, a]);
    let g1 = apply_node(sr, y);
    assert(g1 == add_grad(add_grad(sr, a, s_one()), a, s_one()));
    assert(add_grad(sr, a, s_one())[a].grad == spec_add(s_zero(), s_one()));
    assert(spec_add(s_zero(), s_one()) == crate::scalar::norm(0int * 1 + 1 * 1, 1int * 1));
    assert(crate::scalar::norm(0int * 1 + 1 * 1, 1int * 1) == crate::scalar::norm(1, 1));
    assert(g1[a].grad == spec_add(s_one(), s_one()));
    assert(spec_add(s_one(), s_one()) == crate::scalar::norm(1int * 1 + 1 * 1, 1int * 1));
    lemma_norm_two();
    assert(g1[a].grad == (Scalar::Finite { num: 2, den: 1 }));
    // the remaining order never lists a as an input, so the gradient stays
    assert(ord.last() == y);
    assert(ord.drop_last() =~= sa.order);
    assert(run_rev(sr, ord) == run_rev(g1, sa.order));
    crate::backward::lemma_apply_props(sr, y);
    assert forall|k: int| 0 <= k < sa.order.len() implies 0 <= #[trigger] sa.order[k]
        < ns1.len() by {
        assert(sa.order.contains(sa.order[k]));
        assert(sa.visited.contains(sa.order[k]));
    }
    assert forall|k: int| 0 <= k < sa.order.len() implies !touches(g1, #[trigger] sa.order[k], a) by {
        let x = sa.order[k];
        assert(sa.order.contains(x));
        assert(sa.visited.contains(x));
        assert(!st1.visited.contains(x) || x == y);
        assert(x != y);
        assert(0 <= x <= a);
        assert(node_wf(ns1, x));
        assert(g1[x].prev == ns1[x].prev);
        if touches(g1, x, a) {
            let j = choose|j: int| 0 <= j < g1[x].prev.len() && g1[x].prev[j] == a;
            assert(ns1[x].prev[j] < x);
        }
    }
    lemma_run_frame(g1, sa.order, a);
}

/// The reduction of two over one, spelled out.
proof fn lemma_norm_two()
    ensures
        crate::scalar::norm(2, 1) == (Scalar::Finite { num: 2, den: 1 }),
{
    reveal_with_fuel(crate::scalar::gcd, 3);
    assert(2nat % 1nat == 0);
    assert(crate::scalar::gcd(2nat, 1nat) == crate::scalar::gcd(1nat, 0nat));
    assert(crate::scalar::gcd(2nat, 1nat) == 1);
    assert(crate::scalar::abs_of(2) == 2);
    assert(2int / 1int == 2 && 1int / 1int == 1);
}

/// A node without inputs carries no operation tag: it is a leaf.
proof fn proof_leaf_ops(ns: Seq<SpecNode>, ns1: Seq<SpecNode>, a: int, b: int)
    requires
        graph_wf(ns),
        0 <= a < ns.len(),
        0 <= b < ns.len(),
        ns[a].prev.len() == 0,
        ns[b].prev.len() == 0,
        ns1.len() == ns.len() + 1,
        ns1[a] == ns[a],
        ns1[b] == ns[b],
    ensures
        ns1[a].op is None,
        ns1[b].op is None,
        scalar_wf(ns[a].data),
        scalar_wf(ns[b].data),
        scalar_wf(ns[a].grad),
        scalar_wf(ns[b].grad),
{
    assert(node_wf(ns, a));
    assert(node_wf(ns, b));
}

/// Local gradient correctness of `Add` in isolation: on two distinct leaf
/// operands with zero gradients, one backward pass from their sum puts
/// exactly gradient one on each.
pub proof fn lemma_local_grad_add(ns: Seq<SpecNode>, a: int, b: int)
    requires
        graph_wf(ns),
        0 <= a < ns.len(),
        0 <= b < ns.len(),
        a != b,
        ns[a].prev.len() == 0,
        ns[b].prev.len() == 0,
        ns[a].grad == s_zero(),
        ns[b].grad == s_zero(),
    ensures
        ({
            let res = backward_model(ns.push(add_node(ns, a, b)), ns.len() as int);
            res[a].grad == s_one() && res[b].grad == s_one()
        }),
{
    lemma_norm_units();
    let y = ns.len() as int;
    let ns1 = ns.push(add_node(ns, a, b));
    lemma_wf_push(ns, add_node(ns, a, b));
    proof_leaf_ops(ns, ns1, a, b);
    let ord = lemma_two_leaf_topo(ns1, a, b);
    let sr = seed_root(ns1, y);
    assert(sr[y].grad == s_one() && sr[a].grad == s_zero() && sr[b].grad == s_zero());
    assert(sr[y].op == Some(Operation::Add) && sr[y].prev =~= seq![a, b]);
    let g1 = apply_node(sr, y);
    assert(g1 == add_grad(add_grad(sr, a, s_one()), b, s_one()));
    assert(add_grad(sr, a, s_one())[a].grad == spec_add(s_zero(), s_one()));
    assert(add_grad(sr, a, s_one())[b].grad == s_zero());
    assert(spec_add(s_zero(), s_one()) == norm(0int * 1 + 1 * 1, 1int * 1));
    assert(norm(0int * 1 + 1 * 1, 1int * 1) == norm(1, 1));
    assert(g1[a].grad == s_one() && g1[b].grad == s_one());
    lemma_two_leaf_run(ns1, sr, g1, ord, a, b);
}

/// Local gradient correctness of `Mul` in isolation: on two distinct leaf
/// operands with zero gradients and finite values, one backward pass from
/// their product leaves on each leaf exactly the other's value.
pub proof fn lemma_local_grad_mul(ns: Seq<SpecNode>, a: int, b: int)
    requires
        graph_wf(ns),
        0 <= a < ns.len(),
        0 <= b < ns.len(),
        a != b,
        ns[a].prev.len() == 0,
        ns[b].prev.len() == 0,
        ns[a].grad == s_zero(),
        ns[b].grad == s_zero(),
        ns[a].data is Finite,
        ns[b].data is Finite,
    ensures
        ({
            let res = backward_model(ns.push(mul_node(ns, a, b)), ns.len() as int);
            sem_eq(res[a].grad, ns[b].data) && sem_eq(res[b].grad, ns[a].data)
        }),
{
    lemma_norm_units();
    let y = ns.len() as int;
    let ns1 = ns.push(mul_node(ns, a, b));
    lemma_wf_push(ns, mul_node(ns, a, b));
    proof_leaf_ops(ns, ns1, a, b);
    assert(node_wf(ns, a));
    assert(node_wf(ns, b));
    let ord = lemma_two_leaf_topo(ns1, a, b);
    let sr = seed_root(ns1, y);
    assert(sr[y].grad == s_one() && sr[a].grad == s_zero() && sr[b].grad == s_zero());
    assert(sr[y].op == Some(Operation::Mul) && sr[y].prev =~= seq![a, b]);
    let da = ns[a].data;
    let db = ns[b].data;
    let d1 = spec_mul(db, s_one());
    let d0 = spec_mul(da, s_one());
    let g1 = apply_node(sr, y);
    assert(sr[a].data == da && sr[b].data == db);
    assert(g1 == add_grad(add_grad(sr, a, d1), b, d0));
    lemma_mul_one_sem(da);
    lemma_mul_one_sem(db);
    lemma_zero_add_sem(d1, s_num(db), s_den(db));
    lemma_zero_add_sem(d0, s_num(da), s_den(da));
    assert(add_grad(sr, a, d1)[a].grad == spec_add(s_zero(), d1));
    assert(add_grad(sr, a, d1)[b].grad == s_zero());
    assert(g1[a].grad == spec_add(s_zero(), d1));
    assert(g1[b].grad == spec_add(s_zero(), d0));
    assert(sem_eq(g1[a].grad, db));
    assert(sem_eq(g1[b].grad, da));
    lemma_two_leaf_run(ns1, sr, g1, ord, a, b);
}

/// Multiplying a finite scalar by one keeps its value, and the result is
/// finite.
proof fn lemma_mul_one_sem(x: Scalar)
    requires
        scalar_wf(x),
        x is Finite,
    ensures
        spec_mul(x, s_one()) is Finite,
        is_rat(spec_mul(x, s_one()), s_num(x), s_den(x)),
{
    let n = s_num(x);
    let d = s_den(x);
    assert(spec_mul(x, s_one()) == norm(n * 1, d * 1));
    assert(n * 1 == n && d * 1 == d) by (nonlinear_arith) {}
    lemma_norm_in_range(n, d);
    lemma_norm_is_rat(n, d);
}

/// The topological order from a root whose two inputs are distinct leaves:
/// first one leaf, then the other, then the root.
proof fn lemma_two_leaf_topo(ns1: Seq<SpecNode>, a: int, b: int) -> (ord: Seq<int>)
    requires
        graph_wf(ns1),
        ns1.len() >= 1,
        0 <= a < ns1.len() - 1,
        0 <= b < ns1.len() - 1,
        a != b,
        ns1[a].prev.len() == 0,
        ns1[b].prev.len() == 0,
        ns1[ns1.len() - 1].prev =~= seq![a, b],
    ensures
        ord == spec_topo(ns1, ns1.len() - 1),
        ord =~= seq![a, b, ns1.len() - 1],
{
    let y = ns1.len() - 1;
    let st0 = empty_state();
    let st1 = TopoState { visited: st0.visited.insert(y), order: st0.order };
    assert(seq![a, b][0] == a && seq![b][0] == b);
    assert(seq![a, b].drop_first() =~= seq![b]);
    assert(seq![b].drop_first() =~= Seq::<int>::empty());
    lemma_visit_leaf(ns1, a, st1);
    let sa = topo_visit(ns1, a, st1);
    lemma_visit_leaf(ns1, b, sa);
    let sb = topo_visit(ns1, b, sa);
    assert(topo_visit_list(ns1, y, Seq::<int>::empty(), sb) == sb);
    assert(topo_visit_list(ns1, y, seq![b], sa) == sb);
    assert(topo_visit_list(ns1, y, seq![a, b], st1) == sb);
    let ord = spec_topo(ns1, y);
    assert(ord == sb.order.push(y));
    assert(ord =~= seq![a, b, y]);
    ord
}

/// Replaying the two leaves after the root's rule changes nothing.
proof fn lemma_two_leaf_run(
    ns1: Seq<SpecNode>,
    sr: Seq<SpecNode>,
    g1: Seq<SpecNode>,
    ord: Seq<int>,
    a: int,
    b: int,
)
    requires
        ns1.len() >= 1,
        0 <= a < ns1.len() - 1,
        0 <= b < ns1.len() - 1,
        a != b,
        ord =~= seq![a, b, ns1.len() - 1],
        g1 == apply_node(sr, ns1.len() - 1),
        g1.len() == ns1.len(),
        g1[a].op == ns1[a].op,
        g1[b].op == ns1[b].op,
        ns1[a].op is None,
        ns1[b].op is None,
    ensures
        run_rev(sr, ord) == g1,
{
    let y = ns1.len() - 1;
    assert(ord.last() == y);
    assert(ord.drop_last() =~= seq![a, b]);
    assert(run_rev(sr, ord) == run_rev(g1, seq![a, b]));
    assert(seq![a, b].last() == b);
    assert(seq![a, b].drop_last() =~= seq![a]);
    assert(apply_node(g1, b) == g1);
    assert(run_rev(g1, seq![a, b]) == run_rev(g1, seq![a]));
    assert(seq![a].last() == a);
    assert(seq![a].drop_last() =~= Seq::<int>::empty());
    assert(apply_node(g1, a) == g1);
    assert(run_rev(g1, Seq::<int>::empty()) == g1);
}

/// Local gradient correctness of `Relu` in isolation: a strictly positive
/// leaf value passes the seed gradient through unchanged; zero, negative
/// and non-finite values route gradient zero to the input.
pub proof fn lemma_local_grad_relu(ns: Seq<SpecNode>, a: int)
    requires
        graph_wf(ns),
        0 <= a < ns.len(),
        ns[a].prev.len() == 0,
        ns[a].grad == s_zero(),
    ensures
        ({
            let res = backward_model(ns.push(relu_node(ns, a)), ns.len() as int);
            &&& (ns[a].data is Finite && s_num(ns[a].data) > 0) ==> res[a].grad == s_one()
            &&& !(ns[a].data is Finite && s_num(ns[a].data) > 0) ==> res[a].grad == s_zero()
        }),
{
    lemma_norm_units();
    let y = ns.len() as int;
    let ns1 = ns.push(relu_node(ns, a));
    assert(node_wf(ns, a));
    assert(scalar_wf(spec_relu(ns[a].data)));
    lemma_wf_push(ns, relu_node(ns, a));
    assert(ns1[a].op is None);
    // order: the lone leaf, then the root
    let st0 = empty_state();
    let st1 = TopoState { visited: st0.visited.insert(y), order: st0.order };
    assert(seq![a][0] == a);
    assert(seq![a].drop_first() =~= Seq::<int>::empty());
    lemma_visit_leaf(ns1, a, st1);
    let sa = topo_visit(ns1, a, st1);
    assert(topo_visit_list(ns1, y, Seq::<int>::empty(), sa) == sa);
    assert(topo_visit_list(ns1, y, seq![a], st1) == sa);
    assert(ns1[y].prev =~= seq![a]);
    let ord = spec_topo(ns1, y);
    assert(ord == sa.order.push(y));
    assert(ord =~= seq![a, y]);
    let sr = seed_root(ns1, y);
    assert(sr[y].grad == s_one() && sr[a].grad == s_zero());
    assert(sr[y].op == Some(Operation::Relu) && sr[y].prev =~= seq![a]);
    assert(sr[y].data == spec_relu(ns[a].data));
    let gate: Scalar = if sr[y].data is Finite && s_num(sr[y].data) > 0 {
        s_one()
    } else {
        s_zero()
    };
    let g1 = apply_node(sr, y);
    assert(g1 == add_grad(sr, a, gate));
    assert(g1[a].grad == spec_add(s_zero(), gate));
    if ns[a].data is Finite && s_num(ns[a].data) > 0 {
        assert(sr[y].data == ns[a].data);
        assert(gate == s_one());
        assert(spec_add(s_zero(), s_one()) == norm(0int * 1 + 1 * 1, 1int * 1));
        assert(norm(0int * 1 + 1 * 1, 1int * 1) == norm(1, 1));
        assert(g1[a].grad == s_one());
    } else {
        assert(gate == s_zero());
        assert(spec_add(s_zero(), s_zero()) == norm(0int * 1 + 0 * 1, 1int * 1));
        assert(norm(0int * 1 + 0 * 1, 1int * 1) == norm(0, 1));
        assert(g1[a].grad == s_zero());
    }
    // replay of the leaf's rule changes nothing
    assert(ord.last() == y);
    assert(ord.drop_last() =~= seq![a]);
    assert(run_rev(sr, ord) == run_rev(g1, seq![a]));
    assert(seq![a].last() == a);
    assert(seq![a].drop_last() =~= Seq::<int>::empty());
    assert(g1[a].op == ns1[a].op);
    assert(apply_node(g1, a) == g1);
    assert(run_rev(g1, Seq::<int>::empty()) == g1);
}

/// Local gradient correctness of `Pow` in isolation: for a leaf base `a`
/// holding the rational `p / q` and a constant integer exponent `k >= 1`,
/// one backward pass from `a^k` leaves on `a` — whenever it stays
/// representable — exactly the power rule's value `k * (p/q)^(k-1)`; the
/// exponent's own leaf keeps gradient zero, a constant being no trainable
/// quantity.
pub proof fn lemma_local_grad_pow(ns: Seq<SpecNode>, a: int, p: int, q: int, k: i64)
    requires
        graph_wf(ns),
        0 <= a < ns.len(),
        ns[a].prev.len() == 0,
        ns[a].grad == s_zero(),
        is_rat(ns[a].data, p, q),
        q > 0,
        scalar_wf(ns[a].data),
        k >= 1,
    ensures
        ({
            let ns1 = pow_nodes(ns, a, Scalar::Finite { num: k, den: 1 });
            let res = backward_model(ns1, ns.len() + 1int);
            &&& res[a].grad is Finite ==> is_rat(
                res[a].grad,
                k * pow(p, (k - 1) as nat),
                pow(q, (k - 1) as nat),
            )
            &&& res[ns.len() as int].grad == s_zero()
        }),
{
    lemma_norm_units();
    let e = Scalar::Finite { num: k, den: 1 };
    let y0 = ns.len() as int;
    let y = ns.len() + 1int;
    let nsl = ns.push(leaf_node(e));
    let ns1 = pow_nodes(ns, a, e);
    lemma_wf_push(ns, leaf_node(e));
    lemma_wf_push(nsl, pow_node(nsl, a, y0));
    assert(ns1 == nsl.push(pow_node(nsl, a, y0)));
    assert(ns1[a] == ns[a] && ns1[y0] == leaf_node(e));
    let ord = lemma_two_leaf_topo(ns1, a, y0);
    let sr = seed_root(ns1, y);
    assert(sr[y].grad == s_one() && sr[a].grad == s_zero() && sr[y0].grad == s_zero());
    assert(sr[y].op == Some(Operation::Pow) && sr[y].prev =~= seq![a, y0]);
    let da = ns[a].data;
    assert(sr[a].data == da && sr[y0].data == e);
    // the exponent reduced: k over one is already in lowest terms
    lemma_gcd_one(if k >= 0 {
        k as nat
    } else {
        (-k) as nat
    });
    assert(norm(k as int, 1) == e) by {
        assert(gcd(crate::scalar::abs_of(k as int) as nat, 1nat) == 1);
        assert(k as int / 1int == k as int && 1int / 1int == 1);
    }
    // the exponent minus one
    let em1 = spec_sub(e, s_one());
    assert(spec_neg(s_one()) == norm(-1, 1));
    assert(em1 == spec_add(e, Scalar::Finite { num: -1i64, den: 1 }));
    assert(em1 == norm(k as int * 1 + (-1) * 1, 1int * 1));
    assert(k as int * 1 + (-1) * 1 == k - 1 && 1int * 1 == 1) by (nonlinear_arith) {}
    lemma_gcd_one((k - 1) as nat);
    assert(norm(k - 1, 1) == (Scalar::Finite { num: (k - 1) as i64, den: 1 })) by {
        assert(gcd(crate::scalar::abs_of(k - 1) as nat, 1nat) == 1);
        assert((k - 1) as int / 1int == k - 1 && 1int / 1int == 1);
    }
    assert(em1 == (Scalar::Finite { num: (k - 1) as i64, den: 1 }));
    // the power-rule contribution
    let pr = spec_pow(da, em1);
    assert(pr == pow_rec(da, (k - 1) as nat));
    let contribution = spec_mul(spec_mul(e, pr), s_one());
    let g1 = apply_node(sr, y);
    assert(g1 == add_grad(sr, a, contribution));
    assert(g1[a].grad == spec_add(s_zero(), contribution));
    assert(g1[y0].grad == s_zero());
    assert(node_wf(ns, a));
    assert(ns1[a].op is None && ns1[y0].op is None);
    lemma_two_leaf_run(ns1, sr, g1, ord, a, y0);
    let res = backward_model(ns1, y);
    assert(res == g1);
    if res[a].grad is Finite {
        assert(contribution is Finite);
        let inner = spec_mul(e, pr);
        assert(inner is Finite);
        assert(pr is Finite);
        lemma_pow_rec_exact(da, p, q, (k - 1) as nat);
        vstd::arithmetic::power::lemma_pow_positive(q, (k - 1) as nat);
        assert(is_rat(e, k as int, 1));
        lemma_mul_exact(e, pr, k as int, 1, pow(p, (k - 1) as nat), pow(q, (k - 1) as nat));
        assert(scalar_wf(inner) && scalar_wf(pr)) by {
            lemma_spec_mul_wf(e, pr);
            lemma_pow_rec_wf(da, (k - 1) as nat);
        }
        assert(inner is Finite && s_one() is Finite);
        lemma_mul_exact(
            inner,
            s_one(),
            k as int * pow(p, (k - 1) as nat),
            1int * pow(q, (k - 1) as nat),
            1,
            1,
        );
        lemma_zero_add_sem(
            contribution,
            (k as int * pow(p, (k - 1) as nat)) * 1,
            (1int * pow(q, (k - 1) as nat)) * 1,
        );
        assert((k as int * pow(p, (k - 1) as nat)) * 1 == k * pow(p, (k - 1) as nat))
            by (nonlinear_arith) {}
        assert((1int * pow(q, (k - 1) as nat)) * 1 == pow(q, (k - 1) as nat)) by (nonlinear_arith) {}
    }
}

/// A product of well-formed scalars is well formed.
proof fn lemma_spec_mul_wf(a: Scalar, b: Scalar)
    requires
        scalar_wf(a),
        scalar_wf(b),
    ensures
        scalar_wf(spec_mul(a, b)),
{
}

/// Natural powers of a well-formed scalar are well formed.
proof fn lemma_pow_rec_wf(x: Scalar, n: nat)
    requires
        scalar_wf(x),
    ensures
        scalar_wf(pow_rec(x, n)),
    decreases n,
{
    if n > 0 {
        lemma_pow_rec_wf(x, (n - 1) as nat);
        lemma_spec_mul_wf(pow_rec(x, (n - 1) as nat), x);
    }
}

/// Forward correctness of `Add`: on operands holding `p1/q1` and `p2/q2`,
/// the new node holds exactly `(p1 q2 + p2 q1) / (q1 q2)` whenever that is
/// representable.
pub proof fn lemma_forward_add(ns: Seq<SpecNode>, a: int, b: int, p1: int, q1: int, p2: int, q2: int)
    requires
        graph_wf(ns),
        0 <= a < ns.len(),
        0 <= b < ns.len(),
        is_rat(ns[a].data, p1, q1),
        is_rat(ns[b].data, p2, q2),
        add_node(ns, a, b).data is Finite,
    ensures
        is_rat(add_node(ns, a, b).data, p1 * q2 + p2 * q1, q1 * q2),
{
    assert(node_wf(ns, a));
    assert(node_wf(ns, b));
    lemma_add_exact(ns[a].data, ns[b].data, p1, q1, p2, q2);
}

/// Forward correctness of `Mul`: the new node holds exactly
/// `(p1 p2) / (q1 q2)` whenever that is representable.
pub proof fn lemma_forward_mul(ns: Seq<SpecNode>, a: int, b: int, p1: int, q1: int, p2: int, q2: int)
    requires
        graph_wf(ns),
        0 <= a < ns.len(),
        0 <= b < ns.len(),
        is_rat(ns[a].data, p1, q1),
        is_rat(ns[b].data, p2, q2),
        mul_node(ns, a, b).data is Finite,
    ensures
        is_rat(mul_node(ns, a, b).data, p1 * p2, q1 * q2),
{
    assert(node_wf(ns, a));
    assert(node_wf(ns, b));
    lemma_mul_exact(ns[a].data, ns[b].data, p1, q1, p2, q2);
}

/// Forward correctness of `Relu`: the maximum of zero and the operand.
pub proof fn lemma_forward_relu(ns: Seq<SpecNode>, a: int, p: int, q: int)
    requires
        graph_wf(ns),
        0 <= a < ns.len(),
        is_rat(ns[a].data, p, q),
        q > 0,
    ensures
        p > 0 ==> is_rat(relu_node(ns, a).data, p, q),
        p <= 0 ==> relu_node(ns, a).data == s_zero(),
{
    assert(node_wf(ns, a));
    lemma_sign(ns[a].data, p, q);
}

/// Forward correctness of `Pow` with a nonnegative integer exponent: the
/// new node holds exactly `p^k / q^k` whenever that is representable.
pub proof fn lemma_forward_pow(ns: Seq<SpecNode>, a: int, p: int, q: int, k: i64)
    requires
        graph_wf(ns),
        0 <= a < ns.len(),
        is_rat(ns[a].data, p, q),
        q > 0,
        k >= 0,
    ensures
        ({
            let ns1 = pow_nodes(ns, a, Scalar::Finite { num: k, den: 1 });
            let v = ns1[ns.len() + 1int].data;
            v is Finite ==> is_rat(v, pow(p, k as nat), pow(q, k as nat))
        }),
{
    assert(node_wf(ns, a));
    let e = Scalar::Finite { num: k, den: 1 };
    let nsl = ns.push(leaf_node(e));
    let ns1 = pow_nodes(ns, a, e);
    assert(ns1[ns.len() + 1int] == pow_node(nsl, a, ns.len() as int));
    assert(nsl[a].data == ns[a].data && nsl[ns.len() as int].data == e);
    let v = ns1[ns.len() + 1int].data;
    assert(v == spec_pow(ns[a].data, e));
    lemma_gcd_one(k as nat);
    assert(norm(k as int, 1) == e) by {
        assert(gcd(crate::scalar::abs_of(k as int) as nat, 1nat) == 1);
        assert(k as int / 1int == k as int && 1int / 1int == 1);
    }
    assert(v == pow_rec(ns[a].data, k as nat));
    if v is Finite {
        lemma_pow_rec_exact(ns[a].data, p, q, k as nat);
    }
}

/// Multiplying one by a finite scalar keeps its value.
proof fn lemma_one_mul_sem(x: Scalar)
    requires
        scalar_wf(x),
        x is Finite,
    ensures
        spec_mul(s_one(), x) is Finite,
        is_rat(spec_mul(s_one(), x), s_num(x), s_den(x)),
{
    let n = s_num(x);
    let d = s_den(x);
    assert(spec_mul(s_one(), x) == norm(1 * n, 1 * d));
    assert(1 * n == n && 1 * d == d) by (nonlinear_arith) {}
    lemma_norm_in_range(n, d);
    lemma_norm_is_rat(n, d);
}

/// Forward correctness of the composed division: on operands holding
/// `p1/q1` and a nonzero `p2/q2`, the final node holds exactly
/// `(p1 q2) / (q1 p2)` whenever every intermediate stays representable.
pub proof fn lemma_forward_div(ns: Seq<SpecNode>, a: int, b: int, p1: int, q1: int, p2: int, q2: int)
    requires
        graph_wf(ns),
        0 <= a < ns.len(),
        0 <= b < ns.len(),
        is_rat(ns[a].data, p1, q1),
        is_rat(ns[b].data, p2, q2),
        q1 > 0,
        q2 > 0,
        p2 != 0,
    ensures
        ({
            let ns1 = div_nodes(ns, a, b);
            let v = ns1[ns.len() + 2int].data;
            v is Finite ==> is_rat(v, p1 * q2, q1 * p2)
        }),
{
    lemma_norm_units();
    assert(node_wf(ns, a));
    assert(node_wf(ns, b));
    let da = ns[a].data;
    let db = ns[b].data;
    let nsl = ns.push(leaf_node(s_neg_one()));
    let nsp = nsl.push(pow_node(nsl, b, ns.len() as int));
    let ns1 = div_nodes(ns, a, b);
    assert(ns1 == nsp.push(mul_node(nsp, a, ns.len() + 1int)));
    assert(nsp[ns.len() + 1int] == pow_node(nsl, b, ns.len() as int));
    assert(nsl[b].data == db && nsl[ns.len() as int].data == s_neg_one());
    let pv = nsp[ns.len() + 1int].data;
    assert(pv == spec_pow(db, s_neg_one()));
    lemma_gcd_one(1nat);
    assert(norm(-1, 1) == s_neg_one());
    assert(pv == spec_recip(pow_rec(db, 1nat)));
    let x1 = pow_rec(db, 1nat);
    assert(x1 == spec_mul(pow_rec(db, 0nat), db));
    assert(x1 == spec_mul(s_one(), db));
    lemma_one_mul_sem(db);
    assert(is_rat(x1, p2, q2)) by {
        let n = s_num(db);
        let d = s_den(db);
        assert(s_num(x1) * d == n * s_den(x1));
        assert(s_num(x1) * q2 == p2 * s_den(x1)) by (nonlinear_arith)
            requires
                s_num(x1) * d == n * s_den(x1),
                n * q2 == p2 * d,
                d >= 1,
                q2 > 0,
        {}
    }
    let v = ns1[ns.len() + 2int].data;
    assert(nsp[a].data == da);
    assert(v == spec_mul(da, pv));
    if v is Finite {
        assert(pv is Finite);
        lemma_sign(x1, p2, q2);
        assert(s_num(x1) != 0);
        lemma_recip_exact(x1, p2, q2);
        assert(scalar_wf(x1) && scalar_wf(pv)) by {
            lemma_pow_rec_wf(db, 1nat);
            lemma_recip_wf(x1);
        }
        lemma_mul_exact(da, pv, p1, q1, q2, p2);
    }
}

/// The reciprocal of a well-formed scalar is well formed.
proof fn lemma_recip_wf(x: Scalar)
    requires
        scalar_wf(x),
    ensures
        scalar_wf(spec_recip(x)),
{
}

/// Every gradient of the graph reset to zero; values, tags and inputs kept.
pub open spec fn zero_all(ns: Seq<SpecNode>) -> Seq<SpecNode> {
    Seq::new(
        ns.len(),
        |i: int| SpecNode { data: ns[i].data, grad: s_zero(), op: ns[i].op, prev: ns[i].prev },
    )
}

/// Idempotent reset: resetting every gradient and running backward yields
/// the same gradients whether or not a backward pass ran before — the pass
/// is a function of the graph's structure and values alone, and it changes
/// neither.
pub proof fn lemma_reset_idempotent(ns: Seq<SpecNode>, root: int)
    requires
        graph_wf(ns),
        0 <= root < ns.len(),
    ensures
        backward_model(zero_all(backward_model(ns, root)), root) == backward_model(
            zero_all(ns),
            root,
        ),
{
    let sr = seed_root(ns, root);
    assert(graph_wf(sr)) by {
        assert forall|i: int| 0 <= i < sr.len() implies node_wf(sr, i) by {
            assert(node_wf(ns, i));
            if i != root {
                assert(sr[i] == ns[i]);
            }
        }
    }
    lemma_run_props(sr, spec_topo(ns, root));
    let bm = backward_model(ns, root);
    assert(same_structure(ns, bm)) by {
        assert forall|i: int| 0 <= i < ns.len() implies {
            &&& (#[trigger] ns[i]).data == bm[i].data
            &&& ns[i].op == bm[i].op
            &&& ns[i].prev == bm[i].prev
        } by {
            if i != root {
                assert(sr[i] == ns[i]);
            }
        }
    }
    assert(zero_all(bm) =~= zero_all(ns));
}

} // verus!
