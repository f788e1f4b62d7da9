//! The backward engine, at the specification level.
//!
//! `backward_model` is the mathematical image of a whole backward pass: seed
//! the root's gradient with one, then replay the topological order in
//! reverse, letting every non-leaf node distribute its accumulated gradient
//! into its inputs by the local rule of its operation.  Gradients are only
//! ever added to, never overwritten, which makes fan-out (one node consumed
//! by several later ones) accumulate correctly.

use vstd::prelude::*;
use crate::engine::{Operation, SpecNode, graph_wf, node_wf};
use crate::scalar::{
    Scalar, s_num, s_one, s_zero, scalar_wf, spec_add, spec_mul, spec_pow, spec_sub,
};
use crate::topo::spec_topo;

verus! {

/// Accumulate `d` into the gradient of node `j`.
pub open spec fn add_grad(ns: Seq<SpecNode>, j: int, d: Scalar) -> Seq<SpecNode> {
    ns.update(
        j,
        SpecNode { data: ns[j].data, grad: spec_add(ns[j].grad, d), op: ns[j].op, prev: ns[j].prev },
    )
}

/// The local backward rule of node `i`: distribute its current gradient `g`
/// into its inputs.  Addition passes `g` through; multiplication weighs it
/// by the sibling's value; power applies the power rule with the constant
/// exponent (which itself receives nothing); relu gates on the sign of the
/// node's own forward value, treating zero and non-finite values as
/// non-positive.  Leaves have no rule.
pub open spec fn apply_node(ns: Seq<SpecNode>, i: int) -> Seq<SpecNode> {
    if !(0 <= i < ns.len()) {
        ns
    } else {
        let nd = ns[i];
        let g = nd.grad;
        match nd.op {
            None => ns,
            Some(Operation::Sub) => ns,
            Some(Operation::Div) => ns,
            Some(Operation::Add) => if nd.prev.len() == 2 {
                add_grad(add_grad(ns, nd.prev[0], g), nd.prev[1], g)
            } else {
                ns
            },
            Some(Operation::Mul) => if nd.prev.len() == 2 {
                let d0 = spec_mul(ns[nd.prev[0]].data, g);
                let d1 = spec_mul(ns[nd.prev[1]].data, g);
                add_grad(add_grad(ns, nd.prev[0], d1), nd.prev[1], d0)
            } else {
                ns
            },
            Some(Operation::Pow) => if nd.prev.len() == 2 {
                let base = ns[nd.prev[0]].data;
                let p = ns[nd.prev[1]].data;
                add_grad(
                    ns,
                    nd.prev[0],
                    spec_mul(spec_mul(p, spec_pow(base, spec_sub(p, s_one()))), g),
                )
            } else {
                ns
            },
            Some(Operation::Relu) => if nd.prev.len() == 1 {
                add_grad(
                    ns,
                    nd.prev[0],
                    if nd.data is Finite && s_num(nd.data) > 0 {
                        g
                    } else {
                        s_zero()
                    },
                )
            } else {
                ns
            },
        }
    }
}

/// Replay the order from its last element down to its first.
pub open spec fn run_rev(ns: Seq<SpecNode>, ord: Seq<int>) -> Seq<SpecNode>
    decreases ord.len(),
{
    if ord.len() == 0 {
        ns
    } else {
        run_rev(apply_node(ns, ord.last()), ord.drop_last())
    }
}

/// Set the root's gradient to exactly one: the seed for d root / d root.
pub open spec fn seed_root(ns: Seq<SpecNode>, root: int) -> Seq<SpecNode> {
    ns.update(
        root,
        SpecNode { data: ns[root].data, grad: s_one(), op: ns[root].op, prev: ns[root].prev },
    )
}

/// One whole backward pass from `root`.
pub open spec fn backward_model(ns: Seq<SpecNode>, root: int) -> Seq<SpecNode> {
    run_rev(seed_root(ns, root), spec_topo(ns, root))
}

/// Two graphs agree on everything but gradients.
pub open spec fn same_structure(a: Seq<SpecNode>, b: Seq<SpecNode>) -> bool {
    &&& a.len() == b.len()
    &&& forall|i: int|
        0 <= i < a.len() ==> {
            &&& (#[trigger] a[i]).data == b[i].data
            &&& a[i].op == b[i].op
            &&& a[i].prev == b[i].prev
        }
}

/// Node `n` lists `t` among its inputs.
pub open spec fn touches(ns: Seq<SpecNode>, n: int, t: int) -> bool {
    exists|j: int| 0 <= j < ns[n].prev.len() && #[trigger] ns[n].prev[j] == t
}

/// Accumulating a well-formed contribution keeps the graph well formed,
/// leaves the structure alone and changes exactly one gradient.
pub proof fn lemma_add_grad_props(ns: Seq<SpecNode>, j: int, d: Scalar)
    requires
        graph_wf(ns),
        0 <= j < ns.len(),
        scalar_wf(d),
    ensures
        ({
            let ns1 = add_grad(ns, j, d);
            &&& graph_wf(ns1)
            &&& same_structure(ns, ns1)
            &&& ns1[j].grad == spec_add(ns[j].grad, d)
            &&& forall|t: int| 0 <= t < ns.len() && t != j ==> ns[t] == #[trigger] ns1[t]
        }),
{
    let ns1 = add_grad(ns, j, d);
    assert(node_wf(ns, j));
    assert forall|i: int| 0 <= i < ns1.len() implies node_wf(ns1, i) by {
        assert(node_wf(ns, i));
        if i != j {
            assert(ns1[i] == ns[i]);
        }
    }
}

/// A backward rule keeps the graph well formed, leaves the structure alone
/// and changes no gradient outside the node's own inputs.
pub proof fn lemma_apply_props(ns: Seq<SpecNode>, i: int)
    requires
        graph_wf(ns),
    ensures
        ({
            let ns1 = apply_node(ns, i);
            &&& graph_wf(ns1)
            &&& same_structure(ns, ns1)
            &&& forall|t: int|
                0 <= t < ns.len() && !touches(ns, i, t) ==> ns[t].grad == (
                #[trigger] ns1[t]).grad
        }),
{
    let ns1 = apply_node(ns, i);
    if 0 <= i < ns.len() {
        assert(node_wf(ns, i));
        let nd = ns[i];
        let g = nd.grad;
        match nd.op {
            None => {},
            Some(Operation::Sub) => {},
            Some(Operation::Div) => {},
            Some(Operation::Add) => {
                lemma_add_grad_props(ns, nd.prev[0], g);
                lemma_add_grad_props(add_grad(ns, nd.prev[0], g), nd.prev[1], g);
                assert forall|t: int|
                    0 <= t < ns.len() && !touches(ns, i, t) implies ns[t].grad == (
                #[trigger] ns1[t]).grad by {
                    assert(ns[i].prev[0] == nd.prev[0] && ns[i].prev[1] == nd.prev[1]);
                    assert(t != nd.prev[0] && t != nd.prev[1]);
                }
            },
            Some(Operation::Mul) => {
                let d0 = spec_mul(ns[nd.prev[0]].data, g);
                let d1 = spec_mul(ns[nd.prev[1]].data, g);
                lemma_add_grad_props(ns, nd.prev[0], d1);
                lemma_add_grad_props(add_grad(ns, nd.prev[0], d1), nd.prev[1], d0);
                assert forall|t: int|
                    0 <= t < ns.len() && !touches(ns, i, t) implies ns[t].grad == (
                #[trigger] ns1[t]).grad by {
                    assert(ns[i].prev[0] == nd.prev[0] && ns[i].prev[1] == nd.prev[1]);
                    assert(t != nd.prev[0] && t != nd.prev[1]);
                }
            },
            Some(Operation::Pow) => {
                let base = ns[nd.prev[0]].data;
                let p = ns[nd.prev[1]].data;
                lemma_add_grad_props(
                    ns,
                    nd.prev[0],
                    spec_mul(spec_mul(p, spec_pow(base, spec_sub(p, s_one()))), g),
                );
                assert forall|t: int|
                    0 <= t < ns.len() && !touches(ns, i, t) implies ns[t].grad == (
                #[trigger] ns1[t]).grad by {
                    assert(ns[i].prev[0] == nd.prev[0]);
                    assert(t != nd.prev[0]);
                }
            },
            Some(Operation::Relu) => {
                lemma_add_grad_props(
                    ns,
                    nd.prev[0],
                    if nd.data is Finite && s_num(nd.data) > 0 {
                        g
                    } else {
                        s_zero()
                    },
                );
                assert forall|t: int|
                    0 <= t < ns.len() && !touches(ns, i, t) implies ns[t].grad == (
                #[trigger] ns1[t]).grad by {
                    assert(ns[i].prev[0] == nd.prev[0]);
                    assert(t != nd.prev[0]);
                }
            },
        }
    }
}

/// A whole replay keeps the graph well formed and the structure intact.
pub proof fn lemma_run_props(ns: Seq<SpecNode>, ord: Seq<int>)
    requires
        graph_wf(ns),
    ensures
        graph_wf(run_rev(ns, ord)),
        same_structure(ns, run_rev(ns, ord)),
    decreases ord.len(),
{
    if ord.len() > 0 {
        lemma_apply_props(ns, ord.last());
        let ns1 = apply_node(ns, ord.last());
        lemma_run_props(ns1, ord.drop_last());
    }
}

/// A replay over nodes none of which list `t` as an input leaves the
/// gradient of `t` untouched.
pub proof fn lemma_run_frame(ns: Seq<SpecNode>, ord: Seq<int>, t: int)
    requires
        graph_wf(ns),
        0 <= t < ns.len(),
        forall|k: int| 0 <= k < ord.len() ==> 0 <= #[trigger] ord[k] < ns.len(),
        forall|k: int| 0 <= k < ord.len() ==> !touches(ns, #[trigger] ord[k], t),
    ensures
        run_rev(ns, ord)[t].grad == ns[t].grad,
    decreases ord.len(),
{
    if ord.len() > 0 {
        let i = ord.last();
        lemma_apply_props(ns, i);
        let ns1 = apply_node(ns, i);
        assert forall|k: int| 0 <= k < ord.drop_last().len() implies !touches(
            ns1,
            #[trigger] ord.drop_last()[k],
            t,
        ) by {
            let n = ord.drop_last()[k];
            assert(ord[k] == n);
            assert(!touches(ns, n, t));
            assert(ns1[n].prev == ns[n].prev);
            if touches(ns1, n, t) {
                let j = choose|j: int| 0 <= j < ns1[n].prev.len() && ns1[n].prev[j] == t;
                assert(ns[n].prev[j] == t);
            }
        }
        lemma_run_frame(ns1, ord.drop_last(), t);
    }
}

} // verus!
