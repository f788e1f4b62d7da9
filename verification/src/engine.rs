//! The computation graph: node representation, the catalog of differentiable
//! primitives, and graph construction.
//!
//! Nodes live in an arena ([`Graph`]) and are addressed by stable indices
//! ([`Value`]); the index doubles as the node's identity, so equality and
//! hashing never depend on the numeric payload.  Every node records which
//! operation produced it and from which inputs; a node's inputs always have
//! strictly smaller indices, which makes the input relation acyclic by
//! construction.
//!
//! Negation, subtraction and division are compositions of the primitive set
//! (`-a` is `a * (-1)`, `a - b` is `(-b) + a`, `a / b` is `a * b^(-1)`), so
//! only addition, multiplication, power and relu carry backward rules.

use vstd::prelude::*;
use crate::scalar::{Scalar, scalar_wf, s_zero, s_neg_one, spec_add, spec_mul, spec_pow, spec_relu};
use crate::topo::{
    TopoState, empty_state, inputs_below, lemma_topo_props, lemma_visit_list_snoc, ord_ints,
    spec_topo, topo_entry_ok, topo_ok, topo_visit, topo_visit_list, vset,
};
use crate::backward::{
    add_grad, apply_node, backward_model, lemma_apply_props, lemma_run_props, run_rev,
    same_structure, seed_root,
};

verus! {

/// Provenance tag: which primitive produced a node.  `Sub` and `Div` belong
/// to the catalog's surface but are realised as compositions, so they are
/// never stored on a node.
#[derive(Clone, Copy, Debug, PartialEq, Eq, Structural)]
pub enum Operation {
    Add,
    Sub,
    Mul,
    Div,
    Pow,
    Relu,
}

/// One vertex of the computation graph: a forward value, an accumulated
/// gradient, a provenance tag (`None` marks a leaf) and the indices of the
/// operand nodes, in the order the operation's formula expects.
#[derive(Debug)]
pub struct ValueData {
    pub data: Scalar,
    pub grad: Scalar,
    pub op: Option<Operation>,
    pub prev: Vec<usize>,
}

/// The mathematical image of a node: the same fields over `Seq` and `int`.
#[verifier::ext_equal]
pub struct SpecNode {
    pub data: Scalar,
    pub grad: Scalar,
    pub op: Option<Operation>,
    pub prev: Seq<int>,
}

impl View for ValueData {
    type V = SpecNode;

    open spec fn view(&self) -> SpecNode {
        SpecNode {
            data: self.data,
            grad: self.grad,
            op: self.op,
            prev: self.prev@.map_values(|x: usize| x as int),
        }
    }
}

/// A handle to one node of a [`Graph`]: its arena index, which is also its
/// identity for hashing and equality.
#[derive(Clone, Copy, Debug, PartialEq, Eq, Structural)]
pub struct Value(pub usize);

/// The arena holding every node of a computation graph.
pub struct Graph {
    pub(crate) nodes: Vec<ValueData>,
}

impl View for Graph {
    type V = Seq<SpecNode>;

    closed spec fn view(&self) -> Seq<SpecNode> {
        self.nodes@.map_values(|nd: ValueData| nd@)
    }
}

/// Well-formedness of the node at index `i`: finite-denominator scalars,
/// inputs strictly below `i` (acyclicity), and the arity its tag demands.
pub open spec fn node_wf(ns: Seq<SpecNode>, i: int) -> bool {
    let nd = ns[i];
    &&& scalar_wf(nd.data)
    &&& scalar_wf(nd.grad)
    &&& forall|j: int| 0 <= j < nd.prev.len() ==> 0 <= #[trigger] nd.prev[j] < i
    &&& match nd.op {
        None => nd.prev.len() == 0,
        Some(Operation::Add) => nd.prev.len() == 2,
        Some(Operation::Mul) => nd.prev.len() == 2,
        Some(Operation::Pow) => nd.prev.len() == 2,
        Some(Operation::Relu) => nd.prev.len() == 1,
        Some(Operation::Sub) => false,
        Some(Operation::Div) => false,
    }
}

/// Well-formedness of a whole graph.
pub open spec fn graph_wf(ns: Seq<SpecNode>) -> bool {
    forall|i: int| 0 <= i < ns.len() ==> node_wf(ns, i)
}

/// A fresh leaf node holding `v`.
pub open spec fn leaf_node(v: Scalar) -> SpecNode {
    SpecNode { data: v, grad: s_zero(), op: None, prev: seq![] }
}

/// The node produced by `Add` on inputs `a` and `b` of graph `ns`.
pub open spec fn add_node(ns: Seq<SpecNode>, a: int, b: int) -> SpecNode {
    SpecNode {
        data: spec_add(ns[a].data, ns[b].data),
        grad: s_zero(),
        op: Some(Operation::Add),
        prev: seq![a, b],
    }
}

/// The node produced by `Mul` on inputs `a` and `b` of graph `ns`.
pub open spec fn mul_node(ns: Seq<SpecNode>, a: int, b: int) -> SpecNode {
    SpecNode {
        data: spec_mul(ns[a].data, ns[b].data),
        grad: s_zero(),
        op: Some(Operation::Mul),
        prev: seq![a, b],
    }
}

/// The node produced by `Pow` on base `a` and exponent node `e` of `ns`.
pub open spec fn pow_node(ns: Seq<SpecNode>, a: int, e: int) -> SpecNode {
    SpecNode {
        data: spec_pow(ns[a].data, ns[e].data),
        grad: s_zero(),
        op: Some(Operation::Pow),
        prev: seq![a, e],
    }
}

/// The node produced by `Relu` on input `a` of `ns`.
pub open spec fn relu_node(ns: Seq<SpecNode>, a: int) -> SpecNode {
    SpecNode {
        data: spec_relu(ns[a].data),
        grad: s_zero(),
        op: Some(Operation::Relu),
        prev: seq![a],
    }
}

/// The two nodes allocated by negation: a leaf holding minus one, then the
/// `Mul` node of `a` and that leaf.
pub open spec fn neg_nodes(ns: Seq<SpecNode>, a: int) -> Seq<SpecNode> {
    let ns1 = ns.push(leaf_node(s_neg_one()));
    ns1.push(mul_node(ns1, a, ns.len() as int))
}

/// The three nodes allocated by subtraction: the negation of `b`, then the
/// `Add` node of `-b` and `a`, in that operand order.
pub open spec fn sub_nodes(ns: Seq<SpecNode>, a: int, b: int) -> Seq<SpecNode> {
    let ns1 = neg_nodes(ns, b);
    ns1.push(add_node(ns1, ns.len() + 1int, a))
}

/// The two nodes allocated by power: a leaf holding the constant exponent,
/// then the `Pow` node of `a` and that leaf.
pub open spec fn pow_nodes(ns: Seq<SpecNode>, a: int, e: Scalar) -> Seq<SpecNode> {
    let ns1 = ns.push(leaf_node(e));
    ns1.push(pow_node(ns1, a, ns.len() as int))
}

/// The three nodes allocated by division: `b` raised to minus one, then the
/// `Mul` node of `a` and that reciprocal.
pub open spec fn div_nodes(ns: Seq<SpecNode>, a: int, b: int) -> Seq<SpecNode> {
    let ns1 = pow_nodes(ns, b, s_neg_one());
    ns1.push(mul_node(ns1, a, ns.len() + 1int))
}

/// The graph and root index produced by summing `ids` with repeated `Add`,
/// folding from the left.
pub open spec fn sum_nodes(ns: Seq<SpecNode>, ids: Seq<int>) -> (Seq<SpecNode>, int)
    recommends
        ids.len() >= 1,
    decreases ids.len(),
{
    if ids.len() <= 1 {
        (ns, ids[0])
    } else {
        let (ns1, acc) = sum_nodes(ns, ids.drop_last());
        (ns1.push(add_node(ns1, acc, ids.last())), ns1.len() as int)
    }
}

/// Pushing a node leaves the well-formedness of the existing ones intact.
pub proof fn lemma_wf_push(ns: Seq<SpecNode>, nd: SpecNode)
    requires
        graph_wf(ns),
        scalar_wf(nd.data),
        scalar_wf(nd.grad),
        forall|j: int| 0 <= j < nd.prev.len() ==> 0 <= #[trigger] nd.prev[j] < ns.len(),
        match nd.op {
            None => nd.prev.len() == 0,
            Some(Operation::Add) => nd.prev.len() == 2,
            Some(Operation::Mul) => nd.prev.len() == 2,
            Some(Operation::Pow) => nd.prev.len() == 2,
            Some(Operation::Relu) => nd.prev.len() == 1,
            Some(Operation::Sub) => false,
            Some(Operation::Div) => false,
        },
    ensures
        graph_wf(ns.push(nd)),
{
    let ns1 = ns.push(nd);
    assert forall|i: int| 0 <= i < ns1.len() implies node_wf(ns1, i) by {
        if i < ns.len() {
            assert(node_wf(ns, i));
            assert(ns1[i] == ns[i]);
        } else {
            assert(ns1[i] == nd);
        }
    }
}

impl Graph {
    /// The graph's well-formedness invariant.
    pub open spec fn wf(&self) -> bool {
        graph_wf(self@)
    }

    /// An empty graph.
    pub fn new() -> (g: Graph)
        ensures
            g.wf(),
            g@.len() == 0,
    {
        Graph { nodes: Vec::new() }
    }

    /// How many nodes the graph holds.
    pub fn len(&self) -> (n: usize)
        ensures
            n == self@.len(),
    {
        self.nodes.len()
    }

    /// Construct a leaf node from a numeric literal.
    pub fn leaf(&mut self, data: Scalar) -> (r: Value)
        requires
            old(self).wf(),
            scalar_wf(data),
        ensures
            final(self).wf(),
            r.0 == old(self)@.len(),
            final(self)@ == old(self)@.push(leaf_node(data)),
    {
        let id = self.nodes.len();
        self.nodes.push(ValueData { data, grad: Scalar::from_int(0), op: None, prev: Vec::new() });
        proof {
            assert(self@ =~~= old(self)@.push(leaf_node(data)));
            lemma_wf_push(old(self)@, leaf_node(data));
        }
        Value(id)
    }

    /// Element-wise addition: allocates the `Add` node of `a` and `b`.
    pub fn add(&mut self, a: Value, b: Value) -> (r: Value)
        requires
            old(self).wf(),
            a.0 < old(self)@.len(),
            b.0 < old(self)@.len(),
        ensures
            final(self).wf(),
            r.0 == old(self)@.len(),
            final(self)@ == old(self)@.push(add_node(old(self)@, a.0 as int, b.0 as int)),
    {
        let id = self.nodes.len();
        proof {
            assert(node_wf(old(self)@, a.0 as int));
            assert(node_wf(old(self)@, b.0 as int));
            assert(old(self)@[a.0 as int] == old(self).nodes@[a.0 as int]@);
            assert(old(self)@[b.0 as int] == old(self).nodes@[b.0 as int]@);
        }
        let v = self.nodes[a.0].data.add(self.nodes[b.0].data);
        let mut prev: Vec<usize> = Vec::new();
        prev.push(a.0);
        prev.push(b.0);
        self.nodes.push(
            ValueData { data: v, grad: Scalar::from_int(0), op: Some(Operation::Add), prev },
        );
        proof {
            let nd = add_node(old(self)@, a.0 as int, b.0 as int);
            assert(self.nodes@.last()@.prev =~= nd.prev);
            assert(self@ =~~= old(self)@.push(nd));
            lemma_wf_push(old(self)@, nd);
        }
        Value(id)
    }

    /// Element-wise multiplication: allocates the `Mul` node of `a` and `b`.
    pub fn mul(&mut self, a: Value, b: Value) -> (r: Value)
        requires
            old(self).wf(),
            a.0 < old(self)@.len(),
            b.0 < old(self)@.len(),
        ensures
            final(self).wf(),
            r.0 == old(self)@.len(),
            final(self)@ == old(self)@.push(mul_node(old(self)@, a.0 as int, b.0 as int)),
    {
        let id = self.nodes.len();
        proof {
            assert(node_wf(old(self)@, a.0 as int));
            assert(node_wf(old(self)@, b.0 as int));
            assert(old(self)@[a.0 as int] == old(self).nodes@[a.0 as int]@);
            assert(old(self)@[b.0 as int] == old(self).nodes@[b.0 as int]@);
        }
        let v = self.nodes[a.0].data.mul(self.nodes[b.0].data);
        let mut prev: Vec<usize> = Vec::new();
        prev.push(a.0);
        prev.push(b.0);
        self.nodes.push(
            ValueData { data: v, grad: Scalar::from_int(0), op: Some(Operation::Mul), prev },
        );
        proof {
            let nd = mul_node(old(self)@, a.0 as int, b.0 as int);
            assert(self.nodes@.last()@.prev =~= nd.prev);
            assert(self@ =~~= old(self)@.push(nd));
            lemma_wf_push(old(self)@, nd);
        }
        Value(id)
    }

    /// Rectified linear unit: allocates the `Relu` node of `a`.
    pub fn relu(&mut self, a: Value) -> (r: Value)
        requires
            old(self).wf(),
            a.0 < old(self)@.len(),
        ensures
            final(self).wf(),
            r.0 == old(self)@.len(),
            final(self)@ == old(self)@.push(relu_node(old(self)@, a.0 as int)),
    {
        let id = self.nodes.len();
        proof {
            assert(node_wf(old(self)@, a.0 as int));
            assert(old(self)@[a.0 as int] == old(self).nodes@[a.0 as int]@);
        }
        let v = self.nodes[a.0].data.relu();
        let mut prev: Vec<usize> = Vec::new();
        prev.push(a.0);
        self.nodes.push(
            ValueData { data: v, grad: Scalar::from_int(0), op: Some(Operation::Relu), prev },
        );
        proof {
            let nd = relu_node(old(self)@, a.0 as int);
            assert(self.nodes@.last()@.prev =~= nd.prev);
            assert(self@ =~~= old(self)@.push(nd));
            lemma_wf_push(old(self)@, nd);
        }
        Value(id)
    }

    /// Power by a constant: allocates a leaf for the exponent, then the
    /// `Pow` node.  The exponent leaf is recorded as the second input but
    /// receives no gradient: it is a constant, not a trainable quantity.
    pub fn pow(&mut self, a: Value, power: Scalar) -> (r: Value)
        requires
            old(self).wf(),
            a.0 < old(self)@.len(),
            scalar_wf(power),
        ensures
            final(self).wf(),
            r.0 == old(self)@.len() + 1,
            final(self)@ == pow_nodes(old(self)@, a.0 as int, power),
    {
        proof {
            assert(node_wf(old(self)@, a.0 as int));
            assert(old(self)@[a.0 as int] == old(self).nodes@[a.0 as int]@);
        }
        let v = self.nodes[a.0].data.pow(power);
        let e = self.leaf(power);
        let id = self.nodes.len();
        let mut prev: Vec<usize> = Vec::new();
        prev.push(a.0);
        prev.push(e.0);
        self.nodes.push(
            ValueData { data: v, grad: Scalar::from_int(0), op: Some(Operation::Pow), prev },
        );
        proof {
            let ns1 = old(self)@.push(leaf_node(power));
            let nd = pow_node(ns1, a.0 as int, e.0 as int);
            assert(self.nodes@.last()@.prev =~= nd.prev);
            assert(self@ =~~= ns1.push(nd));
            lemma_wf_push(old(self)@, leaf_node(power));
            lemma_wf_push(ns1, nd);
        }
        Value(id)
    }

    /// Negation, composed as multiplication by a constant minus one.
    pub fn neg(&mut self, a: Value) -> (r: Value)
        requires
            old(self).wf(),
            a.0 < old(self)@.len(),
        ensures
            final(self).wf(),
            r.0 == old(self)@.len() + 1,
            final(self)@ == neg_nodes(old(self)@, a.0 as int),
    {
        let m = self.leaf(Scalar::from_int(-1));
        self.mul(a, m)
    }

    /// Subtraction, composed as the negation of `b` added to `a`.
    pub fn sub(&mut self, a: Value, b: Value) -> (r: Value)
        requires
            old(self).wf(),
            a.0 < old(self)@.len(),
            b.0 < old(self)@.len(),
        ensures
            final(self).wf(),
            r.0 == old(self)@.len() + 2,
            final(self)@ == sub_nodes(old(self)@, a.0 as int, b.0 as int),
    {
        let nb = self.neg(b);
        self.add(nb, a)
    }

    /// Division, composed as multiplication by `b` raised to minus one.
    pub fn div(&mut self, a: Value, b: Value) -> (r: Value)
        requires
            old(self).wf(),
            a.0 < old(self)@.len(),
            b.0 < old(self)@.len(),
        ensures
            final(self).wf(),
            r.0 == old(self)@.len() + 2,
            final(self)@ == div_nodes(old(self)@, a.0 as int, b.0 as int),
    {
        let p = self.pow(b, Scalar::from_int(-1));
        self.mul(a, p)
    }

    /// Sum of a nonempty sequence of nodes, built by repeated addition.
    pub fn sum(&mut self, xs: &Vec<Value>) -> (r: Value)
        requires
            old(self).wf(),
            xs@.len() >= 1,
            forall|k: int| 0 <= k < xs@.len() ==> (#[trigger] xs@[k]).0 < old(self)@.len(),
        ensures
            final(self).wf(),
            r.0 < final(self)@.len(),
            final(self)@ == sum_nodes(old(self)@, xs@.map_values(|v: Value| v.0 as int)).0,
            r.0 as int == sum_nodes(old(self)@, xs@.map_values(|v: Value| v.0 as int)).1,
    {
        let ghost ids = xs@.map_values(|v: Value| v.0 as int);
        let mut acc = xs[0];
        let mut i: usize = 1;
        proof {
            assert(ids.take(1) =~= seq![ids[0]]);
        }
        while i < xs.len()
            invariant
                1 <= i <= xs@.len(),
                ids == xs@.map_values(|v: Value| v.0 as int),
                forall|k: int| 0 <= k < xs@.len() ==> (#[trigger] xs@[k]).0 < old(self)@.len(),
                old(self)@.len() <= self@.len(),
                self.wf(),
                acc.0 < self@.len(),
                self@ == sum_nodes(old(self)@, ids.take(i as int)).0,
                acc.0 as int == sum_nodes(old(self)@, ids.take(i as int)).1,
            decreases xs@.len() - i,
        {
            let x = xs[i];
            acc = self.add(acc, x);
            proof {
                assert(ids.take(i + 1).drop_last() =~= ids.take(i as int));
                assert(ids.take(i + 1).last() == ids[i as int]);
            }
            i = i + 1;
        }
        proof {
            assert(ids.take(xs@.len() as int) =~= ids);
        }
        acc
    }

    /// Forward value of the node `a`.
    pub fn data(&self, a: Value) -> (r: Scalar)
        requires
            a.0 < self@.len(),
        ensures
            r == self@[a.0 as int].data,
    {
        self.nodes[a.0].data
    }

    /// Accumulated gradient of the node `a`.
    pub fn grad(&self, a: Value) -> (r: Scalar)
        requires
            a.0 < self@.len(),
        ensures
            r == self@[a.0 as int].grad,
    {
        self.nodes[a.0].grad
    }

    /// Provenance tag of the node `a`; `None` marks a leaf.
    pub fn op(&self, a: Value) -> (r: Option<Operation>)
        requires
            a.0 < self@.len(),
        ensures
            r == self@[a.0 as int].op,
    {
        self.nodes[a.0].op
    }

    /// The operand nodes that produced `a`, in recorded order.
    pub fn prev(&self, a: Value) -> (r: Vec<Value>)
        requires
            a.0 < self@.len(),
        ensures
            r@.len() == self@[a.0 as int].prev.len(),
            forall|j: int|
                0 <= j < r@.len() ==> (#[trigger] r@[j]).0 as int == self@[a.0 as int].prev[j],
    {
        let mut r: Vec<Value> = Vec::new();
        let n = self.nodes[a.0].prev.len();
        let mut j: usize = 0;
        while j < n
            invariant
                a.0 < self@.len(),
                n == self@[a.0 as int].prev.len(),
                j <= n,
                r@.len() == j,
                forall|k: int|
                    0 <= k < j ==> (#[trigger] r@[k]).0 as int == self@[a.0 as int].prev[k],
            decreases n - j,
        {
            r.push(Value(self.nodes[a.0].prev[j]));
            j = j + 1;
        }
        r
    }

    /// Overwrite the forward value of `a` (a gradient-descent step does this
    /// from outside the engine).
    pub fn set_data(&mut self, a: Value, v: Scalar)
        requires
            old(self).wf(),
            a.0 < old(self)@.len(),
            scalar_wf(v),
        ensures
            final(self).wf(),
            final(self)@.len() == old(self)@.len(),
            final(self)@[a.0 as int].data == v,
            final(self)@[a.0 as int].grad == old(self)@[a.0 as int].grad,
            final(self)@[a.0 as int].op == old(self)@[a.0 as int].op,
            final(self)@[a.0 as int].prev == old(self)@[a.0 as int].prev,
            forall|i: int| 0 <= i < final(self)@.len() && i != a.0 as int ==> final(self)@[i] == old(self)@[i],
    {
        let nd = ValueData {
            data: v,
            grad: self.nodes[a.0].grad,
            op: self.nodes[a.0].op,
            prev: self.nodes[a.0].prev.clone(),
        };
        self.nodes.set(a.0, nd);
        proof {
            assert(self.nodes@[a.0 as int].prev@ =~= old(self).nodes@[a.0 as int].prev@);
            assert(self@[a.0 as int].prev =~= old(self)@[a.0 as int].prev);
            assert forall|i: int| 0 <= i < self@.len() implies node_wf(self@, i) by {
                assert(node_wf(old(self)@, i));
                assert(self@[i].prev == old(self)@[i].prev && self@[i].op == old(self)@[i].op);
            }
        }
    }

    /// Overwrite the gradient of the node at index `a`.
    pub(crate) fn set_grad(&mut self, a: usize, v: Scalar)
        requires
            old(self).wf(),
            a < old(self)@.len(),
            scalar_wf(v),
        ensures
            final(self).wf(),
            final(self)@ =~= old(self)@.update(
                a as int,
                SpecNode {
                    data: old(self)@[a as int].data,
                    grad: v,
                    op: old(self)@[a as int].op,
                    prev: old(self)@[a as int].prev,
                },
            ),
    {
        let nd = ValueData {
            data: self.nodes[a].data,
            grad: v,
            op: self.nodes[a].op,
            prev: self.nodes[a].prev.clone(),
        };
        self.nodes.set(a, nd);
        proof {
            assert(self.nodes@[a as int].prev@ =~= old(self).nodes@[a as int].prev@);
            assert(self@[a as int].prev =~= old(self)@[a as int].prev);
            assert forall|i: int| 0 <= i < self@.len() implies node_wf(self@, i) by {
                assert(node_wf(old(self)@, i));
                assert(self@[i].prev == old(self)@[i].prev && self@[i].op == old(self)@[i].op);
            }
        }
    }

    /// One step of the depth-first traversal: visit `n`'s inputs in recorded
    /// order, then append `n`, skipping nodes already seen.
    fn topo_visit_exec(&self, n: usize, visited: &mut Vec<bool>, order: &mut Vec<usize>)
        requires
            self.wf(),
            n < self@.len(),
            old(visited)@.len() == self@.len(),
        ensures
            final(visited)@.len() == self@.len(),
            ({
                let st2 = topo_visit(
                    self@,
                    n as int,
                    TopoState { visited: vset(old(visited)@), order: ord_ints(old(order)@) },
                );
                vset(final(visited)@) == st2.visited && ord_ints(final(order)@) == st2.order
            }),
        decreases n,
    {
        let ghost st0 = TopoState {
            visited: vset(old(visited)@),
            order: ord_ints(old(order)@),
        };
        proof {
            assert(node_wf(self@, n as int));
            assert(inputs_below(self@, n as int));
        }
        if !visited[n] {
            proof {
                assert(!st0.visited.contains(n as int));
            }
            visited.set(n, true);
            let ghost st1 = TopoState { visited: st0.visited.insert(n as int), order: st0.order };
            proof {
                assert(vset(visited@) =~= st1.visited);
            }
            let ghost ch = self@[n as int].prev;
            proof {
                assert(self@[n as int] == self.nodes@[n as int]@);
            }
            let np = self.nodes[n].prev.len();
            let mut k: usize = 0;
            proof {
                assert(ch.take(0) =~= Seq::<int>::empty());
            }
            while k < np
                invariant
                    self.wf(),
                    n < self@.len(),
                    ch == self@[n as int].prev,
                    self@[n as int] == self.nodes@[n as int]@,
                    np == ch.len(),
                    k <= np,
                    forall|j: int| 0 <= j < ch.len() ==> 0 <= #[trigger] ch[j] < n,
                    visited@.len() == self@.len(),
                    ({
                        let stk = topo_visit_list(self@, n as int, ch.take(k as int), st1);
                        vset(visited@) == stk.visited && ord_ints(order@) == stk.order
                    }),
                decreases np - k,
            {
                let c = self.nodes[n].prev[k];
                proof {
                    assert(c as int == ch[k as int]);
                }
                self.topo_visit_exec(c, visited, order);
                proof {
                    lemma_visit_list_snoc(self@, n as int, ch.take(k as int), ch[k as int], st1);
                    assert(ch.take(k + 1) =~= ch.take(k as int).push(ch[k as int]));
                }
                k = k + 1;
            }
            proof {
                assert(ch.take(np as int) =~= ch);
            }
            order.push(n);
            proof {
                let stl = topo_visit_list(self@, n as int, ch, st1);
                assert(ord_ints(order@) =~= stl.order.push(n as int));
                assert(topo_visit(self@, n as int, st0) == TopoState {
                    visited: stl.visited,
                    order: stl.order.push(n as int),
                });
            }
        } else {
            proof {
                assert(st0.visited.contains(n as int));
                assert(topo_visit(self@, n as int, st0) == st0);
            }
        }
    }

    /// The dependency order of every node reachable from `root`: each node
    /// appears exactly once, after all of its inputs, and `root` comes last.
    pub fn build_topo(&self, root: Value) -> (order: Vec<usize>)
        requires
            self.wf(),
            root.0 < self@.len(),
        ensures
            ord_ints(order@) == spec_topo(self@, root.0 as int),
            topo_ok(self@, ord_ints(order@)),
            ord_ints(order@).no_duplicates(),
            order@.len() >= 1,
            order@.last() == root.0,
            forall|k: int| 0 <= k < order@.len() ==> #[trigger] order@[k] < self@.len(),
    {
        let n = self.nodes.len();
        let mut visited: Vec<bool> = vec![false; n];
        let mut order: Vec<usize> = Vec::new();
        proof {
            assert(vset(visited@) =~= Set::<int>::empty());
            assert(ord_ints(order@) =~= Seq::<int>::empty());
            assert(TopoState { visited: vset(visited@), order: ord_ints(order@) } =~~= empty_state());
        }
        self.topo_visit_exec(root.0, &mut visited, &mut order);
        proof {
            lemma_topo_props(self@, root.0 as int);
            let ord = ord_ints(order@);
            assert(ord.last() == root.0 as int);
            assert forall|k: int| 0 <= k < order@.len() implies #[trigger] order@[k]
                < self@.len() by {
                assert(topo_entry_ok(self@, ord, k));
                assert(ord[k] == order@[k] as int);
            }
        }
        order
    }

    /// Accumulate `d` into the gradient of the node at index `j`.
    fn add_to_grad(&mut self, j: usize, d: Scalar)
        requires
            old(self).wf(),
            j < old(self)@.len(),
            scalar_wf(d),
        ensures
            final(self).wf(),
            final(self)@ == add_grad(old(self)@, j as int, d),
    {
        proof {
            assert(node_wf(old(self)@, j as int));
            assert(old(self)@[j as int] == old(self).nodes@[j as int]@);
        }
        let ng = self.nodes[j].grad.add(d);
        self.set_grad(j, ng);
        proof {
            assert(self@ =~~= add_grad(old(self)@, j as int, d));
        }
    }

    /// Fire the backward rule of the node at index `i`: look its operation
    /// up in the catalog and accumulate the local derivative, weighted by
    /// the node's current gradient, into each input.  Leaves do nothing.
    fn apply_rule(&mut self, i: usize)
        requires
            old(self).wf(),
            i < old(self)@.len(),
        ensures
            final(self).wf(),
            final(self)@ == apply_node(old(self)@, i as int),
    {
        proof {
            assert(node_wf(old(self)@, i as int));
            assert(old(self)@[i as int] == old(self).nodes@[i as int]@);
        }
        let g = self.nodes[i].grad;
        match self.nodes[i].op {
            None => {},
            Some(Operation::Sub) => {},
            Some(Operation::Div) => {},
            Some(Operation::Add) => {
                let i0 = self.nodes[i].prev[0];
                let i1 = self.nodes[i].prev[1];
                proof {
                    assert(i0 as int == old(self)@[i as int].prev[0]);
                    assert(i1 as int == old(self)@[i as int].prev[1]);
                }
                self.add_to_grad(i0, g);
                self.add_to_grad(i1, g);
            },
            Some(Operation::Mul) => {
                let i0 = self.nodes[i].prev[0];
                let i1 = self.nodes[i].prev[1];
                proof {
                    assert(i0 as int == old(self)@[i as int].prev[0]);
                    assert(i1 as int == old(self)@[i as int].prev[1]);
                    assert(node_wf(old(self)@, i0 as int));
                    assert(node_wf(old(self)@, i1 as int));
                    assert(old(self)@[i0 as int] == old(self).nodes@[i0 as int]@);
                    assert(old(self)@[i1 as int] == old(self).nodes@[i1 as int]@);
                }
                let d0 = self.nodes[i0].data.mul(g);
                let d1 = self.nodes[i1].data.mul(g);
                self.add_to_grad(i0, d1);
                self.add_to_grad(i1, d0);
            },
            Some(Operation::Pow) => {
                let i0 = self.nodes[i].prev[0];
                let i1 = self.nodes[i].prev[1];
                proof {
                    assert(i0 as int == old(self)@[i as int].prev[0]);
                    assert(i1 as int == old(self)@[i as int].prev[1]);
                    assert(node_wf(old(self)@, i0 as int));
                    assert(node_wf(old(self)@, i1 as int));
                    assert(old(self)@[i0 as int] == old(self).nodes@[i0 as int]@);
                    assert(old(self)@[i1 as int] == old(self).nodes@[i1 as int]@);
                }
                let base = self.nodes[i0].data;
                let p = self.nodes[i1].data;
                let d = p.mul(base.pow(p.sub(Scalar::from_int(1)))).mul(g);
                self.add_to_grad(i0, d);
            },
            Some(Operation::Relu) => {
                let i0 = self.nodes[i].prev[0];
                proof {
                    assert(i0 as int == old(self)@[i as int].prev[0]);
                }
                let local_grad = match self.nodes[i].data {
                    Scalar::Finite { num, den: _ } => {
                        if num > 0 {
                            g
                        } else {
                            Scalar::from_int(0)
                        }
                    },
                    Scalar::NonFinite => Scalar::from_int(0),
                };
                self.add_to_grad(i0, local_grad);
            },
        }
    }

    /// One whole backward pass: seed the gradient of `root` with one, then
    /// replay the topological order in reverse, so that every node's
    /// gradient is fully accumulated from all of its consumers before it
    /// propagates further.  Gradients left from earlier passes are added to,
    /// never cleared: callers reset explicitly when that is not wanted.
    pub fn backward(&mut self, root: Value)
        requires
            old(self).wf(),
            root.0 < old(self)@.len(),
        ensures
            final(self).wf(),
            final(self)@ == backward_model(old(self)@, root.0 as int),
            same_structure(old(self)@, final(self)@),
    {
        let ghost ns0 = old(self)@;
        let order = self.build_topo(root);
        let ghost ord = ord_ints(order@);
        self.set_grad(root.0, Scalar::from_int(1));
        proof {
            assert(self@ =~~= seed_root(ns0, root.0 as int));
            lemma_topo_props(ns0, root.0 as int);
            assert(ord.take(order@.len() as int) =~= ord);
        }
        let mut j = order.len();
        while j > 0
            invariant
                self.wf(),
                j <= order@.len(),
                ord == ord_ints(order@),
                self@.len() == ns0.len(),
                forall|k: int| 0 <= k < order@.len() ==> #[trigger] order@[k] < ns0.len(),
                run_rev(self@, ord.take(j as int)) == run_rev(seed_root(ns0, root.0 as int), ord),
            decreases j,
        {
            j = j - 1;
            let i = order[j];
            proof {
                assert(ord.take(j + 1).drop_last() =~= ord.take(j as int));
                assert(ord.take(j + 1).last() == ord[j as int]);
                assert(ord[j as int] == i as int);
            }
            let ghost pre = self@;
            self.apply_rule(i);
            proof {
                lemma_apply_props(pre, i as int);
                assert(run_rev(pre, ord.take(j + 1)) == run_rev(
                    apply_node(pre, i as int),
                    ord.take(j as int),
                ));
            }
        }
        proof {
            assert(ord.take(0) =~= Seq::<int>::empty());
            let sr = seed_root(ns0, root.0 as int);
            lemma_run_props(sr, ord);
            assert(same_structure(ns0, sr)) by {
                assert forall|i: int| 0 <= i < ns0.len() implies {
                    &&& (#[trigger] ns0[i]).data == sr[i].data
                    &&& ns0[i].op == sr[i].op
                    &&& ns0[i].prev == sr[i].prev
                } by {
                    if i != root.0 as int {
                        assert(sr[i] == ns0[i]);
                    }
                }
            }
            assert(same_structure(ns0, self@));
        }
    }

    /// Reset the gradient of every listed node to zero.  This is a direct
    /// reset over the supplied flat list (typically the trainable
    /// parameters); no graph traversal happens.
    pub fn zero_gradients(&mut self, params: &Vec<Value>)
        requires
            old(self).wf(),
            forall|k: int| 0 <= k < params@.len() ==> (#[trigger] params@[k]).0 < old(self)@.len(),
        ensures
            final(self).wf(),
            final(self)@.len() == old(self)@.len(),
            forall|i: int|
                0 <= i < old(self)@.len() ==> {
                    let nd = #[trigger] final(self)@[i];
                    &&& nd.data == old(self)@[i].data
                    &&& nd.op == old(self)@[i].op
                    &&& nd.prev == old(self)@[i].prev
                    &&& nd.grad == if exists|k: int|
                        0 <= k < params@.len() && (#[trigger] params@[k]).0 == i {
                        s_zero()
                    } else {
                        old(self)@[i].grad
                    }
                },
    {
        let mut k: usize = 0;
        while k < params.len()
            invariant
                self.wf(),
                k <= params@.len(),
                self@.len() == old(self)@.len(),
                forall|j: int|
                    0 <= j < params@.len() ==> (#[trigger] params@[j]).0 < old(self)@.len(),
                forall|i: int|
                    0 <= i < old(self)@.len() ==> {
                        let nd = #[trigger] self@[i];
                        &&& nd.data == old(self)@[i].data
                        &&& nd.op == old(self)@[i].op
                        &&& nd.prev == old(self)@[i].prev
                        &&& nd.grad == if exists|j: int|
                            0 <= j < k && (#[trigger] params@[j]).0 == i {
                            s_zero()
                        } else {
                            old(self)@[i].grad
                        }
                    },
            decreases params@.len() - k,
        {
            let p = params[k];
            self.set_grad(p.0, Scalar::from_int(0));
            k = k + 1;
        }
    }
}

} // verus!
