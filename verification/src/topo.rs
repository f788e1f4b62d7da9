//! The topological sorter, at the specification level.
//!
//! `topo_visit` is the mathematical image of the depth-first post-order
//! traversal: visit a node's inputs in their recorded order before appending
//! the node itself, with a visited set (keyed by node identity) that keeps
//! shared fan-out nodes from being processed twice.  Because inputs always
//! carry smaller indices than the node they feed, the recursion terminates
//! on every well-formed graph.
//!
//! The main lemma proves what the backward engine needs of the produced
//! order: every node appears at most once, each node appears after all of
//! its inputs, and the root comes last.

use vstd::prelude::*;
use crate::engine::{SpecNode, graph_wf, node_wf};

verus! {

/// State threaded through the traversal: which nodes were seen, and the
/// order built so far.
#[verifier::ext_equal]
pub struct TopoState {
    pub visited: Set<int>,
    pub order: Seq<int>,
}

/// The traversal's starting state.
pub open spec fn empty_state() -> TopoState {
    TopoState { visited: Set::empty(), order: Seq::empty() }
}

/// Every input of node `n` lies strictly below `n`.
pub open spec fn inputs_below(ns: Seq<SpecNode>, n: int) -> bool {
    forall|j: int| 0 <= j < ns[n].prev.len() ==> 0 <= #[trigger] ns[n].prev[j] < n
}

/// Depth-first post-order visit of node `n`.
pub open spec fn topo_visit(ns: Seq<SpecNode>, n: int, st: TopoState) -> TopoState
    decreases n, 1nat, 0nat,
{
    if !(0 <= n < ns.len()) || !inputs_below(ns, n) {
        st
    } else if st.visited.contains(n) {
        st
    } else {
        let st1 = TopoState { visited: st.visited.insert(n), order: st.order };
        let st2 = topo_visit_list(ns, n, ns[n].prev, st1);
        TopoState { visited: st2.visited, order: st2.order.push(n) }
    }
}

/// Visit the input list `ch` (all below `bound`) from left to right.
pub open spec fn topo_visit_list(
    ns: Seq<SpecNode>,
    bound: int,
    ch: Seq<int>,
    st: TopoState,
) -> TopoState
    decreases bound, 0nat, ch.len(),
{
    if ch.len() == 0 {
        st
    } else if !(0 <= ch[0] < bound) {
        st
    } else {
        let st1 = topo_visit(ns, ch[0], st);
        topo_visit_list(ns, bound, ch.drop_first(), st1)
    }
}

/// The dependency order of the graph reachable from `root`.
pub open spec fn spec_topo(ns: Seq<SpecNode>, root: int) -> Seq<int> {
    topo_visit(ns, root, empty_state()).order
}

/// Input `j` of node `n` stands somewhere before position `k` of the order.
pub open spec fn prev_in_prefix(ns: Seq<SpecNode>, ord: Seq<int>, k: int, n: int, j: int) -> bool {
    exists|m: int| 0 <= m < k && ord[m] == ns[n].prev[j]
}

/// Entry `k` of the order is a node of the graph whose inputs all appear
/// strictly earlier in the order.
pub open spec fn topo_entry_ok(ns: Seq<SpecNode>, ord: Seq<int>, k: int) -> bool {
    let n = ord[k];
    &&& 0 <= n < ns.len()
    &&& forall|j: int| 0 <= j < ns[n].prev.len() ==> #[trigger] prev_in_prefix(ns, ord, k, n, j)
}

/// The topological-order property: every node's inputs precede it.
pub open spec fn topo_ok(ns: Seq<SpecNode>, ord: Seq<int>) -> bool {
    forall|k: int| 0 <= k < ord.len() ==> #[trigger] topo_entry_ok(ns, ord, k)
}

/// The traversal invariant, relative to the set `anc` of nodes whose visit
/// is still in progress: the visited set is exactly the emitted order plus
/// `anc`, the order has no duplicates, respects the dependency property, and
/// never holds an in-progress node.
pub open spec fn st_inv(ns: Seq<SpecNode>, st: TopoState, anc: Set<int>) -> bool {
    &&& forall|x: int|
        st.visited.contains(x) <==> st.order.contains(x) || anc.contains(x)
    &&& st.order.no_duplicates()
    &&& topo_ok(ns, st.order)
    &&& forall|x: int| #[trigger] st.order.contains(x) ==> !anc.contains(x)
}

/// The visited set that a boolean vector encodes.
pub open spec fn vset(v: Seq<bool>) -> Set<int> {
    Set::new(|i: int| 0 <= i < v.len() && v[i])
}

/// A vector of node indices, as mathematical integers.
pub open spec fn ord_ints(o: Seq<usize>) -> Seq<int> {
    o.map_values(|x: usize| x as int)
}

/// Visiting a list extended on the right is visiting the list, then the
/// extra node.
pub proof fn lemma_visit_list_snoc(ns: Seq<SpecNode>, bound: int, ch: Seq<int>, c: int, st: TopoState)
    requires
        forall|j: int| 0 <= j < ch.len() ==> 0 <= #[trigger] ch[j] < bound,
        0 <= c < bound,
    ensures
        topo_visit_list(ns, bound, ch.push(c), st) == topo_visit(
            ns,
            c,
            topo_visit_list(ns, bound, ch, st),
        ),
    decreases ch.len(),
{
    if ch.len() == 0 {
        assert(ch.push(c)[0] == c);
        assert(ch.push(c).drop_first() =~= Seq::<int>::empty());
        let st1 = topo_visit(ns, c, st);
        assert(topo_visit_list(ns, bound, ch.push(c), st) == topo_visit_list(
            ns,
            bound,
            Seq::<int>::empty(),
            st1,
        ));
        assert(topo_visit_list(ns, bound, Seq::<int>::empty(), st1) == st1);
        assert(topo_visit_list(ns, bound, ch, st) == st);
    } else {
        assert(ch.push(c)[0] == ch[0]);
        assert(ch.push(c).drop_first() =~= ch.drop_first().push(c));
        let st1 = topo_visit(ns, ch[0], st);
        assert(topo_visit_list(ns, bound, ch.push(c), st) == topo_visit_list(
            ns,
            bound,
            ch.drop_first().push(c),
            st1,
        ));
        lemma_visit_list_snoc(ns, bound, ch.drop_first(), c, st1);
        assert(topo_visit_list(ns, bound, ch, st) == topo_visit_list(
            ns,
            bound,
            ch.drop_first(),
            st1,
        ));
    }
}

/// The main invariant lemma for a single visit.
pub proof fn lemma_visit_inv(ns: Seq<SpecNode>, n: int, st: TopoState, anc: Set<int>)
    requires
        graph_wf(ns),
        0 <= n < ns.len(),
        st_inv(ns, st, anc),
        forall|a: int| #[trigger] anc.contains(a) ==> n < a < ns.len(),
    ensures
        ({
            let st2 = topo_visit(ns, n, st);
            &&& st_inv(ns, st2, anc)
            &&& st.order.is_prefix_of(st2.order)
            &&& st2.visited.contains(n)
            &&& st2.order.contains(n)
            &&& forall|x: int| st.visited.contains(x) ==> st2.visited.contains(x)
            &&& forall|x: int|
                st2.visited.contains(x) && !st.visited.contains(x) ==> 0 <= x <= n
        }),
    decreases n, 1nat, 0nat,
{
    assert(node_wf(ns, n));
    assert(inputs_below(ns, n));
    let st2 = topo_visit(ns, n, st);
    if st.visited.contains(n) {
        assert(!anc.contains(n));
        assert(st.order.contains(n));
        assert(st.order.is_prefix_of(st.order)) by {
            assert(st.order.subrange(0, st.order.len() as int) =~= st.order);
        }
    } else {
        let st1 = TopoState { visited: st.visited.insert(n), order: st.order };
        let anc1 = anc.insert(n);
        assert(st_inv(ns, st1, anc1)) by {
            assert(!st.order.contains(n));
        }
        lemma_visit_list_inv(ns, n, ns[n].prev, st1, anc1);
        let stl = topo_visit_list(ns, n, ns[n].prev, st1);
        assert(st2.order == stl.order.push(n));
        // the new entry keeps the order duplicate-free
        assert(!stl.order.contains(n));
        assert(st2.order.no_duplicates()) by {
            assert(forall|i: int|
                0 <= i < stl.order.len() ==> st2.order[i] == #[trigger] stl.order[i]);
            assert(st2.order[stl.order.len() as int] == n);
        }
        // membership in the new order
        assert(forall|x: int|
            #[trigger] st2.order.contains(x) <==> stl.order.contains(x) || x == n) by {
            assert forall|x: int| stl.order.contains(x) || x == n implies st2.order.contains(
                x,
            ) by {
                if x == n {
                    assert(st2.order[stl.order.len() as int] == n);
                } else {
                    let w = choose|i: int| 0 <= i < stl.order.len() && stl.order[i] == x;
                    assert(st2.order[w] == x);
                }
            }
            assert forall|x: int| #[trigger] st2.order.contains(x) implies stl.order.contains(x)
                || x == n by {
                let w = choose|i: int| 0 <= i < st2.order.len() && st2.order[i] == x;
                if w < stl.order.len() {
                    assert(stl.order[w] == x);
                }
            }
        }
        // the appended node's inputs all stand earlier in the order
        let kn = stl.order.len() as int;
        assert forall|j: int| 0 <= j < ns[n].prev.len() implies #[trigger] prev_in_prefix(
            ns,
            st2.order,
            kn,
            n,
            j,
        ) by {
            let c = ns[n].prev[j];
            assert(stl.visited.contains(c));
            assert(stl.order.contains(c) || anc1.contains(c));
            assert(0 <= c < n);
            assert(!anc1.contains(c));
            let m = choose|m: int| 0 <= m < stl.order.len() && stl.order[m] == c;
            assert(st2.order[m] == ns[n].prev[j]);
        }
        assert(topo_entry_ok(ns, st2.order, kn));
        // earlier entries keep their property under the push
        assert forall|k: int| 0 <= k < st2.order.len() implies #[trigger] topo_entry_ok(
            ns,
            st2.order,
            k,
        ) by {
            if k < stl.order.len() {
                assert(topo_entry_ok(ns, stl.order, k));
                let nn = stl.order[k];
                assert(st2.order[k] == nn);
                assert forall|j: int| 0 <= j < ns[nn].prev.len() implies #[trigger] prev_in_prefix(
                    ns,
                    st2.order,
                    k,
                    nn,
                    j,
                ) by {
                    assert(prev_in_prefix(ns, stl.order, k, nn, j));
                    let m = choose|m: int| 0 <= m < k && stl.order[m] == ns[nn].prev[j];
                    assert(st2.order[m] == ns[nn].prev[j]);
                }
                assert(topo_entry_ok(ns, st2.order, k));
            } else {
                assert(k == kn);
            }
        }
        assert(topo_ok(ns, st2.order));
        // membership and disjointness carry over from the list call
        assert forall|x: int|
            st2.visited.contains(x) <==> st2.order.contains(x) || anc.contains(x) by {
            assert(st2.visited.contains(x) <==> stl.order.contains(x) || anc1.contains(x));
            if anc1.contains(x) && !anc.contains(x) {
                assert(x == n);
            }
        }
        assert forall|x: int| #[trigger] st2.order.contains(x) implies !anc.contains(x) by {
            if stl.order.contains(x) {
                assert(!anc1.contains(x));
            } else {
                assert(x == n);
                assert(!anc.contains(n));
            }
        }
        assert(st.order.is_prefix_of(stl.order));
        lemma_prefix_push(st.order, stl.order, n);
        assert(st_inv(ns, st2, anc));
    }
}

/// Prefixes survive a push on the longer sequence.
proof fn lemma_prefix_push(a: Seq<int>, b: Seq<int>, x: int)
    requires
        a.is_prefix_of(b),
    ensures
        a.is_prefix_of(b.push(x)),
{
    assert(b.push(x).subrange(0, a.len() as int) =~= a) by {
        assert forall|i: int| 0 <= i < a.len() implies b.push(x)[i] == a[i] by {
            assert(a[i] == b.subrange(0, a.len() as int)[i]);
        }
    }
}

/// Prefixes compose.
proof fn lemma_prefix_trans(a: Seq<int>, b: Seq<int>, c: Seq<int>)
    requires
        a.is_prefix_of(b),
        b.is_prefix_of(c),
    ensures
        a.is_prefix_of(c),
{
    assert(c.subrange(0, a.len() as int) =~= a) by {
        assert forall|i: int| 0 <= i < a.len() implies c[i] == a[i] by {
            assert(a[i] == b.subrange(0, a.len() as int)[i]);
            assert(b[i] == c.subrange(0, b.len() as int)[i]);
        }
    }
}

/// The invariant lemma for an input list, all of whose members lie below
/// `bound`.
pub proof fn lemma_visit_list_inv(
    ns: Seq<SpecNode>,
    bound: int,
    ch: Seq<int>,
    st: TopoState,
    anc: Set<int>,
)
    requires
        graph_wf(ns),
        0 <= bound < ns.len(),
        forall|j: int| 0 <= j < ch.len() ==> 0 <= #[trigger] ch[j] < bound,
        st_inv(ns, st, anc),
        forall|a: int| #[trigger] anc.contains(a) ==> bound <= a < ns.len(),
    ensures
        ({
            let st2 = topo_visit_list(ns, bound, ch, st);
            &&& st_inv(ns, st2, anc)
            &&& st.order.is_prefix_of(st2.order)
            &&& forall|j: int| 0 <= j < ch.len() ==> st2.visited.contains(#[trigger] ch[j])
            &&& forall|x: int| st.visited.contains(x) ==> st2.visited.contains(x)
            &&& forall|x: int|
                st2.visited.contains(x) && !st.visited.contains(x) ==> 0 <= x < bound
        }),
    decreases bound, 0nat, ch.len(),
{
    let st2 = topo_visit_list(ns, bound, ch, st);
    if ch.len() == 0 {
        assert(st.order.is_prefix_of(st.order)) by {
            assert(st.order.subrange(0, st.order.len() as int) =~= st.order);
        }
    } else {
        assert(0 <= ch[0] < bound);
        lemma_visit_inv(ns, ch[0], st, anc);
        let st1 = topo_visit(ns, ch[0], st);
        lemma_visit_list_inv(ns, bound, ch.drop_first(), st1, anc);
        lemma_prefix_trans(st.order, st1.order, st2.order);
        assert forall|j: int| 0 <= j < ch.len() implies st2.visited.contains(
            #[trigger] ch[j],
        ) by {
            if j == 0 {
                assert(st1.visited.contains(ch[0]));
            } else {
                assert(ch.drop_first()[j - 1] == ch[j]);
                assert(st2.visited.contains(ch.drop_first()[j - 1]));
            }
        }
        assert forall|x: int|
            st2.visited.contains(x) && !st.visited.contains(x) implies 0 <= x < bound by {
            if st1.visited.contains(x) {
                assert(0 <= x <= ch[0]);
            }
        }
    }
}

/// What the produced order guarantees, starting from the empty state: the
/// dependency property, no duplicates, the root in final position, and all
/// entries at or below the root.
pub proof fn lemma_topo_props(ns: Seq<SpecNode>, root: int)
    requires
        graph_wf(ns),
        0 <= root < ns.len(),
    ensures
        ({
            let ord = spec_topo(ns, root);
            &&& topo_ok(ns, ord)
            &&& ord.no_duplicates()
            &&& ord.len() >= 1
            &&& ord.last() == root
            &&& forall|k: int| 0 <= k < ord.len() ==> 0 <= #[trigger] ord[k] <= root
        }),
{
    let st0 = empty_state();
    assert(st_inv(ns, st0, Set::empty()));
    lemma_visit_inv(ns, root, st0, Set::empty());
    let ord = spec_topo(ns, root);
    assert(node_wf(ns, root));
    let st1 = TopoState { visited: st0.visited.insert(root), order: st0.order };
    let stl = topo_visit_list(ns, root, ns[root].prev, st1);
    assert(ord == stl.order.push(root));
    assert(ord.last() == root);
    let st2 = topo_visit(ns, root, st0);
    assert forall|k: int| 0 <= k < ord.len() implies 0 <= #[trigger] ord[k] <= root by {
        assert(ord.contains(ord[k]));
        assert(st2.visited.contains(ord[k]));
        assert(!st0.visited.contains(ord[k]));
    }
}

} // verus!
