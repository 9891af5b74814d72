use vstd::prelude::*;

use crate::graph::{
    add_node_spec, bound_to, complete, compute_order_post, has_cycle, is_walk, node_complete,
    patch_spec, Error, GraphView, InputID, NodeID, NodeView, OutputID,
};

verus! {

/// The graph after adding nodes with the given (input, output) arities, in that order.
pub open spec fn add_nodes(v: GraphView, arities: Seq<(nat, nat)>) -> GraphView
    decreases arities.len(),
{
    if arities.len() == 0 {
        v
    } else {
        let u = add_nodes(v, arities.drop_last());
        add_node_spec(u, arities.last().0, arities.last().1)
    }
}

/// Node ids are handed out in call order: the `k`-th call of `add_node` on a graph of `n`
/// nodes returns `n + k`, so on a new graph the ids are 0, 1, 2, ... and never repeat.
pub proof fn lemma_ids_in_call_order(v: GraphView, arities: Seq<(nat, nat)>)
    ensures
        forall|k: int| 0 <= k <= arities.len() ==> #[trigger] add_nodes(v, arities.take(k)).nodes.len() == v.nodes.len() + k,
    decreases arities.len(),
{
    if arities.len() > 0 {
        let front = arities.drop_last();
        lemma_ids_in_call_order(v, front);
        assert forall|k: int| 0 <= k <= arities.len() implies #[trigger] add_nodes(v, arities.take(k)).nodes.len() == v.nodes.len() + k by {
            if k < arities.len() {
                assert(arities.take(k) =~= front.take(k));
            } else {
                assert(arities.take(k) =~= arities);
                assert(front.take(k - 1) =~= front);
                assert(add_nodes(v, front.take(k - 1)).nodes.len() == v.nodes.len() + k - 1);
                assert(add_nodes(v, arities).nodes.len() == add_nodes(v, front).nodes.len() + 1);
            }
        }
    }
}

/// `patch` checks the output node, then its output channel, then the input node, then its
/// input channel; the first check that fails decides the error and leaves the graph unchanged.
pub proof fn lemma_patch_checks_in_order(v: GraphView, o_node: NodeID, o_chan: OutputID, i_node: NodeID, i_chan: InputID)
    ensures
        o_node >= v.nodes.len() ==> patch_spec(v, o_node, o_chan, i_node, i_chan) == (v, Err::<(), Error>(Error::NoSuchNode(o_node))),
        o_node < v.nodes.len() && o_chan >= v.nodes[o_node as int].num_outputs
            ==> patch_spec(v, o_node, o_chan, i_node, i_chan) == (v, Err::<(), Error>(Error::NoSuchOutput(o_node, o_chan))),
        o_node < v.nodes.len() && o_chan < v.nodes[o_node as int].num_outputs && i_node >= v.nodes.len()
            ==> patch_spec(v, o_node, o_chan, i_node, i_chan) == (v, Err::<(), Error>(Error::NoSuchNode(i_node))),
        o_node < v.nodes.len() && o_chan < v.nodes[o_node as int].num_outputs && i_node < v.nodes.len()
            && i_chan >= v.nodes[i_node as int].inputs.len()
            ==> patch_spec(v, o_node, o_chan, i_node, i_chan) == (v, Err::<(), Error>(Error::NoSuchInput(i_node, i_chan))),
{
}

/// Patching one input twice: the second call reports `InputAlreadyPatched`, the input is then
/// bound to the second source, and a successful ordering afterwards places the second source
/// before the patched node.
pub proof fn lemma_repatch_replaces(
    v: GraphView,
    o1: NodeID,
    c1: OutputID,
    o2: NodeID,
    c2: OutputID,
    i_node: NodeID,
    i_chan: InputID,
    w: GraphView,
)
    requires
        o1 < v.nodes.len() && c1 < v.nodes[o1 as int].num_outputs,
        o2 < v.nodes.len() && c2 < v.nodes[o2 as int].num_outputs,
        i_node < v.nodes.len() && i_chan < v.nodes[i_node as int].inputs.len(),
        compute_order_post(patch_spec(patch_spec(v, o1, c1, i_node, i_chan).0, o2, c2, i_node, i_chan).0, w, Ok(())),
    ensures
        ({
            let (v1, r1) = patch_spec(v, o1, c1, i_node, i_chan);
            let (v2, r2) = patch_spec(v1, o2, c2, i_node, i_chan);
            &&& r1 is Ok || r1 == Err::<(), Error>(Error::InputAlreadyPatched(i_node, i_chan))
            &&& r2 == Err::<(), Error>(Error::InputAlreadyPatched(i_node, i_chan))
            &&& v2.nodes[i_node as int].inputs[i_chan as int] == Some((o2, c2))
            &&& forall|a: int, b: int|
                0 <= a < w.order.len() && 0 <= b < w.order.len() && w.order[a] == o2 && w.order[b] == i_node ==> a < b
        }),
{
    let (v1, r1) = patch_spec(v, o1, c1, i_node, i_chan);
    let (v2, r2) = patch_spec(v1, o2, c2, i_node, i_chan);
    assert(v2.nodes[i_node as int].inputs[i_chan as int] == Some((o2, c2)));
    assert forall|a: int, b: int|
        0 <= a < w.order.len() && 0 <= b < w.order.len() && w.order[a] == o2 && w.order[b] == i_node implies a < b by {
        assert(bound_to(w.nodes, w.order[b] as int, i_chan as int, w.order[a] as int));
    }
}

/// On a graph without cycles, an unbound input makes `compute_order` fail with
/// `IncompleteGraph` naming a node with an unbound input; when only one node has unbound
/// inputs, that node is named, however many other nodes are fully wired.
pub proof fn lemma_unbound_input_fails(v: GraphView, w: GraphView, r: Result<(), Error>, x: NodeID)
    requires
        compute_order_post(v, w, r),
        !has_cycle(v.nodes),
        x < v.nodes.len(),
        !node_complete(v.nodes, x as int),
    ensures
        r matches Err(Error::IncompleteGraph(y)) && y < v.nodes.len() && !node_complete(v.nodes, y as int),
        (forall|y: int| 0 <= y < v.nodes.len() && y != x ==> #[trigger] node_complete(v.nodes, y))
            ==> r == Err::<(), Error>(Error::IncompleteGraph(x)),
{
    assert(!complete(v.nodes));
}

/// On a graph whose inputs are all bound, a cycle makes `compute_order` fail with `CycleDetected`.
pub proof fn lemma_cycle_fails(v: GraphView, w: GraphView, r: Result<(), Error>)
    requires
        compute_order_post(v, w, r),
        complete(v.nodes),
        has_cycle(v.nodes),
    ensures
        r == Err::<(), Error>(Error::CycleDetected),
{
}

/// A node with an input patched from one of its own outputs forms a cycle.
pub proof fn lemma_self_loop_is_cycle(v: Seq<NodeView>, x: NodeID, c: InputID)
    requires
        bound_to(v, x as int, c as int, x as int),
    ensures
        has_cycle(v),
{
    let p = seq![x, x];
    assert(is_walk(v, p)) by {
        assert(p[0] == x && p[1] == x);
    }
}

/// Calling `compute_order` twice with no change in between: the first success leaves the graph
/// clean, and the second call succeeds with the same order.
pub proof fn lemma_compute_order_idempotent(
    v: GraphView,
    w1: GraphView,
    r1: Result<(), Error>,
    w2: GraphView,
    r2: Result<(), Error>,
)
    requires
        compute_order_post(v, w1, r1),
        compute_order_post(w1, w2, r2),
        r1 is Ok,
    ensures
        !w1.dirty,
        r2 is Ok,
        !w2.dirty,
        w2.order == w1.order,
{
}

/// One operation on a graph, taking it from `v` to `w`. `id` is what the operation returned:
/// `Some` for `add_node`, `None` for `patch` and `compute_order`.
pub open spec fn graph_step(v: GraphView, w: GraphView, id: Option<NodeID>) -> bool {
    match id {
        Some(k) => k == v.nodes.len() && exists|a: nat, b: nat| w == #[trigger] add_node_spec(v, a, b),
        None => {
            ||| exists|o: NodeID, oc: OutputID, i: NodeID, ic: InputID| w == #[trigger] patch_spec(v, o, oc, i, ic).0
            ||| exists|r: Result<(), Error>| #[trigger] compute_order_post(v, w, r)
        },
    }
}

/// The number of `add_node` calls among the returned values `ids`.
pub open spec fn count_added(ids: Seq<Option<NodeID>>) -> nat
    decreases ids.len(),
{
    if ids.len() == 0 {
        0
    } else {
        count_added(ids.drop_last()) + if ids.last() is Some { 1nat } else { 0nat }
    }
}

/// Over any run of `add_node`, `patch` and `compute_order` calls, each `add_node` returns the
/// node count at the start plus the number of nodes added before it. From a new graph the ids
/// are therefore 0, 1, 2, ... in call order, and no id is returned twice.
pub proof fn lemma_ids_in_call_order_interleaved(trace: Seq<GraphView>, ids: Seq<Option<NodeID>>)
    requires
        trace.len() == ids.len() + 1,
        forall|i: int| 0 <= i < ids.len() ==> graph_step(trace[i], trace[i + 1], #[trigger] ids[i]),
    ensures
        forall|i: int| 0 <= i < trace.len() ==> #[trigger] trace[i].nodes.len() == trace[0].nodes.len() + count_added(ids.take(i)),
        forall|i: int| 0 <= i < ids.len() && ids[i] is Some
            ==> #[trigger] ids[i] == Some((trace[0].nodes.len() + count_added(ids.take(i))) as NodeID),
        forall|i: int, j: int| 0 <= i < j < ids.len() && ids[i] is Some && ids[j] is Some ==> #[trigger] ids[i] != #[trigger] ids[j],
    decreases ids.len(),
{
    if ids.len() > 0 {
        let m = ids.len() - 1;
        let t2 = trace.drop_last();
        let ids2 = ids.drop_last();
        assert forall|i: int| 0 <= i < ids2.len() implies graph_step(t2[i], t2[i + 1], #[trigger] ids2[i]) by {
            assert(graph_step(trace[i], trace[i + 1], ids[i]));
        }
        lemma_ids_in_call_order_interleaved(t2, ids2);
        assert(graph_step(trace[m], trace[m + 1], ids[m]));
        // The last step keeps the node count, or adds one node.
        match ids[m] {
            Some(k) => {
                let (a, b) = choose|a: nat, b: nat| trace[m + 1] == #[trigger] add_node_spec(trace[m], a, b);
                assert(trace[m + 1].nodes.len() == trace[m].nodes.len() + 1);
            },
            None => {
                if exists|o: NodeID, oc: OutputID, i: NodeID, ic: InputID| trace[m + 1] == #[trigger] patch_spec(trace[m], o, oc, i, ic).0 {
                    let (o, oc, i, ic) = choose|o: NodeID, oc: OutputID, i: NodeID, ic: InputID|
                        trace[m + 1] == #[trigger] patch_spec(trace[m], o, oc, i, ic).0;
                    assert(trace[m + 1].nodes.len() == trace[m].nodes.len());
                } else {
                    let r = choose|r: Result<(), Error>| #[trigger] compute_order_post(trace[m], trace[m + 1], r);
                    assert(trace[m + 1].nodes.len() == trace[m].nodes.len());
                }
            },
        }
        assert(ids.take(m + 1) =~= ids);
        assert forall|i: int| 0 <= i <= m implies #[trigger] ids.take(i) == ids2.take(i) by {
            assert(ids.take(i) =~= ids2.take(i));
        }
        assert(ids.take(m) =~= ids2);
        assert(ids.drop_last() =~= ids2);
        assert forall|i: int| 0 <= i < trace.len() implies #[trigger] trace[i].nodes.len() == trace[0].nodes.len() + count_added(ids.take(i)) by {
            if i <= m {
                assert(trace[i] == t2[i]);
            } else {
                assert(trace[m] == t2[m]);
                assert(ids2.take(m) =~= ids2);
                assert(t2[m].nodes.len() == t2[0].nodes.len() + count_added(ids2.take(m)));
                assert(count_added(ids) == count_added(ids2) + if ids[m] is Some { 1nat } else { 0nat });
            }
        }
        assert forall|i: int| 0 <= i < ids.len() && ids[i] is Some
            implies #[trigger] ids[i] == Some((trace[0].nodes.len() + count_added(ids.take(i))) as NodeID) by {
            if i < m {
                assert(ids[i] == ids2[i]);
            } else {
                assert(trace[m].nodes.len() == trace[0].nodes.len() + count_added(ids.take(m)));
            }
        }
        assert forall|i: int, j: int| 0 <= i < j < ids.len() && ids[i] is Some && ids[j] is Some implies #[trigger] ids[i] != #[trigger] ids[j] by {
            lemma_count_added_grows(ids, i, j);
        }
    }
}

proof fn lemma_count_added_grows(ids: Seq<Option<NodeID>>, i: int, j: int)
    requires
        0 <= i < j <= ids.len(),
        ids[i] is Some,
    ensures
        count_added(ids.take(i)) < count_added(ids.take(j)),
    decreases j - i,
{
    let t = ids.take(j);
    assert(t.drop_last() =~= ids.take(j - 1));
    if j - 1 > i {
        lemma_count_added_grows(ids, i, j - 1);
    } else {
        assert(t.last() == ids[i]);
    }
}

}
