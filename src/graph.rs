use vstd::prelude::*;

use crate::channel::{In, Out};

verus! {

/// A processing node of the pipeline, exchanging samples of type `S` with its neighbours.
///
/// Its arities are fixed for its whole life, and no channel is handed out at an index that is
/// not below the corresponding arity.
pub trait Node<S> {
    /// The number of input channels.
    spec fn arity_in(&self) -> nat;

    /// The number of output channels.
    spec fn arity_out(&self) -> nat;

    /// Prepare a new set of outputs from the last set of inputs provided.
    fn run(&mut self)
        ensures
            final(self).arity_in() == old(self).arity_in(),
            final(self).arity_out() == old(self).arity_out(),
    ;

    /// The number of input channels.
    fn num_inputs(&self) -> (n: usize)
        ensures
            n == self.arity_in(),
    ;

    /// Input channel `idx`, or `None` when there is no such input.
    fn get_input(&mut self, idx: usize) -> (c: Option<&mut dyn In<S>>)
        ensures
            final(self).arity_in() == old(self).arity_in(),
            final(self).arity_out() == old(self).arity_out(),
            c is Some ==> idx < old(self).arity_in(),
    ;

    /// The number of output channels.
    fn num_outputs(&self) -> (n: usize)
        ensures
            n == self.arity_out(),
    ;

    /// Output channel `idx`, or `None` when there is no such output.
    fn get_output(&self, idx: usize) -> (c: Option<&dyn Out<S>>)
        ensures
            c is Some ==> idx < self.arity_out(),
    ;
}

/// A descriptor used to refer to a node within a particular graph.
pub type NodeID = usize;

/// A descriptor used to refer to an output of a particular node.
pub type OutputID = usize;

/// A descriptor used to refer to an input of a particular node.
pub type InputID = usize;

/// An error manipulating a `Graph`.
#[derive(Debug, Clone, Copy, PartialEq, Eq, Structural)]
pub enum Error {
    /// The given `NodeID` doesn't refer to any node in this `Graph`.
    NoSuchNode(NodeID),
    /// The given `InputID` doesn't refer to any input channel of the node.
    NoSuchInput(NodeID, InputID),
    /// The given input already had an output plugged into it (the new patch is in effect).
    InputAlreadyPatched(NodeID, InputID),
    /// The given `OutputID` doesn't refer to any output channel of the node.
    NoSuchOutput(NodeID, OutputID),
    /// The node has an input without any output patched into it.
    IncompleteGraph(NodeID),
    /// There is a cycle in the graph.
    CycleDetected,
}

/// Shorthand for the standard `Result` type with a graph `Error` as the error type.
pub type Result<T> = core::result::Result<T, Error>;

/// What an input slot is bound to: the upstream node and its output channel.
pub type Binding = Option<(NodeID, OutputID)>;

/// The abstract state of one node: its input bindings and its output arity.
pub struct NodeView {
    pub inputs: Seq<Binding>,
    pub num_outputs: nat,
}

/// The abstract state of a graph.
pub struct GraphView {
    pub nodes: Seq<NodeView>,
    pub order: Seq<NodeID>,
    pub dirty: bool,
}

// The wiring of one node: the mapping from the outputs of other nodes to its inputs.
struct NodeWrapper {
    // Indexed by InputID; `None` means that nothing has been patched in yet.
    inputs: Vec<Binding>,
    // The output arity, read once when the node is added.
    num_outputs: usize,
}

/// A complete audio pipeline: a directed multi-graph that must be acyclic to be run.
#[verifier::reject_recursive_types(S)]
pub struct Graph<S> {
    // The nodes themselves, indexed by NodeID; the graph is their only owner.
    owned: Vec<Box<dyn Node<S>>>,
    // The wiring of each node, indexed by NodeID.
    nodes: Vec<NodeWrapper>,
    // NodeIDs in dependency order; valid only while `dirty` is false.
    order: Vec<NodeID>,
    dirty: bool,
}

/// Input `c` of node `x` is bound to some output of node `y`.
pub open spec fn bound_to(v: Seq<NodeView>, x: int, c: int, y: int) -> bool {
    &&& 0 <= x < v.len()
    &&& 0 <= c < v[x].inputs.len()
    &&& v[x].inputs[c] is Some
    &&& upstream(v[x].inputs[c]) == y
}

/// The upstream node of a binding.
pub open spec fn upstream(b: Binding) -> int {
    match b {
        Some((y, _)) => y as int,
        None => -1,
    }
}

/// Node `x` depends on node `y`: some input of `x` is bound to an output of `y`.
pub open spec fn depends_on(v: Seq<NodeView>, x: int, y: int) -> bool {
    exists|c: int| #[trigger] bound_to(v, x, c, y)
}

/// Every input of node `x` is bound.
pub open spec fn node_complete(v: Seq<NodeView>, x: int) -> bool {
    forall|c: int| 0 <= c < v[x].inputs.len() ==> (#[trigger] v[x].inputs[c]) is Some
}

/// Every input of every node is bound.
pub open spec fn complete(v: Seq<NodeView>) -> bool {
    forall|x: int| 0 <= x < v.len() ==> #[trigger] node_complete(v, x)
}

/// `p` is a walk along dependencies: each node depends on the next one.
pub open spec fn is_walk(v: Seq<NodeView>, p: Seq<NodeID>) -> bool {
    &&& p.len() >= 1
    &&& forall|i: int| 0 <= i < p.len() ==> #[trigger] p[i] < v.len()
    &&& forall|i: int| 0 <= i < p.len() - 1 ==> #[trigger] depends_on(v, p[i] as int, p[i + 1] as int)
}

/// Some node depends, directly or transitively, on itself.
pub open spec fn has_cycle(v: Seq<NodeView>) -> bool {
    exists|p: Seq<NodeID>| #[trigger] is_walk(v, p) && p.len() >= 2 && p[0] == p[p.len() - 1]
}

/// `order` lists every node exactly once, and each node comes after every node it depends on.
pub open spec fn is_topological_order(v: Seq<NodeView>, order: Seq<NodeID>) -> bool {
    &&& forall|k: NodeID| k < v.len() ==> #[trigger] order.contains(k)
    &&& order.no_duplicates()
    &&& forall|i: int| 0 <= i < order.len() ==> #[trigger] order[i] < v.len()
    &&& forall|i: int, j: int, c: int|
        0 <= i < order.len() && 0 <= j < order.len() && #[trigger] bound_to(v, order[i] as int, c, order[j] as int)
            ==> j < i
}

/// Every bound input refers to an existing node and one of its outputs.
pub open spec fn wiring_valid(v: Seq<NodeView>) -> bool {
    forall|x: int, c: int|
        0 <= x < v.len() && 0 <= c < v[x].inputs.len() && (#[trigger] v[x].inputs[c]) is Some ==> {
            let (y, o) = v[x].inputs[c]->0;
            y < v.len() && o < v[y as int].num_outputs
        }
}

/// What `compute_order` guarantees, relating the graph before (`v`) and after (`w`) the call.
///
/// It succeeds exactly when every input is bound and there is no cycle; on success the cached
/// order is a valid execution order, the graph is clean, and a clean graph keeps its order.
/// On failure nothing changes, and the error names a node with an unbound input or reports a cycle.
/// Outcome and order are those of the depth-first traversal `dfs_result`.
pub open spec fn compute_order_post(v: GraphView, w: GraphView, r: Result<()>) -> bool {
    &&& w.nodes == v.nodes
    &&& (r is Ok <==> complete(v.nodes) && !has_cycle(v.nodes))
    &&& r is Ok ==> !w.dirty && is_topological_order(w.nodes, w.order) && (!v.dirty ==> w.order == v.order)
    &&& r is Err ==> w == v
    &&& r == dfs_result(v.nodes).0
    &&& r is Ok ==> w.order == dfs_result(v.nodes).1
    &&& match r {
        Ok(_) => true,
        Err(Error::IncompleteGraph(x)) => x < v.nodes.len() && !node_complete(v.nodes, x as int),
        Err(Error::CycleDetected) => has_cycle(v.nodes),
        Err(_) => false,
    }
}

/// The order `a` is `b` followed by zero or more further nodes.
spec fn extends(a: Seq<NodeID>, b: Seq<NodeID>) -> bool {
    &&& b.len() <= a.len()
    &&& forall|i: int| 0 <= i < b.len() ==> #[trigger] a[i] == b[i]
}

/// Node `x` depends, directly or transitively, on node `y`, or is `y`.
pub open spec fn reaches(v: Seq<NodeView>, x: NodeID, y: NodeID) -> bool {
    exists|p: Seq<NodeID>| #[trigger] is_walk(v, p) && p[0] == x && p[p.len() - 1] == y
}

/// A walk from `y` extends to one from `x` when `x` depends on `y`.
proof fn lemma_reaches_prepend(v: Seq<NodeView>, x: NodeID, y: NodeID, z: NodeID)
    requires
        x < v.len(),
        depends_on(v, x as int, y as int),
        reaches(v, y, z),
    ensures
        reaches(v, x, z),
{
    let p = choose|p: Seq<NodeID>| #[trigger] is_walk(v, p) && p[0] == y && p[p.len() - 1] == z;
    let q = seq![x] + p;
    assert(is_walk(v, q)) by {
        assert forall|i: int| 0 <= i < q.len() implies #[trigger] q[i] < v.len() by {
            if i > 0 {
                assert(q[i] == p[i - 1]);
            }
        }
        assert forall|i: int| 0 <= i < q.len() - 1 implies #[trigger] depends_on(v, q[i] as int, q[i + 1] as int) by {
            if i > 0 {
                let j = i - 1;
                assert(q[i] == p[j] && q[i + 1] == p[j + 1]);
                assert(depends_on(v, p[j] as int, p[j + 1] as int));
            } else {
                assert(q[1] == p[0]);
            }
        }
    }
    assert(q[0] == x && q[q.len() - 1] == z);
}

/// The number of unset flags in `s`.
pub open spec fn count_unset(s: Seq<bool>) -> nat
    decreases s.len(),
{
    if s.len() == 0 {
        0
    } else {
        count_unset(s.drop_last()) + if s.last() { 0nat } else { 1nat }
    }
}

proof fn lemma_count_unset_set(s: Seq<bool>, i: int)
    requires
        0 <= i < s.len(),
        !s[i],
    ensures
        count_unset(s.update(i, true)) + 1 == count_unset(s),
    decreases s.len(),
{
    let t = s.update(i, true);
    if i < s.len() - 1 {
        assert(t.drop_last() =~= s.drop_last().update(i, true));
        lemma_count_unset_set(s.drop_last(), i);
    } else {
        assert(t.drop_last() =~= s.drop_last());
    }
}

/// Depth-first visit of node `id`, as `compute_order` performs it: `marked` flags the finished
/// nodes, `on_stack` the nodes on the current path, and `order` lists the finished nodes in
/// post-order. Gives the outcome and the new `marked` and `order`.
pub open spec fn dfs_visit(v: Seq<NodeView>, marked: Seq<bool>, on_stack: Seq<bool>, order: Seq<NodeID>, id: NodeID)
    -> (Result<()>, Seq<bool>, Seq<NodeID>)
    decreases count_unset(on_stack), 0nat via dfs_visit_decreases
{
    if id >= v.len() || id >= on_stack.len() || id >= marked.len() {
        (Ok(()), marked, order)
    } else if on_stack[id as int] {
        (Err(Error::CycleDetected), marked, order)
    } else if marked[id as int] {
        (Ok(()), marked, order)
    } else {
        dfs_inputs(v, marked, on_stack.update(id as int, true), order, id, 0)
    }
}

#[via_fn]
proof fn dfs_visit_decreases(v: Seq<NodeView>, marked: Seq<bool>, on_stack: Seq<bool>, order: Seq<NodeID>, id: NodeID) {
    if id < v.len() && id < on_stack.len() && id < marked.len() && !on_stack[id as int] {
        lemma_count_unset_set(on_stack, id as int);
    }
}

/// The visit of node `id` from its input `c` on; `on_stack` already holds `id`.
pub open spec fn dfs_inputs(v: Seq<NodeView>, marked: Seq<bool>, on_stack: Seq<bool>, order: Seq<NodeID>, id: NodeID, c: nat)
    -> (Result<()>, Seq<bool>, Seq<NodeID>)
    decreases count_unset(on_stack), 1 + v[id as int].inputs.len() - c,
    when id < v.len() && c <= v[id as int].inputs.len()
{
    if c == v[id as int].inputs.len() {
        (Ok(()), marked.update(id as int, true), order.push(id))
    } else {
        match v[id as int].inputs[c as int] {
            None => (Err(Error::IncompleteGraph(id)), marked, order),
            Some((up, _)) => {
                let (r, m, o) = dfs_visit(v, marked, on_stack, order, up);
                if r is Err {
                    (r, m, o)
                } else {
                    dfs_inputs(v, m, on_stack, o, id, c + 1)
                }
            },
        }
    }
}

/// The traversal of `compute_order` from node `id` on: each node not yet finished is visited
/// in increasing id order, and the first error ends it.
pub open spec fn dfs_from(v: Seq<NodeView>, marked: Seq<bool>, order: Seq<NodeID>, id: nat)
    -> (Result<()>, Seq<bool>, Seq<NodeID>)
    decreases v.len() - id,
{
    if id >= v.len() {
        (Ok(()), marked, order)
    } else if id < marked.len() && marked[id as int] {
        dfs_from(v, marked, order, id + 1)
    } else {
        let (r, m, o) = dfs_visit(v, marked, Seq::new(v.len(), |i: int| false), order, id as NodeID);
        if r is Err {
            (r, m, o)
        } else {
            dfs_from(v, m, o, id + 1)
        }
    }
}

/// The outcome of a full traversal, and on success the execution order: the depth-first
/// post-order of the nodes, started from each node in increasing id order.
pub open spec fn dfs_result(v: Seq<NodeView>) -> (Result<()>, Seq<NodeID>) {
    let (r, m, o) = dfs_from(v, Seq::new(v.len(), |i: int| false), Seq::empty(), 0);
    (r, o)
}

/// The traversal state: `order` is a dependency-closed, topologically sorted list of finished
/// nodes, and `marked` flags exactly those nodes.
spec fn dfs_state(v: Seq<NodeView>, order: Seq<NodeID>, marked: Seq<bool>) -> bool {
    &&& marked.len() == v.len()
    &&& order.no_duplicates()
    &&& forall|i: int| 0 <= i < order.len() ==> #[trigger] order[i] < v.len()
    &&& forall|k: NodeID|
        #![trigger order.contains(k)]
        #![trigger marked[k as int]]
        k < v.len() ==> (marked[k as int] <==> order.contains(k))
    &&& forall|i: int| 0 <= i < order.len() ==> node_complete(v, #[trigger] order[i] as int)
    &&& forall|i: int, c: int, y: int| 0 <= i < order.len() && #[trigger] bound_to(v, order[i] as int, c, y) ==> marked[y]
    &&& forall|i: int, j: int, c: int|
        0 <= i < order.len() && 0 <= j < order.len() && #[trigger] bound_to(v, order[i] as int, c, order[j] as int)
            ==> j < i
}

/// `path` is the current recursion stack of the traversal, and `on_stack` flags exactly its nodes.
spec fn stack_state(v: Seq<NodeView>, path: Seq<NodeID>, on_stack: Seq<bool>, marked: Seq<bool>) -> bool {
    &&& on_stack.len() == v.len()
    &&& path.no_duplicates()
    &&& forall|i: int| 0 <= i < path.len() ==> #[trigger] path[i] < v.len()
    &&& forall|k: NodeID|
        #![trigger path.contains(k)]
        #![trigger on_stack[k as int]]
        k < v.len() ==> (on_stack[k as int] <==> path.contains(k))
    &&& forall|k: int| 0 <= k < v.len() && #[trigger] on_stack[k] ==> !marked[k]
    &&& path.len() > 0 ==> is_walk(v, path)
}

proof fn lemma_distinct_bounded(s: Seq<NodeID>, n: int)
    requires
        0 <= n,
        s.no_duplicates(),
        forall|i: int| 0 <= i < s.len() ==> #[trigger] s[i] < n,
    ensures
        s.len() <= n,
{
    let t = s.map_values(|x: NodeID| x as int);
    assert(t.no_duplicates()) by {
        assert forall|i: int, j: int| 0 <= i < t.len() && 0 <= j < t.len() && i != j implies t[i] != t[j] by {
            assert(s[i] != s[j]);
        }
    }
    t.unique_seq_to_set();
    vstd::set_lib::lemma_int_range(0, n);
    assert(t.to_set().subset_of(vstd::set_lib::set_int_range(0, n))) by {
        assert forall|x: int| t.to_set().contains(x) implies vstd::set_lib::set_int_range(0, n).contains(x) by {
            let i = choose|i: int| 0 <= i < t.len() && t[i] == x;
            assert(s[i] < n);
        }
    }
    vstd::set_lib::lemma_len_subset(t.to_set(), vstd::set_lib::set_int_range(0, n));
}

/// Along a walk, positions in a topological order strictly decrease.
proof fn lemma_walk_descends(v: Seq<NodeView>, order: Seq<NodeID>, p: Seq<NodeID>)
    requires
        is_topological_order(v, order),
        is_walk(v, p),
        p.len() >= 2,
    ensures
        forall|a: int, b: int|
            0 <= a < order.len() && 0 <= b < order.len() && order[a] == p[0] && order[b] == p[p.len() - 1] ==> b < a,
    decreases p.len(),
{
    let l = p.len() as int;
    assert(p[l - 2] < v.len());
    assert(order.contains(p[l - 2] as int as NodeID));
    let m = choose|m: int| 0 <= m < order.len() && order[m] == p[l - 2];
    let i = l - 2;
    assert(depends_on(v, p[i] as int, p[i + 1] as int));
    let c = choose|c: int| #[trigger] bound_to(v, p[l - 2] as int, c, p[l - 1] as int);
    if l > 2 {
        let q = p.subrange(0, l - 1);
        assert(is_walk(v, q)) by {
            assert forall|i: int| 0 <= i < q.len() - 1 implies #[trigger] depends_on(v, q[i] as int, q[i + 1] as int) by {
                assert(depends_on(v, p[i] as int, p[i + 1] as int));
            }
        }
        lemma_walk_descends(v, order, q);
    }
    assert forall|a: int, b: int|
        0 <= a < order.len() && 0 <= b < order.len() && order[a] == p[0] && order[b] == p[l - 1] implies b < a by {
        assert(bound_to(v, order[m] as int, c, order[b] as int));
        if l > 2 {
            assert(order[m] == p.subrange(0, l - 1)[l - 2]);
        }
    }
}

/// A graph with a topological order has no cycle.
proof fn lemma_ordered_acyclic(v: Seq<NodeView>, order: Seq<NodeID>)
    requires
        is_topological_order(v, order),
    ensures
        !has_cycle(v),
{
    if has_cycle(v) {
        let p = choose|p: Seq<NodeID>| #[trigger] is_walk(v, p) && p.len() >= 2 && p[0] == p[p.len() - 1];
        lemma_walk_descends(v, order, p);
        assert(p[0] < v.len());
        assert(order.contains(p[0] as int as NodeID));
        let a = choose|a: int| 0 <= a < order.len() && order[a] == p[0];
        assert(order[a] == p[p.len() - 1]);
    }
}

/// The graph after adding a node with `n_in` unbound inputs and `n_out` outputs.
pub open spec fn add_node_spec(v: GraphView, n_in: nat, n_out: nat) -> GraphView {
    GraphView {
        nodes: v.nodes.push(NodeView { inputs: Seq::new(n_in, |i: int| None), num_outputs: n_out }),
        order: v.order,
        dirty: true,
    }
}

/// The outcome of patching output `o_chan` of `o_node` into input `i_chan` of `i_node`.
pub open spec fn patch_spec(v: GraphView, o_node: NodeID, o_chan: OutputID, i_node: NodeID, i_chan: InputID)
    -> (GraphView, Result<()>)
{
    if o_node >= v.nodes.len() {
        (v, Err(Error::NoSuchNode(o_node)))
    } else if o_chan >= v.nodes[o_node as int].num_outputs {
        (v, Err(Error::NoSuchOutput(o_node, o_chan)))
    } else if i_node >= v.nodes.len() {
        (v, Err(Error::NoSuchNode(i_node)))
    } else if i_chan >= v.nodes[i_node as int].inputs.len() {
        (v, Err(Error::NoSuchInput(i_node, i_chan)))
    } else {
        let node = v.nodes[i_node as int];
        let patched = NodeView { inputs: node.inputs.update(i_chan as int, Some((o_node, o_chan))), ..node };
        let w = GraphView { nodes: v.nodes.update(i_node as int, patched), order: v.order, dirty: true };
        if node.inputs[i_chan as int] is Some {
            (w, Err(Error::InputAlreadyPatched(i_node, i_chan)))
        } else {
            (w, Ok(()))
        }
    }
}

// Moves a node onto the heap behind the `Node` interface.
fn boxed<S: 'static, N: Node<S> + 'static>(n: N) -> Box<dyn Node<S>> {
    Box::new(n)
}

// A row of `n` input slots, none of them bound.
fn unbound_inputs(n: usize) -> (inputs: Vec<Binding>)
    ensures
        inputs@ == Seq::new(n as nat, |i: int| None::<(NodeID, OutputID)>),
{
    let mut inputs: Vec<Binding> = Vec::new();
    let mut k: usize = 0;
    while k < n
        invariant
            k <= n,
            inputs@ == Seq::new(k as nat, |i: int| None::<(NodeID, OutputID)>),
        decreases n - k,
    {
        inputs.push(None);
        k = k + 1;
        assert(inputs@ =~= Seq::new(k as nat, |i: int| None::<(NodeID, OutputID)>));
    }
    inputs
}

impl<S: 'static> Graph<S> {
    /// The abstract state of the graph.
    pub closed spec fn view(&self) -> GraphView {
        GraphView {
            nodes: self.nodes@.map_values(|w: NodeWrapper| NodeView { inputs: w.inputs@, num_outputs: w.num_outputs as nat }),
            order: self.order@,
            dirty: self.dirty,
        }
    }

    /// The nodes the graph owns, indexed by NodeID.
    pub closed spec fn nodes_held(&self) -> Seq<Box<dyn Node<S>>> {
        self.owned@
    }

    /// Every binding refers to an existing output, and while the graph is not dirty every input
    /// is bound and the cached order is a valid execution order.
    pub open spec fn wf(&self) -> bool {
        &&& wiring_valid(self.view().nodes)
        &&& !self.view().dirty ==> complete(self.view().nodes) && is_topological_order(self.view().nodes, self.view().order)
        &&& !self.view().dirty ==> dfs_result(self.view().nodes) == (Ok::<(), Error>(()), self.view().order)
    }

    /// Create a `Graph` without any `Node`s.
    pub fn new() -> (g: Graph<S>)
        ensures
            g.wf(),
            g.view().nodes.len() == 0,
            g.view().order.len() == 0,
            !g.view().dirty,
    {
        Graph { owned: Vec::new(), nodes: Vec::new(), order: Vec::new(), dirty: false }
    }

    /// Add a node to the `Graph` and return an id to refer to it by.
    pub fn add_node<N: Node<S> + 'static>(&mut self, n: N) -> (id: NodeID)
        requires
            old(self).wf(),
        ensures
            final(self).wf(),
            id == old(self).view().nodes.len(),
            final(self).view() == add_node_spec(old(self).view(), n.arity_in(), n.arity_out()),
    {
        let n_in = n.num_inputs();
        let n_out = n.num_outputs();
        let inputs = unbound_inputs(n_in);
        let id = self.nodes.len();
        let ghost fresh = inputs@;
        self.owned.push(boxed(n));
        self.nodes.push(NodeWrapper { inputs, num_outputs: n_out });
        // The order is no longer valid, since a new node has been added.
        self.dirty = true;
        assert(self.view().nodes =~= add_node_spec(old(self).view(), n_in as nat, n_out as nat).nodes) by {
            assert(self.view().nodes[id as int].inputs == fresh);
            assert(self.view().nodes.len() == old(self).view().nodes.len() + 1);
        }
        id
    }

    /// Patch output `o_chan` of node `o_node` into input `i_chan` of node `i_node`.
    ///
    /// `Error::InputAlreadyPatched` reports that the input was bound before; the new patch
    /// replaces the old one all the same.
    pub fn patch(&mut self, o_node: NodeID, o_chan: OutputID, i_node: NodeID, i_chan: InputID) -> (r: Result<()>)
        requires
            old(self).wf(),
        ensures
            final(self).wf(),
            (final(self).view(), r) == patch_spec(old(self).view(), o_node, o_chan, i_node, i_chan),
            final(self).nodes_held() == old(self).nodes_held(),
    {
        if o_node >= self.nodes.len() {
            return Err(Error::NoSuchNode(o_node));
        }
        if o_chan >= self.nodes[o_node].num_outputs {
            return Err(Error::NoSuchOutput(o_node, o_chan));
        }
        if i_node >= self.nodes.len() {
            return Err(Error::NoSuchNode(i_node));
        }
        if i_chan >= self.nodes[i_node].inputs.len() {
            return Err(Error::NoSuchInput(i_node, i_chan));
        }
        let old_binding = self.nodes[i_node].inputs[i_chan];
        self.nodes[i_node].inputs[i_chan] = Some((o_node, o_chan));
        self.dirty = true;
        proof {
            let w = patch_spec(old(self).view(), o_node, o_chan, i_node, i_chan).0;
            assert(self.view().nodes =~= w.nodes);
        }
        match old_binding {
            Some(_) => Err(Error::InputAlreadyPatched(i_node, i_chan)),
            None => Ok(()),
        }
    }

    /// The number of nodes in the graph.
    pub fn num_nodes(&self) -> (n: usize)
        ensures
            n == self.view().nodes.len(),
    {
        self.nodes.len()
    }

    /// The cached execution order; valid only while the graph is not dirty.
    pub fn order(&self) -> (o: &[NodeID])
        ensures
            o@ == self.view().order,
    {
        self.order.as_slice()
    }

    /// Whether the graph changed since the order was last computed.
    pub fn is_dirty(&self) -> (d: bool)
        ensures
            d == self.view().dirty,
    {
        self.dirty
    }

    /// The output patched into input `i_chan` of `i_node`, if the input exists and is bound.
    pub fn binding(&self, i_node: NodeID, i_chan: InputID) -> (b: Binding)
        ensures
            b == (if i_node < self.view().nodes.len() && i_chan < self.view().nodes[i_node as int].inputs.len() {
                self.view().nodes[i_node as int].inputs[i_chan as int]
            } else {
                None
            }),
    {
        if i_node < self.nodes.len() && i_chan < self.nodes[i_node].inputs.len() {
            self.nodes[i_node].inputs[i_chan]
        } else {
            None
        }
    }

    /// Compute the order in which the nodes are to be run, so that every node runs after the
    /// nodes it depends on. A clean graph keeps its cached order.
    pub fn compute_order(&mut self) -> (r: Result<()>)
        requires
            old(self).wf(),
        ensures
            final(self).wf(),
            compute_order_post(old(self).view(), final(self).view(), r),
            final(self).nodes_held() == old(self).nodes_held(),
    {
        if !self.dirty {
            proof {
                lemma_ordered_acyclic(self.view().nodes, self.view().order);
            }
            return Ok(());
        }
        let n = self.nodes.len();
        let mut marked: Vec<bool> = Vec::new();
        let mut on_stack: Vec<bool> = Vec::new();
        let mut k: usize = 0;
        while k < n
            invariant
                k <= n,
                marked@ == Seq::new(k as nat, |i: int| false),
                on_stack@ == Seq::new(k as nat, |i: int| false),
            decreases n - k,
        {
            marked.push(false);
            on_stack.push(false);
            k = k + 1;
            assert(marked@ =~= Seq::new(k as nat, |i: int| false));
            assert(on_stack@ =~= Seq::new(k as nat, |i: int| false));
        }
        let mut order: Vec<NodeID> = Vec::new();
        assert(stack_state(self.view().nodes, Seq::empty(), on_stack@, marked@));
        let mut id: usize = 0;
        while id < n
            invariant
                self.wf(),
                self.view() == old(self).view(),
                n == self.view().nodes.len(),
                id <= n,
                dfs_state(self.view().nodes, order@, marked@),
                stack_state(self.view().nodes, Seq::empty(), on_stack@, marked@),
                forall|k: int| 0 <= k < id ==> #[trigger] marked@[k],
                on_stack@ == Seq::new(n as nat, |i: int| false),
                dfs_from(self.view().nodes, Seq::new(n as nat, |i: int| false), Seq::empty(), 0)
                    == dfs_from(self.view().nodes, marked@, order@, id as nat),
            decreases n - id,
        {
            if !marked[id] {
                let res = self.visit(&mut marked, &mut on_stack, &mut order, id, Ghost(Seq::empty()));
                if res.is_err() {
                    return res;
                }
            }
            id = id + 1;
        }
        proof {
            let v = self.view().nodes;
            assert forall|x: NodeID| x < v.len() implies #[trigger] order@.contains(x) by {
                assert(marked@[x as int]);
            }
            assert forall|x: int| 0 <= x < v.len() implies #[trigger] node_complete(v, x) by {
                assert(marked@[x]);
                assert(order@.contains(x as NodeID));
                let i = choose|i: int| 0 <= i < order@.len() && order@[i] == x as NodeID;
                assert(node_complete(v, order@[i] as int));
            }
            assert(is_topological_order(v, order@));
            lemma_ordered_acyclic(v, order@);
        }
        let ghost v0 = self.view().nodes;
        let ghost ord = order@;
        self.order = order;
        self.dirty = false;
        proof {
            let w = self.view().nodes;
            assert(w == v0);
            assert(self.view().order == ord);
            assert forall|i: int, j: int, c: int|
                0 <= i < ord.len() && 0 <= j < ord.len() && #[trigger] bound_to(w, ord[i] as int, c, ord[j] as int)
                implies j < i by {
                assert(bound_to(v0, ord[i] as int, c, ord[j] as int));
            }
            assert(is_topological_order(w, self.view().order));
            assert(complete(w)) by {
                assert forall|x: int| 0 <= x < w.len() implies #[trigger] node_complete(w, x) by {
                    assert(node_complete(v0, x));
                }
            }
        }
        Ok(())
    }

    // Depth-first visit of `id`: on success every node that `id` depends on, and `id` itself,
    // has been appended to `order` after the nodes it depends on.
    fn visit(
        &self,
        marked: &mut Vec<bool>,
        on_stack: &mut Vec<bool>,
        order: &mut Vec<NodeID>,
        id: NodeID,
        Ghost(path): Ghost<Seq<NodeID>>,
    ) -> (r: Result<()>)
        requires
            self.wf(),
            id < self.view().nodes.len(),
            dfs_state(self.view().nodes, old(order)@, old(marked)@),
            stack_state(self.view().nodes, path, old(on_stack)@, old(marked)@),
            path.len() > 0 ==> depends_on(self.view().nodes, path[path.len() - 1] as int, id as int),
        ensures
            (r, final(marked)@, final(order)@) == dfs_visit(self.view().nodes, old(marked)@, old(on_stack)@, old(order)@, id),
            final(on_stack)@ == old(on_stack)@,
            extends(final(order)@, old(order)@),
            final(marked)@.len() == old(marked)@.len(),
            forall|k: int| 0 <= k < old(marked)@.len() && old(marked)@[k] ==> #[trigger] final(marked)@[k],
            old(on_stack)@[id as int] ==> r == Err::<(), Error>(Error::CycleDetected),
            old(on_stack)@[id as int] || old(marked)@[id as int] ==> final(order)@ == old(order)@ && final(marked)@ == old(marked)@,
            !old(on_stack)@[id as int] && old(marked)@[id as int] ==> r is Ok,
            match r {
                Ok(_) => {
                    &&& dfs_state(self.view().nodes, final(order)@, final(marked)@)
                    &&& stack_state(self.view().nodes, path, final(on_stack)@, final(marked)@)
                    &&& final(marked)@[id as int]
                },
                Err(Error::IncompleteGraph(x)) => {
                    &&& x < self.view().nodes.len()
                    &&& !node_complete(self.view().nodes, x as int)
                    &&& reaches(self.view().nodes, id, x)
                },
                Err(Error::CycleDetected) => has_cycle(self.view().nodes),
                Err(_) => false,
            },
        decreases self.view().nodes.len() - path.len(),
    {
        let ghost v = self.view().nodes;
        if on_stack[id] {
            proof {
                assert(path.contains(id));
                let k = choose|k: int| 0 <= k < path.len() && path[k] == id;
                let p = path.subrange(k, path.len() as int).push(id);
                assert(is_walk(v, p)) by {
                    assert forall|i: int| 0 <= i < p.len() - 1 implies #[trigger] depends_on(v, p[i] as int, p[i + 1] as int) by {
                        if i < p.len() - 2 {
                            let j = k + i;
                            assert(depends_on(v, path[j] as int, path[j + 1] as int));
                        }
                    }
                }
                assert(p[0] == p[p.len() - 1]);
            }
            return Err(Error::CycleDetected);
        }
        if marked[id] {
            return Ok(());
        }
        let ghost path2 = path.push(id);
        proof {
            assert(!path.contains(id));
            assert(path2.no_duplicates()) by {
                assert forall|i: int, j: int| 0 <= i < path2.len() && 0 <= j < path2.len() && i != j implies path2[i] != path2[j] by {
                    if i < path.len() && j < path.len() {
                        assert(path[i] != path[j]);
                    } else if i < path.len() {
                        assert(path[i] != id);
                    } else if j < path.len() {
                        assert(path[j] != id);
                    }
                }
            }
            lemma_distinct_bounded(path2, v.len() as int);
        }
        let ghost stack0 = on_stack@;
        let ghost marked0 = marked@;
        let ghost order_start = order@;
        on_stack.set(id, true);
        assert(stack_state(v, path2, on_stack@, marked@)) by {
            assert forall|k: NodeID| k < v.len() implies (on_stack@[k as int] <==> #[trigger] path2.contains(k)) by {
                if path2.contains(k) {
                    let j = choose|j: int| 0 <= j < path2.len() && path2[j] == k;
                    if j < path.len() {
                        assert(path.contains(k));
                    }
                }
                if path.contains(k) {
                    let j = choose|j: int| 0 <= j < path.len() && path[j] == k;
                    assert(path2[j] == k);
                }
                if k == id {
                    assert(path2[path.len() as int] == k);
                }
            }
            assert forall|i: int| 0 <= i < path2.len() - 1 implies #[trigger] depends_on(v, path2[i] as int, path2[i + 1] as int) by {
                if i < path.len() - 1 {
                    assert(depends_on(v, path[i] as int, path[i + 1] as int));
                }
            }
        }
        let n_in = self.nodes[id].inputs.len();
        let mut c: usize = 0;
        while c < n_in
            invariant
                self.wf(),
                v == self.view().nodes,
                id < v.len(),
                n_in == v[id as int].inputs.len(),
                c <= n_in,
                dfs_state(v, order@, marked@),
                stack_state(v, path2, on_stack@, marked@),
                path2 == path.push(id),
                path2.len() <= v.len(),
                stack0.len() == v.len(),
                marked0.len() == v.len(),
                marked@.len() == v.len(),
                !stack0[id as int],
                !marked0[id as int],
                stack0 == old(on_stack)@,
                marked0 == old(marked)@,
                order_start == old(order)@,
                extends(order@, order_start),
                dfs_visit(v, marked0, stack0, order_start, id) == dfs_inputs(v, marked@, stack0.update(id as int, true), order@, id, c as nat),
                on_stack@ == stack0.update(id as int, true),
                forall|k: int| 0 <= k < marked0.len() && marked0[k] ==> #[trigger] marked@[k],
                forall|j: int| 0 <= j < c ==> (#[trigger] v[id as int].inputs[j]) is Some,
                forall|j: int, y: int| 0 <= j < c && #[trigger] bound_to(v, id as int, j, y) ==> marked@[y],
            decreases n_in - c,
        {
            match self.nodes[id].inputs[c] {
                None => {
                    on_stack.set(id, false);
                    proof {
                        assert(on_stack@ =~= stack0);
                        let w = seq![id];
                        assert(is_walk(v, w));
                        assert(reaches(v, id, id));
                    }
                    return Err(Error::IncompleteGraph(id));
                },
                Some((up, _)) => {
                    assert(bound_to(v, id as int, c as int, up as int));
                    assert(v[id as int].inputs[c as int] is Some);
                    assert(path2[path2.len() - 1] == id);
                    assert(depends_on(v, id as int, up as int));
                    let res = self.visit(marked, on_stack, order, up, Ghost(path2));
                    if res.is_err() {
                        on_stack.set(id, false);
                        proof {
                            assert(on_stack@ =~= stack0);
                            if let Err(Error::IncompleteGraph(x)) = res {
                                lemma_reaches_prepend(v, id, up, x);
                            }
                        }
                        return res;
                    }
                    assert forall|j: int, y: int| 0 <= j <= c && #[trigger] bound_to(v, id as int, j, y) implies marked@[y] by {
                        if j == c {
                            assert(y == up);
                        }
                    }
                },
            }
            c = c + 1;
        }
        let ghost order0 = order@;
        assert(on_stack@[id as int]);
        assert(!marked@[id as int]);
        on_stack.set(id, false);
        marked.set(id, true);
        order.push(id);
        proof {
            assert(on_stack@ =~= stack0);
            assert(!order0.contains(id));
            assert forall|k: NodeID| k < v.len() implies (marked@[k as int] <==> #[trigger] order@.contains(k)) by {
                if order@.contains(k) {
                    let j = choose|j: int| 0 <= j < order@.len() && order@[j] == k;
                    if j < order0.len() {
                        assert(order0.contains(k));
                    }
                }
                if k != id && order0.contains(k) {
                    let j = choose|j: int| 0 <= j < order0.len() && order0[j] == k;
                    assert(order@[j] == k);
                }
                if k == id {
                    assert(order@[order0.len() as int] == k);
                }
            }
            assert forall|i: int| 0 <= i < order@.len() implies node_complete(v, #[trigger] order@[i] as int) by {
                if i < order0.len() {
                    assert(order@[i] == order0[i]);
                }
            }
            assert forall|i: int, c2: int, y: int| 0 <= i < order@.len() && #[trigger] bound_to(v, order@[i] as int, c2, y) implies marked@[y] by {
                if i < order0.len() {
                    assert(order@[i] == order0[i]);
                    assert(bound_to(v, order0[i] as int, c2, y));
                }
            }
            assert forall|i: int, j: int, c2: int|
                0 <= i < order@.len() && 0 <= j < order@.len() && #[trigger] bound_to(v, order@[i] as int, c2, order@[j] as int)
                implies j < i by {
                if i < order0.len() {
                    assert(order@[i] == order0[i]);
                    if j < order0.len() {
                        assert(order@[j] == order0[j]);
                        assert(bound_to(v, order0[i] as int, c2, order0[j] as int));
                    } else {
                        assert(bound_to(v, order0[i] as int, c2, id as int));
                        assert(marked0.len() == v.len());
                    }
                } else if j == i {
                    assert(bound_to(v, id as int, c2, id as int));
                }
            }
            assert(stack_state(v, path, on_stack@, marked@));
        }
        Ok(())
    }
}

}
