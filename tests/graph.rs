use gyroscope::blank::Blank;
use gyroscope::constant::Constant;
use gyroscope::graph::{Error, Graph, Node};

fn stub(inputs: usize, outputs: usize) -> Blank {
    Blank { inputs, outputs }
}

fn position(order: &[usize], id: usize) -> usize {
    order.iter().position(|&x| x == id).expect("node missing from order")
}

#[test]
fn new_graph_is_empty_and_clean() {
    let g = Graph::<f32>::new();
    assert_eq!(g.num_nodes(), 0);
    assert!(!g.is_dirty());
    assert!(g.order().is_empty());
}

#[test]
fn add_node_returns_sequential_ids() {
    let mut g = Graph::<f32>::new();
    let ids: Vec<usize> = (0..5).map(|k| g.add_node(stub(k, 1))).collect();
    assert_eq!(ids, vec![0, 1, 2, 3, 4]);
    assert_eq!(g.num_nodes(), 5);
    assert!(g.is_dirty());
}

#[test]
fn add_node_leaves_inputs_unbound() {
    let mut g = Graph::<f32>::new();
    let a = g.add_node(stub(2, 0));
    assert_eq!(g.binding(a, 0), None);
    assert_eq!(g.binding(a, 1), None);
    assert_eq!(g.binding(a, 2), None);
}

#[test]
fn patch_out_of_range_output_node_is_no_such_node() {
    let mut g = Graph::<f32>::new();
    let a = g.add_node(stub(1, 1));
    // The output node is checked first, even when every other argument is also bad.
    assert_eq!(g.patch(7, 9, 8, 9), Err(Error::NoSuchNode(7)));
    assert_eq!(g.patch(7, 0, a, 0), Err(Error::NoSuchNode(7)));
    assert_eq!(g.binding(a, 0), None);
}

#[test]
fn patch_out_of_range_input_node_is_no_such_node() {
    let mut g = Graph::<f32>::new();
    let a = g.add_node(stub(1, 1));
    assert_eq!(g.patch(a, 0, 3, 0), Err(Error::NoSuchNode(3)));
    assert_eq!(g.binding(a, 0), None);
}

#[test]
fn patch_bad_output_channel_is_no_such_output() {
    let mut g = Graph::<f32>::new();
    let a = g.add_node(stub(0, 1));
    let b = g.add_node(stub(1, 0));
    assert_eq!(g.patch(a, 1, b, 0), Err(Error::NoSuchOutput(a, 1)));
    // The output channel is checked before the input node.
    assert_eq!(g.patch(a, 1, 42, 0), Err(Error::NoSuchOutput(a, 1)));
    assert_eq!(g.binding(b, 0), None);
}

#[test]
fn patch_bad_input_channel_is_no_such_input() {
    let mut g = Graph::<f32>::new();
    let a = g.add_node(stub(0, 1));
    let b = g.add_node(stub(1, 0));
    assert_eq!(g.patch(a, 0, b, 1), Err(Error::NoSuchInput(b, 1)));
    assert_eq!(g.binding(b, 0), None);
}

#[test]
fn patch_binds_input_and_marks_dirty() {
    let mut g = Graph::<f32>::new();
    let a = g.add_node(stub(0, 2));
    let b = g.add_node(stub(1, 0));
    assert_eq!(g.compute_order(), Err(Error::IncompleteGraph(b)));
    assert_eq!(g.patch(a, 1, b, 0), Ok(()));
    assert_eq!(g.binding(b, 0), Some((a, 1)));
    assert!(g.is_dirty());
}

#[test]
fn repatch_reports_already_patched_and_replaces() {
    let mut g = Graph::<f32>::new();
    let a = g.add_node(stub(0, 1));
    let b = g.add_node(stub(0, 1));
    let c = g.add_node(stub(1, 0));
    assert_eq!(g.patch(a, 0, c, 0), Ok(()));
    assert_eq!(g.patch(b, 0, c, 0), Err(Error::InputAlreadyPatched(c, 0)));
    assert_eq!(g.binding(c, 0), Some((b, 0)));
    assert_eq!(g.compute_order(), Ok(()));
    let order = g.order().to_vec();
    assert!(position(&order, b) < position(&order, c));
}

#[test]
fn unbound_input_fails_with_incomplete_graph() {
    let mut g = Graph::<f32>::new();
    let a = g.add_node(stub(0, 1));
    let b = g.add_node(stub(1, 1));
    let c = g.add_node(stub(2, 0));
    let d = g.add_node(stub(1, 0));
    g.patch(a, 0, b, 0).unwrap();
    g.patch(b, 0, c, 0).unwrap();
    g.patch(a, 0, c, 1).unwrap();
    // d is the only node with an unbound input.
    assert_eq!(g.compute_order(), Err(Error::IncompleteGraph(d)));
    assert!(g.is_dirty());
}

#[test]
fn two_node_cycle_is_detected() {
    let mut g = Graph::<f32>::new();
    let a = g.add_node(stub(1, 1));
    let b = g.add_node(stub(1, 1));
    g.patch(b, 0, a, 0).unwrap();
    g.patch(a, 0, b, 0).unwrap();
    assert_eq!(g.compute_order(), Err(Error::CycleDetected));
    assert!(g.is_dirty());
}

#[test]
fn self_loop_is_detected() {
    let mut g = Graph::<f32>::new();
    let a = g.add_node(stub(1, 1));
    g.patch(a, 0, a, 0).unwrap();
    assert_eq!(g.compute_order(), Err(Error::CycleDetected));
}

#[test]
fn failed_order_keeps_previous_order() {
    let mut g = Graph::<f32>::new();
    let a = g.add_node(stub(0, 1));
    let b = g.add_node(stub(1, 0));
    g.patch(a, 0, b, 0).unwrap();
    assert_eq!(g.compute_order(), Ok(()));
    assert_eq!(g.order(), &[a, b]);
    let c = g.add_node(stub(1, 0));
    assert_eq!(g.compute_order(), Err(Error::IncompleteGraph(c)));
    assert_eq!(g.order(), &[a, b]);
    assert!(g.is_dirty());
}

#[test]
fn order_respects_every_binding() {
    let mut g = Graph::<f32>::new();
    // Added in an order unrelated to the dependencies.
    let sink = g.add_node(stub(2, 0));
    let mid = g.add_node(stub(1, 1));
    let src = g.add_node(stub(0, 2));
    g.patch(mid, 0, sink, 0).unwrap();
    g.patch(src, 1, sink, 1).unwrap();
    g.patch(src, 0, mid, 0).unwrap();
    assert_eq!(g.compute_order(), Ok(()));
    assert!(!g.is_dirty());
    let order = g.order().to_vec();
    assert_eq!(order.len(), 3);
    assert!(position(&order, src) < position(&order, mid));
    assert!(position(&order, mid) < position(&order, sink));
    assert_eq!(order, vec![src, mid, sink]);
}

#[test]
fn compute_order_twice_gives_same_order() {
    let mut g = Graph::<f32>::new();
    let a = g.add_node(stub(0, 1));
    let b = g.add_node(stub(1, 1));
    let c = g.add_node(stub(1, 0));
    g.patch(a, 0, b, 0).unwrap();
    g.patch(b, 0, c, 0).unwrap();
    assert_eq!(g.compute_order(), Ok(()));
    assert!(!g.is_dirty());
    let first = g.order().to_vec();
    assert_eq!(g.compute_order(), Ok(()));
    assert!(!g.is_dirty());
    assert_eq!(g.order().to_vec(), first);
}

#[test]
fn linear_chain_orders_source_first() {
    let mut g = Graph::<f32>::new();
    let a = g.add_node(Constant::new(4, 2.5f32));
    let b = g.add_node(stub(1, 1));
    let c = g.add_node(stub(1, 0));
    assert_eq!(g.patch(a, 0, b, 0), Ok(()));
    assert_eq!(g.patch(b, 0, c, 0), Ok(()));
    assert_eq!(g.compute_order(), Ok(()));
    assert_eq!(g.order(), &[a, b, c]);
}

#[test]
fn diamond_orders_producers_before_consumers() {
    let mut g = Graph::<f32>::new();
    let a = g.add_node(stub(0, 1));
    let b = g.add_node(stub(1, 1));
    let c = g.add_node(stub(1, 1));
    let d = g.add_node(stub(2, 0));
    g.patch(a, 0, b, 0).unwrap();
    g.patch(a, 0, c, 0).unwrap();
    g.patch(b, 0, d, 0).unwrap();
    g.patch(c, 0, d, 1).unwrap();
    assert_eq!(g.compute_order(), Ok(()));
    let order = g.order().to_vec();
    assert_eq!(order.len(), 4);
    assert!(position(&order, a) < position(&order, b));
    assert!(position(&order, a) < position(&order, c));
    assert!(position(&order, b) < position(&order, d));
    assert!(position(&order, c) < position(&order, d));
}

#[test]
fn empty_graph_orders_trivially() {
    let mut g = Graph::<f32>::new();
    assert_eq!(g.compute_order(), Ok(()));
    assert!(g.order().is_empty());
}

#[test]
fn unconnected_outputs_are_fine() {
    let mut g = Graph::<f32>::new();
    let a = g.add_node(stub(0, 3));
    let b = g.add_node(stub(0, 0));
    assert_eq!(g.compute_order(), Ok(()));
    assert_eq!(g.order(), &[a, b]);
}


#[test]
fn one_output_feeds_several_inputs() {
    let mut g = Graph::<f32>::new();
    let a = g.add_node(stub(0, 1));
    let b = g.add_node(stub(1, 1));
    let c = g.add_node(stub(1, 1));
    assert_eq!(g.patch(a, 0, b, 0), Ok(()));
    assert_eq!(g.patch(a, 0, c, 0), Ok(()));
    assert_eq!(g.binding(b, 0), Some((a, 0)));
    assert_eq!(g.binding(c, 0), Some((a, 0)));
}

#[test]
fn patch_validation_on_constant_node() {
    let mut g = Graph::<f32>::new();
    assert_eq!(g.add_node(Constant::new(4, 2.5f32)), 0);
    assert_eq!(g.patch(9, 9, 9, 9), Err(Error::NoSuchNode(9)));
    assert_eq!(g.patch(5, 0, 0, 0), Err(Error::NoSuchNode(5)));
    assert_eq!(g.patch(0, 0, 7, 0), Err(Error::NoSuchNode(7)));
    assert_eq!(g.patch(0, 1, 0, 0), Err(Error::NoSuchOutput(0, 1)));
    assert_eq!(g.patch(0, 0, 0, 0), Err(Error::NoSuchInput(0, 0)));
    assert!(g.is_dirty());
    assert_eq!(g.compute_order(), Ok(()));
    assert_eq!(g.order(), &[0]);
}

#[test]
fn cycle_met_before_unbound_input_is_reported() {
    let mut g = Graph::<f32>::new();
    let a = g.add_node(stub(2, 1));
    g.patch(a, 0, a, 0).unwrap();
    assert_eq!(g.compute_order(), Err(Error::CycleDetected));
}

#[test]
fn unbound_input_met_before_cycle_is_reported() {
    let mut g = Graph::<f32>::new();
    let a = g.add_node(stub(2, 1));
    g.patch(a, 0, a, 1).unwrap();
    assert_eq!(g.compute_order(), Err(Error::IncompleteGraph(a)));
}

#[test]
fn order_is_depth_first_post_order() {
    let mut g = Graph::<f32>::new();
    let a = g.add_node(stub(2, 0));
    let b = g.add_node(stub(0, 1));
    let c = g.add_node(stub(0, 1));
    let d = g.add_node(stub(0, 0));
    g.patch(c, 0, a, 0).unwrap();
    g.patch(b, 0, a, 1).unwrap();
    assert_eq!(g.compute_order(), Ok(()));
    assert_eq!(g.order(), &[c, b, a, d]);
}

#[test]
fn ids_stay_sequential_across_other_calls() {
    let mut g = Graph::<f32>::new();
    assert_eq!(g.add_node(stub(0, 1)), 0);
    assert_eq!(g.patch(0, 0, 0, 0), Err(Error::NoSuchInput(0, 0)));
    assert_eq!(g.compute_order(), Ok(()));
    assert_eq!(g.add_node(stub(1, 0)), 1);
    assert_eq!(g.patch(0, 0, 1, 0), Ok(()));
    assert_eq!(g.compute_order(), Ok(()));
    assert_eq!(g.add_node(stub(0, 0)), 2);
    assert_eq!(g.num_nodes(), 3);
}
