use gyroscope::channel::Out;
use gyroscope::constant::Constant;
use gyroscope::graph::Node;

#[test]
fn constant_reports_its_count() {
    let c = Constant::new(4, 2.5f32);
    let out = c.get_output(0).expect("output 0");
    assert_eq!(out.num_samples(), 4);
}

#[test]
fn constant_fills_prefix_of_long_buffer() {
    let c = Constant::new(4, 2.5f32);
    let out = c.get_output(0).unwrap();
    let mut dst = [-1.0f32; 6];
    assert_eq!(out.output(&mut dst), 4);
    assert_eq!(dst, [2.5, 2.5, 2.5, 2.5, -1.0, -1.0]);
    // Reading does not change what the next read produces.
    assert_eq!(out.num_samples(), 4);
}

#[test]
fn constant_truncates_to_short_buffer() {
    let c = Constant::new(4, 2.5f32);
    let out = c.get_output(0).unwrap();
    let mut dst = [0.0f32; 2];
    assert_eq!(out.output(&mut dst), 2);
    assert_eq!(dst, [2.5, 2.5]);
}

#[test]
fn constant_into_empty_buffer_writes_nothing() {
    let c = Constant::new(3, 1.0f32);
    assert!(c.get_output(0).is_some());
    let mut dst: [f32; 0] = [];
    assert_eq!(c.get_output(0).unwrap().output(&mut dst), 0);
}

#[test]
fn constant_has_one_output_and_no_inputs() {
    let mut c = Constant::new(1, 7u8);
    let node: &dyn Node<u8> = &c;
    assert_eq!(node.num_outputs(), 1);
    assert_eq!(c.num_inputs(), 0);
    assert_eq!(c.num_outputs(), 1);
    assert!(c.get_output(1).is_none());
    assert!(c.get_input(0).is_none());
    c.run();
    let mut dst = [0u8; 1];
    assert_eq!(c.get_output(0).unwrap().output(&mut dst), 1);
    assert_eq!(dst, [7]);
}


#[test]
fn constant_channel_fills_directly() {
    let c = Constant::new(3, 9i32);
    let out = c.channel();
    assert_eq!(out.num_samples(), 3);
    let mut dst = [0i32; 5];
    assert_eq!(out.output(&mut dst), 3);
    assert_eq!(dst, [9, 9, 9, 0, 0]);
    let mut short = [1i32; 2];
    assert_eq!(out.output(&mut short), 2);
    assert_eq!(short, [9, 9]);
}
