use dbsp::nodes::{LayoutId, Minus, NodeId, StreamLayout, Sum};

#[test]
fn sum_keeps_inputs_and_layout() {
    let layout = StreamLayout::Unkeyed(LayoutId(7));
    let mut sum = Sum::new(vec![NodeId(1), NodeId(2)], layout);
    assert_eq!(sum.inputs(), &[NodeId(1), NodeId(2)]);
    assert_eq!(sum.layout(), layout);
    sum.inputs_mut().push(NodeId(3));
    assert_eq!(sum.inputs(), &[NodeId(1), NodeId(2), NodeId(3)]);
    assert_eq!(sum.output_stream(&[]), Some(layout));
}

#[test]
fn sum_validates_input_layouts() {
    let layout = StreamLayout::Keyed(LayoutId(1), LayoutId(2));
    let sum = Sum::new(vec![NodeId(1), NodeId(2)], layout);
    assert!(sum.validate(&[layout, layout]));
    assert!(!sum.validate(&[layout, StreamLayout::Unkeyed(LayoutId(1))]));
    assert!(sum.validate(&[]));
}

#[test]
fn minus_keeps_sides() {
    let minus = Minus::new(NodeId(4), NodeId(9));
    assert_eq!(minus.lhs(), NodeId(4));
    assert_eq!(minus.rhs(), NodeId(9));
    assert_eq!(minus.map_inputs(), vec![NodeId(4), NodeId(9)]);
    let a = StreamLayout::Unkeyed(LayoutId(3));
    let b = StreamLayout::Unkeyed(LayoutId(5));
    assert_eq!(minus.output_stream(&[a, b]), Some(a));
    assert!(minus.validate(&[a, a]));
    assert!(!minus.validate(&[a, b]));
    assert!(!minus.validate(&[a]));
}
