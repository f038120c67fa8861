use fhe_ckks::ir_graph::{CtMeta, IrBuilder, IrError, IrGraph, IrNode, NodeIndex};

#[test]
fn test_build_simple_graph() {
    let mut b = IrBuilder::new();
    let x = b.input_ct("x");
    let y = b.input_ct("y");
    let sum = b.add_ct_ct(x, y);
    b.output(sum, "result");
    let g = b.build();
    assert_eq!(g.node_count(), 4); // x, y, add, output
    assert_eq!(g.edge_count(), 3); // x→add, y→add, add→output
}

#[test]
fn test_topological_sort() {
    let mut b = IrBuilder::new();
    let x = b.input_ct("x");
    let y = b.input_ct("y");
    let prod = b.mul_ct_ct(x, y);
    let relin = b.relinearize(prod);
    let rescaled = b.rescale(relin);
    b.output(rescaled, "out");
    let g = b.build();
    let order = g.topological_order().unwrap();
    assert_eq!(order.len(), 6);
}

#[test]
fn topological_order_puts_inputs_before_users() {
    let mut b = IrBuilder::new();
    let x = b.input_ct("x");
    let p = b.input_pt("p");
    let s = b.add_ct_pt(x, p);
    let r = b.rotate(s, 3);
    let out = b.output(r, "out");
    let g = b.build();
    let order = g.topological_order().unwrap();
    let pos = |n: NodeIndex| order.iter().position(|m| *m == n).unwrap();
    assert_eq!(order.len(), 5);
    assert!(pos(x) < pos(s));
    assert!(pos(p) < pos(s));
    assert!(pos(s) < pos(r));
    assert!(pos(r) < pos(out));
}

#[test]
fn topological_order_detects_cycle() {
    let mut g = IrGraph::new();
    let a = g.add_node(IrNode::NegCt { meta: CtMeta::unknown() });
    let b = g.add_node(IrNode::NegCt { meta: CtMeta::unknown() });
    g.add_edge(a, b);
    g.add_edge(b, a);
    assert!(matches!(g.topological_order(), Err(IrError::CycleDetected)));
}

#[test]
fn topological_order_detects_self_loop() {
    let mut g = IrGraph::new();
    let a = g.add_node(IrNode::NegCt { meta: CtMeta::unknown() });
    g.add_edge(a, a);
    assert!(matches!(g.topological_order(), Err(IrError::CycleDetected)));
}

#[test]
fn builder_node_indices_follow_insertion() {
    let mut b = IrBuilder::new();
    let x = b.input_ct("x");
    let y = b.input_ct("y");
    let m = b.mul_ct_ct(x, y);
    assert_eq!(x.index(), 0);
    assert_eq!(y.index(), 1);
    assert_eq!(m.index(), 2);
    assert_eq!(NodeIndex::new(2), m);
}

#[test]
fn node_reads_back_what_builder_added() {
    let mut b = IrBuilder::new();
    let x = b.input_ct("x");
    let out = b.output(x, "result");
    let g = b.build();
    match g.node(x).unwrap() {
        IrNode::InputCt { name, meta } => {
            assert_eq!(name, "x");
            assert_eq!(*meta, CtMeta::unknown());
        }
        other => panic!("unexpected node {:?}", other),
    }
    match g.node(out).unwrap() {
        IrNode::Output { name } => assert_eq!(name, "result"),
        other => panic!("unexpected node {:?}", other),
    }
}

#[test]
fn node_missing_index_is_not_found() {
    let g = IrGraph::new();
    match g.node(NodeIndex::new(3)) {
        Err(IrError::NodeNotFound(i)) => assert_eq!(i, NodeIndex::new(3)),
        _ => panic!("expected NodeNotFound"),
    }
}

#[test]
fn node_mut_replaces_one_node() {
    let mut b = IrBuilder::new();
    let x = b.input_ct("x");
    let r = b.rescale(x);
    let mut g = b.build();
    let meta = CtMeta { level: Some(2), scale_bits: Some(1u64 << 62) };
    *g.node_mut(r).unwrap() = IrNode::Rescale { meta };
    assert_eq!(g.node(r).unwrap().ct_meta(), Some(&meta));
    assert_eq!(g.node(x).unwrap().op_name(), "InputCt");
    assert_eq!(g.node_count(), 2);
    assert_eq!(g.edge_count(), 1);
    assert!(matches!(g.node_mut(NodeIndex::new(7)), Err(IrError::NodeNotFound(_))));
}

#[test]
fn predecessors_most_recent_first() {
    let mut b = IrBuilder::new();
    let x = b.input_ct("x");
    let y = b.input_ct("y");
    let s = b.add_ct_ct(x, y);
    let g = b.build();
    assert_eq!(g.predecessors(s), vec![y, x]);
    assert_eq!(g.predecessors(x), vec![]);
    assert_eq!(g.predecessors(NodeIndex::new(9)), vec![]);
}

#[test]
fn op_name_and_ct_meta_per_variant() {
    let m = CtMeta { level: Some(1), scale_bits: None };
    let cases: Vec<(IrNode, &str, bool)> = vec![
        (IrNode::InputCt { name: "a".to_string(), meta: m }, "InputCt", true),
        (IrNode::InputPt { name: "p".to_string() }, "InputPt", false),
        (IrNode::Output { name: "o".to_string() }, "Output", false),
        (IrNode::AddCtCt { meta: m }, "AddCtCt", true),
        (IrNode::AddCtPt { meta: m }, "AddCtPt", true),
        (IrNode::SubCtCt { meta: m }, "SubCtCt", true),
        (IrNode::NegCt { meta: m }, "NegCt", true),
        (IrNode::MulCtCt { meta: m }, "MulCtCt", true),
        (IrNode::MulCtPt { meta: m }, "MulCtPt", true),
        (IrNode::Relinearize { meta: m }, "Relinearize", true),
        (IrNode::Rescale { meta: m }, "Rescale", true),
        (IrNode::ModSwitch { target_level: 0, meta: m }, "ModSwitch", true),
        (IrNode::Rotate { step: -1, meta: m }, "Rotate", true),
        (IrNode::Conjugate { meta: m }, "Conjugate", true),
    ];
    for (node, name, has_meta) in cases {
        assert_eq!(node.op_name(), name);
        if has_meta {
            assert_eq!(node.ct_meta(), Some(&m));
        } else {
            assert_eq!(node.ct_meta(), None);
        }
    }
}

#[test]
fn default_graph_and_builder_are_empty() {
    let g = IrGraph::default();
    assert_eq!(g.node_count(), 0);
    assert_eq!(g.edge_count(), 0);
    assert_eq!(g.topological_order().unwrap().len(), 0);
    let b = IrBuilder::default().build();
    assert_eq!(b.node_count(), 0);
}
