use std::cell::Cell;

use auto_diff::collection::generational_index::NetIndex;
use auto_diff::collection::graph::Graph;

#[test]
fn new() {
    let _g = Graph::new();
}

// A   B
//  \ /
//   Op
//   |
//   C
fn setup_y(g: &mut Graph) {
    let data_a = NetIndex::new(0, 0);
    let data_b = NetIndex::new(1, 0);
    let data_c = NetIndex::new(2, 0);
    g.add_data(&data_a).expect("");
    g.add_data(&data_b).expect("");
    g.add_data(&data_c).expect("");

    let op_a = NetIndex::new(0, 0);
    g.add_op(&op_a).expect("");

    g.connect(&[data_a, data_b], &[data_c], &op_a).expect("");
}

// A   B
//  \ /
//   Op1
//   |
//   C   D
//    \ /
//     Op2
//     |
//     E
fn setup_yy(g: &mut Graph) {
    let data_a = NetIndex::new(0, 0);
    let data_b = NetIndex::new(1, 0);
    let data_c = NetIndex::new(2, 0);
    let data_d = NetIndex::new(3, 0);
    let data_e = NetIndex::new(4, 0);
    g.add_data(&data_a).expect("");
    g.add_data(&data_b).expect("");
    g.add_data(&data_c).expect("");
    g.add_data(&data_d).expect("");
    g.add_data(&data_e).expect("");

    let op1 = NetIndex::new(0, 0);
    g.add_op(&op1).expect("");
    let op2 = NetIndex::new(1, 0);
    g.add_op(&op2).expect("");

    g.connect(&[data_a, data_b], &[data_c], &op1).expect("");
    g.connect(&[data_c, data_d], &[data_e], &op2).expect("");
}

#[test]
fn test_get_input_cache() {
    let mut g = Graph::new();
    setup_y(&mut g);
    assert_eq!(g.get_input_cache().len(), 2);

    let mut g = Graph::new();
    setup_yy(&mut g);
    assert_eq!(g.get_input_cache().len(), 3);
}

#[test]
fn test_get_output_cache() {
    let mut g = Graph::new();
    setup_y(&mut g);
    assert_eq!(g.get_output_cache().len(), 1);

    let mut g = Graph::new();
    setup_yy(&mut g);
    assert_eq!(g.get_output_cache().len(), 1);
}

#[test]
fn graph_symmetry() {
    let mut g = Graph::new();
    setup_yy(&mut g);
    // every "data feeds op" record has the matching "op consumes data" record
    for d in g.list_data() {
        for o in g.list_as_input(&d).expect("") {
            assert!(g.list_input(&o).expect("").contains(&d));
        }
        for o in g.list_as_output(&d).expect("") {
            assert!(g.list_output(&o).expect("").contains(&d));
        }
    }
    for o in g.list_op() {
        for d in g.list_input(&o).expect("") {
            assert!(g.list_as_input(&d).expect("").contains(&o));
        }
        for d in g.list_output(&o).expect("") {
            assert!(g.list_as_output(&d).expect("").contains(&o));
        }
    }
}

#[test]
fn connect_idempotent() {
    let mut g = Graph::new();
    setup_y(&mut g);
    let data_a = NetIndex::new(0, 0);
    let data_b = NetIndex::new(1, 0);
    let data_c = NetIndex::new(2, 0);
    let op_a = NetIndex::new(0, 0);
    let in_before = g.list_input(&op_a).expect("");
    let out_before = g.list_output(&op_a).expect("");
    // reconnecting the same triple changes nothing
    g.connect(&[data_a, data_b], &[data_c], &op_a).expect("");
    assert_eq!(g.list_input(&op_a).expect(""), in_before);
    assert_eq!(g.list_output(&op_a).expect(""), out_before);
    assert_eq!(g.list_as_input(&data_a).expect("").len(), 1);
    assert_eq!(g.list_as_output(&data_c).expect("").len(), 1);
}

#[test]
fn walk_order_and_completeness() {
    let mut g = Graph::new();
    setup_yy(&mut g);
    let data_a = NetIndex::new(0, 0);
    let data_b = NetIndex::new(1, 0);
    let data_d = NetIndex::new(3, 0);
    let op1 = NetIndex::new(0, 0);
    let op2 = NetIndex::new(1, 0);
    // walking the fully-connected DAG from its true sources drains everything
    let (plan, left) = g.walk_plan(&[data_a, data_b, data_d], true);
    assert!(left.is_empty());
    assert_eq!(plan.len(), 2);
    // the producer of C fires before the consumer of C
    assert_eq!(plan[0].op, op1);
    assert_eq!(plan[1].op, op2);
}

#[test]
fn walk_leftover() {
    let mut g = Graph::new();
    setup_yy(&mut g);
    let data_a = NetIndex::new(0, 0);
    // starting from a strict subset of the sources, nothing can fire and the
    // started node is the exact leftover
    let (plan, left) = g.walk_plan(&[data_a], true);
    assert_eq!(plan.len(), 0);
    assert_eq!(left.len(), 1);
    assert!(left.contains(&data_a));
}

#[test]
fn deletion_cascade() {
    let mut g = Graph::new();
    setup_yy(&mut g);
    let data_a = NetIndex::new(0, 0);
    let data_b = NetIndex::new(1, 0);
    let data_c = NetIndex::new(2, 0);
    let data_d = NetIndex::new(3, 0);
    let data_e = NetIndex::new(4, 0);
    let op1 = NetIndex::new(0, 0);
    let op2 = NetIndex::new(1, 0);
    g.del_data(&data_c).expect("");
    // exactly the edges incident to C disappear
    assert!(!g.list_output(&op1).expect("").contains(&data_c));
    assert!(!g.list_input(&op2).expect("").contains(&data_c));
    // the other nodes and their edges survive
    assert!(g.list_data().contains(&data_a));
    assert!(g.list_data().contains(&data_b));
    assert!(g.list_data().contains(&data_d));
    assert!(g.list_data().contains(&data_e));
    assert!(!g.list_data().contains(&data_c));
    assert!(g.list_op().contains(&op1));
    assert!(g.list_op().contains(&op2));
    assert!(g.list_input(&op1).expect("").contains(&data_a));
    assert!(g.list_input(&op1).expect("").contains(&data_b));
    assert!(g.list_input(&op2).expect("").contains(&data_d));
    assert!(g.list_output(&op2).expect("").contains(&data_e));
}

#[test]
fn decouple_removes_one_edge() {
    let mut g = Graph::new();
    setup_y(&mut g);
    let data_a = NetIndex::new(0, 0);
    let data_b = NetIndex::new(1, 0);
    let op_a = NetIndex::new(0, 0);
    g.decouple_data_func(&data_a, &op_a).expect("");
    assert!(!g.list_input(&op_a).expect("").contains(&data_a));
    assert!(g.list_input(&op_a).expect("").contains(&data_b));
    // decoupling an absent edge succeeds and changes nothing
    g.decouple_data_func(&data_a, &op_a).expect("");
    assert_eq!(g.list_input(&op_a).expect("").len(), 1);
    // an unregistered endpoint is rejected
    assert!(g.decouple_data_func(&NetIndex::new(9, 9), &op_a).is_err());
}

#[test]
fn duplicate_and_unknown_nodes() {
    let mut g = Graph::new();
    let d = NetIndex::new(0, 0);
    g.add_data(&d).expect("");
    assert!(g.add_data(&d).is_err());
    assert!(g.del_data(&NetIndex::new(5, 0)).is_err());
    assert!(g.list_input(&NetIndex::new(5, 0)).is_err());
    assert!(g.connect(&[d], &[], &NetIndex::new(5, 0)).is_err());
}

#[test]
fn walk_with_callback() {
    let mut g = Graph::new();
    setup_yy(&mut g);
    let data_a = NetIndex::new(0, 0);
    let data_b = NetIndex::new(1, 0);
    let data_d = NetIndex::new(3, 0);
    let fired = Cell::new(0usize);
    let r = g.walk(&[data_a, data_b, data_d], true, |ins, outs, _op| {
        assert!(ins.len() > 0 && outs.len() > 0);
        fired.set(fired.get() + 1);
    });
    assert!(r.is_ok());
    assert_eq!(fired.get(), 2);
    // backward from the sink visits both operators as well
    let data_e = NetIndex::new(4, 0);
    let fired_back = Cell::new(0usize);
    let r2 = g.walk(&[data_e], false, |_ins, _outs, _op| {
        fired_back.set(fired_back.get() + 1);
    });
    assert!(r2.is_ok());
    assert_eq!(fired_back.get(), 2);
}

#[test]
fn default_is_empty() {
    let g = Graph::default();
    assert_eq!(g.list_data().len(), 0);
    assert_eq!(g.list_op().len(), 0);
}

#[test]
fn del_op_prunes_edges() {
    let mut g = Graph::new();
    setup_yy(&mut g);
    let data_c = NetIndex::new(2, 0);
    let data_e = NetIndex::new(4, 0);
    let op2 = NetIndex::new(1, 0);
    g.del_op(&op2).expect("");
    assert!(!g.list_op().contains(&op2));
    assert!(!g.list_as_input(&data_c).expect("").contains(&op2));
    assert!(!g.list_as_output(&data_e).expect("").contains(&op2));
    assert!(g.del_op(&op2).is_err());
}

#[test]
fn decouple_output_edge() {
    let mut g = Graph::new();
    setup_y(&mut g);
    let data_c = NetIndex::new(2, 0);
    let op_a = NetIndex::new(0, 0);
    g.decouple_func_data(&op_a, &data_c).expect("");
    assert!(!g.list_output(&op_a).expect("").contains(&data_c));
    assert!(g.list_as_output(&data_c).expect("").is_empty());
}

#[test]
fn listings_sorted_by_handle() {
    let mut g = Graph::new();
    let c = NetIndex::new(2, 0);
    let a = NetIndex::new(0, 1);
    let b = NetIndex::new(0, 0);
    g.add_data(&c).expect("");
    g.add_data(&a).expect("");
    g.add_data(&b).expect("");
    // listed ascending by slot index, then generation, whatever the
    // registration order was
    assert_eq!(g.list_data(), vec![b, a, c]);
    let op = NetIndex::new(7, 0);
    g.add_op(&op).expect("");
    g.connect(&[c, a, b], &[], &op).expect("");
    assert_eq!(g.list_input(&op).expect(""), vec![b, a, c]);
}
