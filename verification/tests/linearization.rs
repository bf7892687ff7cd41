use scalar_dag::Graph;
use scalar_dag::Op;

fn bits(x: f32) -> u32 {
    x.to_bits()
}

fn val(g: &Graph, v: usize) -> f32 {
    f32::from_bits(g.get_data(v))
}

/// Checks that `order` respects dependencies: every operand of every
/// listed node appears at a strictly earlier position.
fn assert_topological(g: &Graph, order: &[usize]) {
    for (p, &v) in order.iter().enumerate() {
        for w in g.operands(v) {
            let wpos = order.iter().position(|&x| x == w);
            assert!(wpos.is_some(), "operand missing from the order");
            assert!(wpos.unwrap() < p, "operand not before its result");
        }
    }
}

#[test]
fn leaf_root_yields_single_element() {
    let mut g = Graph::new();
    let a = g.leaf(bits(1.25));
    let order = g.linearize(a);
    assert_eq!(order, vec![a]);
}

#[test]
fn repeated_operand_is_not_duplicated() {
    let mut g = Graph::new();
    let x = g.leaf(bits(2.0));
    let s = g.add(x, x, bits(val(&g, x) + val(&g, x)));
    let order = g.linearize(s);
    assert_eq!(order, vec![x, s]);
}

#[test]
fn diamond_counts_shared_ancestor_once() {
    let mut g = Graph::new();
    let a = g.leaf(bits(1.0));
    let b = g.leaf(bits(2.0));
    let c = g.add(a, b, bits(3.0));
    let d = g.mul(a, b, bits(2.0));
    let e = g.add(c, d, bits(5.0));
    let order = g.linearize(e);
    // dependency closure of `e` has exactly five distinct nodes
    assert_eq!(order.len(), 5);
    let mut seen = order.clone();
    seen.sort();
    seen.dedup();
    assert_eq!(seen.len(), 5);
    assert_topological(&g, &order);
    assert_eq!(*order.last().unwrap(), e);
}

#[test]
fn linearize_ignores_unreachable_nodes() {
    let mut g = Graph::new();
    let a = g.leaf(bits(1.0));
    let _unrelated = g.leaf(bits(9.0));
    let b = g.leaf(bits(2.0));
    let s = g.add(a, b, bits(3.0));
    let order = g.linearize(s);
    assert_eq!(order, vec![a, b, s]);
}

#[test]
fn linearize_is_restartable() {
    let mut g = Graph::new();
    let a = g.leaf(bits(1.0));
    let b = g.leaf(bits(2.0));
    let c = g.mul(a, b, bits(2.0));
    let d = g.tanh(c, bits(2.0f32.tanh()));
    let first = g.linearize(d);
    let second = g.linearize(d);
    assert_eq!(first, second);
}

#[test]
fn example_chain_linearizes_in_construction_order() {
    let mut g = Graph::new();
    let v1 = g.leaf(bits(0.5));
    let v2 = g.leaf(bits(0.3));
    let v3 = g.add(v1, v2, bits(val(&g, v1) + val(&g, v2)));
    assert_eq!(val(&g, v3), 0.8);
    let v4 = g.sub(v3, v2, bits(val(&g, v3) - val(&g, v2)));
    assert_eq!(val(&g, v4), 0.5);
    let v5 = g.mul(v4, v2, bits(val(&g, v4) * val(&g, v2)));
    assert_eq!(val(&g, v5), 0.15);
    let v6 = g.tanh(v5, bits(val(&g, v5).tanh()));
    assert_eq!(val(&g, v6), 0.15f32.tanh());
    let order = g.linearize(v6);
    // v2 appears once despite two incoming references
    assert_eq!(order, vec![v1, v2, v3, v4, v5, v6]);
    assert_topological(&g, &order);
}

#[test]
fn edge_list_follows_the_order() {
    let mut g = Graph::new();
    let a = g.leaf(bits(1.0));
    let b = g.leaf(bits(2.0));
    let s = g.add(a, b, bits(3.0));
    let t = g.tanh(s, bits(3.0f32.tanh()));
    let order = g.linearize(t);
    assert_eq!(order, vec![a, b, s, t]);
    let edges = g.edge_list(&order);
    assert_eq!(edges, vec![(a, s), (b, s), (s, t)]);
}

#[test]
fn edge_list_keeps_repeated_operands() {
    let mut g = Graph::new();
    let x = g.leaf(bits(2.0));
    let s = g.add(x, x, bits(4.0));
    let order = g.linearize(s);
    let edges = g.edge_list(&order);
    assert_eq!(edges, vec![(x, s), (x, s)]);
}

#[test]
fn symbols_along_an_order() {
    let mut g = Graph::new();
    let a = g.leaf(bits(1.0));
    let b = g.leaf(bits(2.0));
    let d = g.sub(a, b, bits(-1.0));
    let m = g.mul(d, b, bits(-2.0));
    let order = g.linearize(m);
    let symbols: Vec<&str> = order.iter().map(|&v| g.get_op(v).symbol()).collect();
    assert_eq!(symbols, vec!["", "", "-", "x"]);
    assert_eq!(g.get_op(m), Op::Mul(d, b));
}
