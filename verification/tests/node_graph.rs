use scalar_dag::Graph;
use scalar_dag::Op;

fn bits(x: f32) -> u32 {
    x.to_bits()
}

fn val(g: &Graph, v: usize) -> f32 {
    f32::from_bits(g.get_data(v))
}

#[test]
fn it_works() {
    let mut g = Graph::new();
    let v1 = g.leaf(bits(0.5));
    assert_eq!(val(&g, v1), 0.5);
    let v2 = g.leaf(bits(0.3));
    let v3 = g.add(v1, v2, bits(val(&g, v1) + val(&g, v2)));
    assert_eq!(val(&g, v3), 0.8);
    let v4 = g.sub(v3, v2, bits(val(&g, v3) - val(&g, v2))); // 0.8 - 0.3 = 0.5
    let v5 = g.mul(v4, v2, bits(val(&g, v4) * val(&g, v2))); // 0.5 * 0.3 = 0.15
    assert_eq!(val(&g, v5), 0.15);
    let v6 = g.tanh(v5, bits(val(&g, v5).tanh()));
    assert_eq!(val(&g, v6), 0.15f32.tanh());
}

#[test]
fn new_graph_is_empty() {
    let g = Graph::new();
    assert_eq!(g.len(), 0);
}

#[test]
fn leaf_stores_data_and_zero_grad() {
    let mut g = Graph::new();
    let v = g.leaf(bits(2.25));
    assert_eq!(g.len(), 1);
    assert_eq!(val(&g, v), 2.25);
    assert_eq!(g.get_grad(v), 0);
    assert_eq!(f32::from_bits(g.get_grad(v)), 0.0);
    assert_eq!(g.get_op(v), Op::Leaf);
    let w = g.leaf(bits(-7.5));
    assert_eq!(val(&g, w), -7.5);
    assert_eq!(g.get_grad(w), 0);
}

#[test]
fn constructors_tag_ops_and_store_data() {
    let mut g = Graph::new();
    let a = g.leaf(bits(4.0));
    let b = g.leaf(bits(1.5));

    let s = g.add(a, b, bits(val(&g, a) + val(&g, b)));
    assert_eq!(g.get_op(s), Op::Add(a, b));
    assert_eq!(val(&g, s), 5.5);
    assert_eq!(g.get_grad(s), 0);

    let d = g.sub(a, b, bits(val(&g, a) - val(&g, b)));
    assert_eq!(g.get_op(d), Op::Sub(a, b));
    assert_eq!(val(&g, d), 2.5);

    let m = g.mul(a, b, bits(val(&g, a) * val(&g, b)));
    assert_eq!(g.get_op(m), Op::Mul(a, b));
    assert_eq!(val(&g, m), 6.0);

    let t = g.tanh(a, bits(val(&g, a).tanh()));
    assert_eq!(g.get_op(t), Op::Tanh(a));
    assert_eq!(val(&g, t), 4.0f32.tanh());

    // the operands themselves are untouched
    assert_eq!(val(&g, a), 4.0);
    assert_eq!(val(&g, b), 1.5);
    assert_eq!(g.get_op(a), Op::Leaf);
}

#[test]
fn ids_are_distinct_and_increasing() {
    let mut g = Graph::new();
    let a = g.leaf(bits(1.0));
    let b = g.leaf(bits(2.0));
    let c = g.add(a, b, bits(3.0));
    let d = g.mul(c, a, bits(3.0));
    let e = g.tanh(d, bits(3.0f32.tanh()));
    let ids = [g.get_id(a), g.get_id(b), g.get_id(c), g.get_id(d), g.get_id(e)];
    assert_eq!(ids, [0, 1, 2, 3, 4]);
    for i in 0..ids.len() {
        for j in (i + 1)..ids.len() {
            assert!(ids[i] < ids[j]);
        }
    }
    assert_eq!(g.len(), 5);
}

#[test]
fn operands_follow_the_tag() {
    let mut g = Graph::new();
    let a = g.leaf(bits(1.0));
    let b = g.leaf(bits(2.0));
    let s = g.add(a, b, bits(3.0));
    let t = g.tanh(s, bits(3.0f32.tanh()));
    assert_eq!(g.operands(a), Vec::<usize>::new());
    assert_eq!(g.operands(s), vec![a, b]);
    assert_eq!(g.operands(t), vec![s]);
}

#[test]
fn op_symbols() {
    assert_eq!(Op::Leaf.symbol(), "");
    assert_eq!(Op::Add(0, 1).symbol(), "+");
    assert_eq!(Op::Sub(0, 1).symbol(), "-");
    assert_eq!(Op::Mul(0, 1).symbol(), "x");
    assert_eq!(Op::Tanh(0).symbol(), "tanh");
}

#[test]
fn nan_and_infinity_pass_through() {
    let mut g = Graph::new();
    let a = g.leaf(bits(f32::INFINITY));
    let b = g.leaf(bits(f32::NEG_INFINITY));
    let s = g.add(a, b, bits(val(&g, a) + val(&g, b)));
    assert!(val(&g, s).is_nan());
    assert!(val(&g, a).is_infinite());
}
