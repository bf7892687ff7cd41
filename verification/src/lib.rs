//! A directed acyclic graph of scalar computation nodes.
//!
//! Expressions built from leaves and the arithmetic constructors `add`,
//! `sub`, `mul` and `tanh` grow a [`Graph`]: an arena of immutable
//! [`Node`]s, each tagged with the operation and the operands that
//! produced it. A node's identity is its arena index, which doubles as
//! its process-unique, strictly increasing id. Any node can later be
//! handed to [`Graph::linearize`] to obtain a dependency-respecting
//! (topological) order over its dependency closure, for consumers such
//! as a rendering pass or a future gradient pass.
//!
//! Scalar payloads (`data`, `grad`) are carried as opaque 32-bit words:
//! the graph records dependencies and stores the eagerly computed value
//! of every node, while the numeric interpretation of the words is the
//! embedding client's concern.

use vstd::prelude::*;

verus! {

/// The operation that produced a node, carrying the arena indices of
/// its operands. `Leaf` marks a user-created input with no operands.
#[derive(Clone, Copy, Debug, PartialEq, Eq, Structural)]
pub enum Op {
    Leaf,
    Add(usize, usize),
    Sub(usize, usize),
    Mul(usize, usize),
    Tanh(usize),
}

impl Op {
    /// The human-readable symbol of this operation variant.
    pub open spec fn spec_symbol(self) -> Seq<char> {
        match self {
            Op::Leaf => ""@,
            Op::Add(_, _) => "+"@,
            Op::Sub(_, _) => "-"@,
            Op::Mul(_, _) => "x"@,
            Op::Tanh(_) => "tanh"@,
        }
    }

    /// Returns the symbol used when rendering a node with this
    /// operation: `+`, `-`, `x`, `tanh`, or the empty string for a leaf.
    pub fn symbol(&self) -> (r: &'static str)
        ensures
            r@ == self.spec_symbol(),
    {
        match self {
            Op::Leaf => "",
            Op::Add(_, _) => "+",
            Op::Sub(_, _) => "-",
            Op::Mul(_, _) => "x",
            Op::Tanh(_) => "tanh",
        }
    }
}

/// A single scalar node: a unique id, the scalar value computed when
/// the node was built, a gradient slot reserved for a future backward
/// pass, and the operation tag recording the node's provenance.
#[derive(Clone, Copy, Debug, PartialEq, Eq, Structural)]
pub struct Node {
    /// Unique id; always equal to the node's index in its graph.
    pub id: usize,
    /// The node's scalar value, as an opaque 32-bit word.
    pub data: u32,
    /// Gradient slot, zero until a backward pass fills it.
    pub grad: u32,
    /// How this node was produced.
    pub op: Op,
}

/// The operand indices of an operation, in left-to-right order.
pub open spec fn op_operands(op: Op) -> Seq<usize> {
    match op {
        Op::Leaf => Seq::empty(),
        Op::Add(a, b) => seq![a, b],
        Op::Sub(a, b) => seq![a, b],
        Op::Mul(a, b) => seq![a, b],
        Op::Tanh(a) => seq![a],
    }
}

/// A node stored at index `i` is well formed when all of its operands
/// point strictly below `i`: the graph is acyclic by construction.
pub open spec fn node_wf(n: Node, i: int) -> bool {
    forall|k: int|
        0 <= k < op_operands(n.op).len() ==> (#[trigger] op_operands(n.op)[k]) < i
}

/// Every node's operands point strictly below it.
pub open spec fn graph_wf(s: Seq<Node>) -> bool {
    forall|i: int| 0 <= i < s.len() ==> node_wf(#[trigger] s[i], i)
}

/// Every node's id equals its arena index.
pub open spec fn ids_ok(s: Seq<Node>) -> bool {
    forall|i: int| 0 <= i < s.len() ==> (#[trigger] s[i].id) == i
}

/// Appending a well-formed node preserves both graph invariants.
proof fn lemma_push_keeps_wf(s: Seq<Node>, n: Node)
    requires
        graph_wf(s),
        ids_ok(s),
        node_wf(n, s.len() as int),
        n.id == s.len(),
    ensures
        graph_wf(s.push(n)),
        ids_ok(s.push(n)),
{
    let t = s.push(n);
    assert forall|i: int| 0 <= i < t.len() implies node_wf(#[trigger] t[i], i) by {
        if i < s.len() {
            assert(t[i] == s[i]);
        } else {
            assert(t[i] == n);
        }
    }
    assert forall|i: int| 0 <= i < t.len() implies (#[trigger] t[i].id) == i by {
        if i < s.len() {
            assert(t[i] == s[i]);
        }
    }
}

/// An arena of computation nodes. Nodes are created by the
/// constructors and never change afterwards; a node's id is its index.
pub struct Graph {
    nodes: Vec<Node>,
}

impl View for Graph {
    type V = Seq<Node>;

    closed spec fn view(&self) -> Seq<Node> {
        self.nodes@
    }
}

impl Graph {
    /// Invariant of every reachable `Graph` value: acyclicity of the
    /// operand references and id-equals-index.
    #[verifier::type_invariant]
    pub open spec fn wf(self) -> bool {
        graph_wf(self@) && ids_ok(self@)
    }

    /// Creates an empty graph.
    pub fn new() -> (g: Graph)
        ensures
            g@ == Seq::<Node>::empty(),
    {
        let g = Graph { nodes: Vec::new() };
        proof {
            assert(g@ =~= Seq::<Node>::empty());
        }
        g
    }

    /// The number of nodes built so far.
    pub fn len(&self) -> (n: usize)
        ensures
            n == self@.len(),
    {
        self.nodes.len()
    }

    /// Appends a node with the given payload and operation, assigning
    /// the next id. Shared by every public constructor.
    fn push_with_op(&mut self, data: u32, op: Op) -> (id: usize)
        requires
            forall|k: int|
                0 <= k < op_operands(op).len() ==> (#[trigger] op_operands(op)[k])
                    < old(self)@.len(),
        ensures
            id == old(self)@.len(),
            final(self)@ == old(self)@.push(Node { id: id, data: data, grad: 0, op: op }),
    {
        proof {
            use_type_invariant(&*self);
        }
        let mut nodes: Vec<Node> = Vec::new();
        std::mem::swap(&mut nodes, &mut self.nodes);
        let ghost s = nodes@;
        let id = nodes.len();
        let n = Node { id: id, data: data, grad: 0, op: op };
        nodes.push(n);
        proof {
            lemma_push_keeps_wf(s, n);
        }
        self.nodes = nodes;
        id
    }

    /// Creates a new leaf node holding `data`, with a zero gradient
    /// slot and no operands.
    pub fn leaf(&mut self, data: u32) -> (id: usize)
        ensures
            id == old(self)@.len(),
            final(self)@ == old(self)@.push(Node { id: id, data: data, grad: 0, op: Op::Leaf }),
    {
        self.push_with_op(data, Op::Leaf)
    }

    /// Creates the sum node of `a` and `b`: a new node tagged
    /// `Op::Add(a, b)` holding the eagerly computed scalar `data`.
    pub fn add(&mut self, a: usize, b: usize, data: u32) -> (id: usize)
        requires
            a < old(self)@.len(),
            b < old(self)@.len(),
        ensures
            id == old(self)@.len(),
            final(self)@ == old(self)@.push(
                Node { id: id, data: data, grad: 0, op: Op::Add(a, b) },
            ),
    {
        self.push_with_op(data, Op::Add(a, b))
    }

    /// Creates the difference node of `a` and `b`, tagged `Op::Sub(a, b)`.
    pub fn sub(&mut self, a: usize, b: usize, data: u32) -> (id: usize)
        requires
            a < old(self)@.len(),
            b < old(self)@.len(),
        ensures
            id == old(self)@.len(),
            final(self)@ == old(self)@.push(
                Node { id: id, data: data, grad: 0, op: Op::Sub(a, b) },
            ),
    {
        self.push_with_op(data, Op::Sub(a, b))
    }

    /// Creates the product node of `a` and `b`, tagged `Op::Mul(a, b)`.
    pub fn mul(&mut self, a: usize, b: usize, data: u32) -> (id: usize)
        requires
            a < old(self)@.len(),
            b < old(self)@.len(),
        ensures
            id == old(self)@.len(),
            final(self)@ == old(self)@.push(
                Node { id: id, data: data, grad: 0, op: Op::Mul(a, b) },
            ),
    {
        self.push_with_op(data, Op::Mul(a, b))
    }

    /// Creates the hyperbolic-tangent node of `a`, tagged `Op::Tanh(a)`.
    pub fn tanh(&mut self, a: usize, data: u32) -> (id: usize)
        requires
            a < old(self)@.len(),
        ensures
            id == old(self)@.len(),
            final(self)@ == old(self)@.push(
                Node { id: id, data: data, grad: 0, op: Op::Tanh(a) },
            ),
    {
        self.push_with_op(data, Op::Tanh(a))
    }

    /// The id of the node at index `v`; always `v` itself.
    pub fn get_id(&self, v: usize) -> (r: usize)
        requires
            v < self@.len(),
        ensures
            r == self@[v as int].id,
            r == v,
    {
        proof {
            use_type_invariant(&*self);
        }
        self.nodes[v].id
    }

    /// The scalar value of the node at index `v`.
    pub fn get_data(&self, v: usize) -> (r: u32)
        requires
            v < self@.len(),
        ensures
            r == self@[v as int].data,
    {
        self.nodes[v].data
    }

    /// The gradient slot of the node at index `v`.
    pub fn get_grad(&self, v: usize) -> (r: u32)
        requires
            v < self@.len(),
        ensures
            r == self@[v as int].grad,
    {
        self.nodes[v].grad
    }

    /// The operation tag of the node at index `v`.
    pub fn get_op(&self, v: usize) -> (r: Op)
        requires
            v < self@.len(),
        ensures
            r == self@[v as int].op,
    {
        self.nodes[v].op
    }

    /// The operand indices of the node at index `v`, left to right.
    pub fn operands(&self, v: usize) -> (r: Vec<usize>)
        requires
            v < self@.len(),
        ensures
            r@ == op_operands(self@[v as int].op),
    {
        let mut r: Vec<usize> = Vec::new();
        match self.nodes[v].op {
            Op::Leaf => {},
            Op::Add(a, b) => {
                r.push(a);
                r.push(b);
            },
            Op::Sub(a, b) => {
                r.push(a);
                r.push(b);
            },
            Op::Mul(a, b) => {
                r.push(a);
                r.push(b);
            },
            Op::Tanh(a) => {
                r.push(a);
            },
        }
        proof {
            assert(r@ =~= op_operands(self@[v as int].op));
        }
        r
    }
}

/// Ids are the sole identity key: under `ids_ok` — which every graph
/// built through the constructors satisfies — the ids of distinct
/// nodes are distinct, and strictly increasing in construction order.
pub proof fn lemma_ids_unique(s: Seq<Node>)
    requires
        ids_ok(s),
    ensures
        forall|i: int, j: int| 0 <= i < j < s.len() ==> s[i].id < s[j].id,
        forall|i: int, j: int| 0 <= i < j < s.len() ==> s[i].id != s[j].id,
{
}

/// Membership in the dependency closure of `v`: `x` is `v` itself, or
/// lies in the closure of one of `v`'s operands.
pub open spec fn in_closure(nodes: Seq<Node>, v: int, x: int) -> bool
    decreases v,
    when 0 <= v < nodes.len() && graph_wf(nodes)
{
    x == v || exists|k: int|
        #![trigger op_operands(nodes[v].op)[k]]
        0 <= k < op_operands(nodes[v].op).len() && in_closure(
            nodes,
            op_operands(nodes[v].op)[k] as int,
            x,
        )
}

/// The dependency closure of `root`, as a set of arena indices.
pub open spec fn closure_set(nodes: Seq<Node>, root: int) -> Set<usize> {
    Set::new(|x: usize| in_closure(nodes, root, x as int))
}

/// In a well-formed graph the closure of `v` only holds indices at or
/// below `v`: operand references strictly descend.
pub proof fn lemma_closure_below(nodes: Seq<Node>, v: int, x: int)
    requires
        graph_wf(nodes),
        0 <= v < nodes.len(),
        in_closure(nodes, v, x),
    ensures
        0 <= x <= v,
    decreases v,
{
    if x != v {
        let k = choose|k: int|
            #![trigger op_operands(nodes[v].op)[k]]
            0 <= k < op_operands(nodes[v].op).len() && in_closure(
                nodes,
                op_operands(nodes[v].op)[k] as int,
                x,
            );
        assert(node_wf(nodes[v], v));
        lemma_closure_below(nodes, op_operands(nodes[v].op)[k] as int, x);
    }
}

/// Closure membership propagates up through one operand edge.
proof fn lemma_closure_step(nodes: Seq<Node>, v: int, k: int, x: int)
    requires
        0 <= v < nodes.len(),
        graph_wf(nodes),
        0 <= k < op_operands(nodes[v].op).len(),
        in_closure(nodes, op_operands(nodes[v].op)[k] as int, x),
    ensures
        in_closure(nodes, v, x),
{
}

/// Every flagged node's operands are flagged too.
spec fn visited_closed(nodes: Seq<Node>, visited: Seq<bool>) -> bool {
    forall|i: int, k: int|
        #![trigger op_operands(nodes[i].op)[k], visited[i]]
        0 <= i < nodes.len() && visited[i] && 0 <= k < op_operands(nodes[i].op).len()
            ==> visited[op_operands(nodes[i].op)[k] as int]
}

/// A set of flags that is closed under operands and holds `v` holds
/// the whole closure of `v`.
proof fn lemma_closed_flags_closure(nodes: Seq<Node>, visited: Seq<bool>, v: int, x: int)
    requires
        graph_wf(nodes),
        visited.len() == nodes.len(),
        visited_closed(nodes, visited),
        0 <= v < nodes.len(),
        visited[v],
        in_closure(nodes, v, x),
    ensures
        0 <= x <= v && visited[x],
    decreases v,
{
    lemma_closure_below(nodes, v, x);
    if x != v {
        let k = choose|k: int|
            #![trigger op_operands(nodes[v].op)[k]]
            0 <= k < op_operands(nodes[v].op).len() && in_closure(
                nodes,
                op_operands(nodes[v].op)[k] as int,
                x,
            );
        assert(node_wf(nodes[v], v));
        let w = op_operands(nodes[v].op)[k] as int;
        assert(visited[w]);
        lemma_closed_flags_closure(nodes, visited, w, x);
    }
}

/// A traversal state: the visited flags and the order built so far.
pub type TravState = (Seq<bool>, Seq<usize>);

/// The depth-first postorder visit, as a pure function of the graph:
/// an already-visited node leaves the state unchanged; otherwise its
/// operands are visited left to right, then the node is flagged and
/// appended. `linearize` returns exactly the order this computes.
pub open spec fn spec_visit(nodes: Seq<Node>, v: int, st: TravState) -> TravState
    decreases v,
    when 0 <= v < nodes.len() && graph_wf(nodes)
    via spec_visit_decreases
{
    if st.0[v] {
        st
    } else {
        let st1 = match nodes[v].op {
            Op::Leaf => st,
            Op::Add(a, b) => spec_visit(nodes, b as int, spec_visit(nodes, a as int, st)),
            Op::Sub(a, b) => spec_visit(nodes, b as int, spec_visit(nodes, a as int, st)),
            Op::Mul(a, b) => spec_visit(nodes, b as int, spec_visit(nodes, a as int, st)),
            Op::Tanh(a) => spec_visit(nodes, a as int, st),
        };
        (st1.0.update(v, true), st1.1.push(v as usize))
    }
}

/// Termination of the spec-level visit: acyclicity makes every
/// operand index strictly smaller than the node that holds it.
#[via_fn]
proof fn spec_visit_decreases(nodes: Seq<Node>, v: int, st: TravState) {
    assert(node_wf(nodes[v], v));
    match nodes[v].op {
        Op::Leaf => {},
        Op::Add(a, b) => {
            assert(op_operands(nodes[v].op)[0] == a);
            assert(op_operands(nodes[v].op)[1] == b);
        },
        Op::Sub(a, b) => {
            assert(op_operands(nodes[v].op)[0] == a);
            assert(op_operands(nodes[v].op)[1] == b);
        },
        Op::Mul(a, b) => {
            assert(op_operands(nodes[v].op)[0] == a);
            assert(op_operands(nodes[v].op)[1] == b);
        },
        Op::Tanh(a) => {
            assert(op_operands(nodes[v].op)[0] == a);
        },
    }
}

/// Visiting a list of nodes left to right, threading the state.
pub open spec fn spec_visit_seq(nodes: Seq<Node>, vs: Seq<usize>, st: TravState) -> TravState
    decreases vs.len(),
{
    if vs.len() == 0 {
        st
    } else {
        spec_visit_seq(nodes, vs.drop_first(), spec_visit(nodes, vs[0] as int, st))
    }
}

/// Extending the visited list by one more node on the right visits
/// that node last.
proof fn lemma_visit_seq_snoc(nodes: Seq<Node>, vs: Seq<usize>, k: int, st: TravState)
    requires
        0 <= k < vs.len(),
    ensures
        spec_visit_seq(nodes, vs.subrange(0, k + 1), st) == spec_visit(
            nodes,
            vs[k] as int,
            spec_visit_seq(nodes, vs.subrange(0, k), st),
        ),
    decreases k,
{
    if k == 0 {
        let st1 = spec_visit(nodes, vs[0] as int, st);
        assert(vs.subrange(0, 0) =~= Seq::<usize>::empty());
        assert(vs.subrange(0, 1) =~= seq![vs[0]]);
        assert(seq![vs[0]].drop_first() =~= Seq::<usize>::empty());
        assert(seq![vs[0]][0] == vs[0]);
        assert(spec_visit_seq(nodes, Seq::<usize>::empty(), st) == st);
        assert(spec_visit_seq(nodes, Seq::<usize>::empty(), st1) == st1);
        assert(spec_visit_seq(nodes, seq![vs[0]], st) == st1);
    } else {
        let tail = vs.drop_first();
        let st0 = spec_visit(nodes, vs[0] as int, st);
        lemma_visit_seq_snoc(nodes, tail, k - 1, st0);
        assert(vs.subrange(0, k + 1).drop_first() =~= tail.subrange(0, k));
        assert(vs.subrange(0, k).drop_first() =~= tail.subrange(0, k - 1));
        assert(tail[k - 1] == vs[k]);
        assert(vs.subrange(0, k + 1)[0] == vs[0] && vs.subrange(0, k)[0] == vs[0]);
        assert(spec_visit_seq(nodes, vs.subrange(0, k + 1), st) == spec_visit_seq(
            nodes,
            tail.subrange(0, k),
            st0,
        ));
        assert(spec_visit_seq(nodes, vs.subrange(0, k), st) == spec_visit_seq(
            nodes,
            tail.subrange(0, k - 1),
            st0,
        ));
    }
}

/// Unfolds one step of `spec_visit` at a not-yet-visited node into the
/// left-to-right fold over its operand list.
proof fn lemma_visit_unfold(nodes: Seq<Node>, v: int, st: TravState)
    requires
        0 <= v < nodes.len(),
        graph_wf(nodes),
        !st.0[v],
    ensures
        spec_visit(nodes, v, st) == {
            let st1 = spec_visit_seq(nodes, op_operands(nodes[v].op), st);
            (st1.0.update(v, true), st1.1.push(v as usize))
        },
{
    match nodes[v].op {
        Op::Leaf => {
            assert(spec_visit_seq(nodes, op_operands(nodes[v].op), st) == st);
        },
        Op::Add(a, b) => {
            lemma_visit_pair(nodes, a, b, st);
        },
        Op::Sub(a, b) => {
            lemma_visit_pair(nodes, a, b, st);
        },
        Op::Mul(a, b) => {
            lemma_visit_pair(nodes, a, b, st);
        },
        Op::Tanh(a) => {
            let st1 = spec_visit(nodes, a as int, st);
            assert(seq![a].drop_first() =~= Seq::<usize>::empty());
            assert(seq![a][0] == a);
            assert(spec_visit_seq(nodes, Seq::<usize>::empty(), st1) == st1);
            assert(spec_visit_seq(nodes, seq![a], st) == st1);
        },
    }
}

/// The fold over a two-element operand list is the two nested visits.
proof fn lemma_visit_pair(nodes: Seq<Node>, a: usize, b: usize, st: TravState)
    ensures
        spec_visit_seq(nodes, seq![a, b], st) == spec_visit(
            nodes,
            b as int,
            spec_visit(nodes, a as int, st),
        ),
{
    let st1 = spec_visit(nodes, a as int, st);
    let st2 = spec_visit(nodes, b as int, st1);
    assert(seq![a, b].drop_first() =~= seq![b]);
    assert(seq![b].drop_first() =~= Seq::<usize>::empty());
    assert(seq![a, b][0] == a && seq![b][0] == b);
    assert(spec_visit_seq(nodes, Seq::<usize>::empty(), st2) == st2);
    assert(spec_visit_seq(nodes, seq![b], st1) == st2);
    assert(spec_visit_seq(nodes, seq![a, b], st) == st2);
}

/// Each listed node comes after all of its operands: for every
/// position `p`, every operand of `order[p]` occurs in `order` strictly
/// before `p`.
pub open spec fn topo_sorted(nodes: Seq<Node>, order: Seq<usize>) -> bool {
    forall|p: int, k: int|
        #![trigger op_operands(nodes[order[p] as int].op)[k]]
        0 <= p < order.len() && 0 <= k < op_operands(nodes[order[p] as int].op).len()
            ==> order.subrange(0, p).contains(op_operands(nodes[order[p] as int].op)[k])
}

/// The traversal state: the flags and the order list agree, each node
/// is listed at most once, the flagged set is closed under operands,
/// and the list is in topological order.
spec fn traversal_ok(nodes: Seq<Node>, visited: Seq<bool>, order: Seq<usize>) -> bool {
    &&& visited.len() == nodes.len()
    &&& order.no_duplicates()
    &&& forall|p: int| 0 <= p < order.len() ==> (#[trigger] order[p]) < nodes.len()
    &&& forall|i: int| 0 <= i < nodes.len() ==> ((#[trigger] visited[i]) <==> order.contains(i as usize))
    &&& visited_closed(nodes, visited)
    &&& topo_sorted(nodes, order)
}

impl Graph {
    /// Depth-first postorder visit of `v`: appends the not-yet-visited
    /// part of `v`'s dependency closure to `order`, operands first.
    fn dfs(&self, v: usize, visited: &mut Vec<bool>, order: &mut Vec<usize>)
        requires
            v < self@.len(),
            traversal_ok(self@, old(visited)@, old(order)@),
        ensures
            traversal_ok(self@, final(visited)@, final(order)@),
            old(order)@.is_prefix_of(final(order)@),
            forall|i: int|
                0 <= i < old(visited)@.len() && old(visited)@[i] ==> final(visited)@[i],
            final(visited)@[v as int],
            forall|i: int|
                0 <= i < final(visited)@.len() && final(visited)@[i] && !old(visited)@[i]
                    ==> in_closure(self@, v as int, i),
            !old(visited)@[v as int] ==> final(order)@.len() > 0 && final(order)@.last() == v,
            (final(visited)@, final(order)@) == spec_visit(
                self@,
                v as int,
                (old(visited)@, old(order)@),
            ),
        decreases v,
    {
        proof {
            use_type_invariant(self);
        }
        if visited[v] {
            proof {
                assert(old(order)@ =~= order@.subrange(0, old(order)@.len() as int));
                assert(spec_visit(self@, v as int, (old(visited)@, old(order)@)) == (
                old(visited)@,
                old(order)@,
                ));
            }
            return ;
        }
        // binds the arena size as a machine integer: every index below
        // `self@.len()` therefore fits in a usize
        let total = self.nodes.len();
        let ops = self.operands(v);
        let ghost entry_visited = visited@;
        let ghost entry_order = order@;
        proof {
            assert(ops@.subrange(0, 0) =~= Seq::<usize>::empty());
            assert(spec_visit_seq(self@, ops@.subrange(0, 0), (entry_visited, entry_order)) == (
            entry_visited,
            entry_order,
            ));
        }
        let mut k: usize = 0;
        while k < ops.len()
            invariant
                v < self@.len(),
                graph_wf(self@),
                ops@ == op_operands(self@[v as int].op),
                k <= ops.len(),
                traversal_ok(self@, visited@, order@),
                entry_order.is_prefix_of(order@),
                forall|i: int| 0 <= i < entry_visited.len() && entry_visited[i] ==> visited@[i],
                forall|j: int| 0 <= j < k ==> visited@[ops@[j] as int],
                forall|i: int|
                    0 <= i < visited@.len() && visited@[i] && !entry_visited[i] ==> in_closure(
                        self@,
                        v as int,
                        i,
                    ),
                !visited@[v as int],
                entry_visited.len() == self@.len(),
                (visited@, order@) == spec_visit_seq(
                    self@,
                    ops@.subrange(0, k as int),
                    (entry_visited, entry_order),
                ),
            decreases ops@.len() - k,
        {
            let w = ops[k];
            proof {
                assert(node_wf(self@[v as int], v as int));
                assert(op_operands(self@[v as int].op)[k as int] == w);
            }
            let ghost pre_visited = visited@;
            let ghost pre_order = order@;
            self.dfs(w, visited, order);
            proof {
                assert forall|i: int|
                    0 <= i < visited@.len() && visited@[i] && !entry_visited[i] implies in_closure(
                    self@,
                    v as int,
                    i,
                ) by {
                    if !pre_visited[i] {
                        lemma_closure_step(self@, v as int, k as int, i);
                    }
                }
                if visited@[v as int] {
                    lemma_closure_below(self@, w as int, v as int);
                }
                assert(entry_order =~= order@.subrange(0, entry_order.len() as int));
                lemma_visit_seq_snoc(self@, ops@, k as int, (entry_visited, entry_order));
            }
            k += 1;
        }
        let ghost pre_visited = visited@;
        let ghost pre_order = order@;
        visited[v] = true;
        order.push(v);
        proof {
            let nodes = self@;
            assert(nodes.len() == total as int);
            // the new order list: the old one with `v` appended
            assert(order@ =~= pre_order.push(v));
            assert(!pre_order.contains(v));
            assert forall|i: int, j: int| 0 <= i < j < order@.len() implies order@[i] != order@[j] by {
                if j < pre_order.len() {
                    assert(pre_order.no_duplicates());
                    assert(order@[i] == pre_order[i] && order@[j] == pre_order[j]);
                } else {
                    assert(order@[j] == v);
                    assert(pre_order[i] == order@[i]);
                    assert(pre_order.contains(pre_order[i]));
                }
            }
            assert forall|i: int| 0 <= i < nodes.len() implies ((#[trigger] visited@[i])
                <==> order@.contains(i as usize)) by {
                if i == v as int {
                    assert(order@[order@.len() - 1] == v);
                } else {
                    assert(visited@[i] == pre_visited[i]);
                    if pre_order.contains(i as usize) {
                        let p = choose|p: int| 0 <= p < pre_order.len() && pre_order[p] == i as usize;
                        assert(order@[p] == i as usize);
                    }
                    if order@.contains(i as usize) {
                        let p = choose|p: int| 0 <= p < order@.len() && order@[p] == i as usize;
                        assert(p < pre_order.len());
                        assert(pre_order[p] == i as usize);
                    }
                }
            }
            assert forall|i: int, kk: int|
                0 <= i < nodes.len() && visited@[i] && 0 <= kk < op_operands(nodes[i].op).len()
                    implies visited@[#[trigger] op_operands(nodes[i].op)[kk] as int] by {
                if i == v as int {
                    assert(pre_visited[op_operands(nodes[i].op)[kk] as int]);
                } else {
                    assert(pre_visited[i]);
                    assert(pre_visited[op_operands(nodes[i].op)[kk] as int]);
                }
            }
            assert forall|p: int, kk: int|
                0 <= p < order@.len() && 0 <= kk < op_operands(nodes[order@[p] as int].op).len()
                    implies order@.subrange(0, p).contains(
                    #[trigger] op_operands(nodes[order@[p] as int].op)[kk],
                ) by {
                if p < pre_order.len() {
                    assert(order@[p] == pre_order[p]);
                    assert(order@.subrange(0, p) =~= pre_order.subrange(0, p));
                    assert(pre_order.subrange(0, p).contains(
                        op_operands(nodes[pre_order[p] as int].op)[kk],
                    ));
                } else {
                    assert(order@[p] == v);
                    let w = op_operands(nodes[v as int].op)[kk];
                    assert(visited@[w as int] && w as int != v as int);
                    assert(pre_visited[w as int]);
                    assert(pre_order.contains(w));
                    assert(order@.subrange(0, p) =~= pre_order);
                }
            }
            assert(entry_order =~= order@.subrange(0, entry_order.len() as int));
            assert(in_closure(nodes, v as int, v as int));
            // the whole call equals one step of the spec-level visit
            assert(ops@.subrange(0, ops@.len() as int) =~= ops@);
            assert((pre_visited, pre_order) == spec_visit_seq(
                nodes,
                op_operands(nodes[v as int].op),
                (entry_visited, entry_order),
            ));
            lemma_visit_unfold(nodes, v as int, (entry_visited, entry_order));
            assert(visited@ == pre_visited.update(v as int, true));
            assert(order@ == pre_order.push(v));
            assert((visited@, order@) == spec_visit(
                nodes,
                v as int,
                (entry_visited, entry_order),
            ));
        }
    }

    /// Produces the topological linearization of the dependency closure
    /// of `root`: every node reachable from `root` through operand
    /// references, exactly once each, every node strictly after all of
    /// its operands, and `root` last.
    pub fn linearize(&self, root: usize) -> (r: Vec<usize>)
        requires
            root < self@.len(),
        ensures
            r@.no_duplicates(),
            topo_sorted(self@, r@),
            forall|p: int| 0 <= p < r@.len() ==> (#[trigger] r@[p]) < self@.len(),
            forall|x: usize| r@.contains(x) <==> in_closure(self@, root as int, x as int),
            r@.len() > 0 && r@.last() == root,
            r@.to_set() == closure_set(self@, root as int),
            r@.len() == closure_set(self@, root as int).len(),
            r@ == spec_visit(
                self@,
                root as int,
                (Seq::new(self@.len(), |i: int| false), Seq::<usize>::empty()),
            ).1,
    {
        proof {
            use_type_invariant(self);
        }
        let n = self.nodes.len();
        let mut visited: Vec<bool> = Vec::new();
        let mut i: usize = 0;
        while i < n
            invariant
                i <= n,
                visited@.len() == i,
                forall|j: int| 0 <= j < i ==> !(#[trigger] visited@[j]),
            decreases n - i,
        {
            visited.push(false);
            i += 1;
        }
        let mut order: Vec<usize> = Vec::new();
        proof {
            assert(order@ =~= Seq::<usize>::empty());
            assert(visited@ =~= Seq::new(self@.len(), |i2: int| false));
            assert forall|i2: int| 0 <= i2 < self@.len() implies ((#[trigger] visited@[i2])
                <==> order@.contains(i2 as usize)) by {
                if order@.contains(i2 as usize) {
                    let p = choose|p: int| 0 <= p < order@.len() && order@[p] == i2 as usize;
                }
            }
        }
        self.dfs(root, &mut visited, &mut order);
        proof {
            assert forall|x: usize| order@.contains(x) implies in_closure(
                self@,
                root as int,
                x as int,
            ) by {
                assert(visited@[x as int]);
            }
            assert forall|x: usize| in_closure(self@, root as int, x as int) implies order@.contains(
                x,
            ) by {
                lemma_closed_flags_closure(self@, visited@, root as int, x as int);
            }
            assert(order@.to_set() =~= closure_set(self@, root as int));
            order@.unique_seq_to_set();
        }
        order
    }

    /// The operand edges contributed by the node at index `v`: one
    /// `(operand, v)` pair per operand, left to right.
    pub open spec fn node_edges(nodes: Seq<Node>, v: usize) -> Seq<(usize, usize)> {
        match nodes[v as int].op {
            Op::Leaf => Seq::empty(),
            Op::Add(a, b) => seq![(a, v), (b, v)],
            Op::Sub(a, b) => seq![(a, v), (b, v)],
            Op::Mul(a, b) => seq![(a, v), (b, v)],
            Op::Tanh(a) => seq![(a, v)],
        }
    }

    /// All operand edges of the nodes listed in `order`, concatenated
    /// in list order.
    pub open spec fn order_edges(nodes: Seq<Node>, order: Seq<usize>) -> Seq<(usize, usize)>
        decreases order.len(),
    {
        if order.len() == 0 {
            Seq::empty()
        } else {
            Self::order_edges(nodes, order.drop_last()) + Self::node_edges(nodes, order.last())
        }
    }

    /// For each listed node, in list order, the edges from its operands
    /// to it: the dependency arrows a renderer draws for the graph.
    pub fn edge_list(&self, order: &Vec<usize>) -> (r: Vec<(usize, usize)>)
        requires
            forall|p: int| 0 <= p < order@.len() ==> (#[trigger] order@[p]) < self@.len(),
        ensures
            r@ == Self::order_edges(self@, order@),
    {
        let mut r: Vec<(usize, usize)> = Vec::new();
        proof {
            assert(r@ =~= Self::order_edges(self@, order@.subrange(0, 0)));
        }
        let mut p: usize = 0;
        while p < order.len()
            invariant
                p <= order@.len(),
                forall|q: int| 0 <= q < order@.len() ==> (#[trigger] order@[q]) < self@.len(),
                r@ == Self::order_edges(self@, order@.subrange(0, p as int)),
            decreases order@.len() - p,
        {
            let v = order[p];
            match self.nodes[v].op {
                Op::Leaf => {},
                Op::Add(a, b) => {
                    r.push((a, v));
                    r.push((b, v));
                },
                Op::Sub(a, b) => {
                    r.push((a, v));
                    r.push((b, v));
                },
                Op::Mul(a, b) => {
                    r.push((a, v));
                    r.push((b, v));
                },
                Op::Tanh(a) => {
                    r.push((a, v));
                },
            }
            proof {
                let pre = order@.subrange(0, p as int);
                let now = order@.subrange(0, p as int + 1);
                assert(now.drop_last() =~= pre);
                assert(now.last() == v);
                assert(r@ =~= Self::order_edges(self@, pre) + Self::node_edges(self@, v));
            }
            p += 1;
        }
        proof {
            assert(order@.subrange(0, order@.len() as int) =~= order@);
        }
        r
    }
}

} // verus!

