//! Nodes, operations and the arena that owns every node of an expression graph.
//!
//! Values and gradients are 64-bit two's-complement integers. Arithmetic wraps,
//! so every result is exact modulo 2^64 and graph construction never fails on
//! a numeric input.
use crate::operands::{operand_items, operands_new, operands_push};
use arrayvec::ArrayVec;
use vstd::prelude::*;

verus! {

/// The operation that produced a node; the character is its display symbol.
#[derive(Debug, Eq, Hash, PartialEq, Clone, Copy, Structural)]
pub enum Op {
    Add(char),
    Mul(char),
    Tanh(char),
    Sigmoid(char),
    Relu(char),
}

/// Why `Graph::apply` refused to build a node.
#[derive(Debug, Eq, PartialEq, Clone, Copy, Structural)]
pub enum GraphError {
    /// The operation has no integer value rule (`Tanh`, `Sigmoid`, `Relu`).
    Unsupported,
    /// The number of operands differs from the operation's arity.
    Arity,
    /// An operand is not the index of a node of the graph.
    UnknownOperand,
}

/// Wrapping addition.
pub open spec fn wadd(a: i64, b: i64) -> i64 {
    vstd::wrapping::i64_specs::wrapping_add(a, b)
}

/// Wrapping multiplication.
pub open spec fn wmul(a: i64, b: i64) -> i64 {
    vstd::wrapping::i64_specs::wrapping_mul(a, b)
}

/// Operations with an integer value rule and a local-gradient rule.
pub open spec fn supported(op: Op) -> bool {
    op is Add || op is Mul
}

/// The value of a binary operation on the operands' values.
pub open spec fn eval(op: Op, x: i64, y: i64) -> i64 {
    match op {
        Op::Mul(_) => wmul(x, y),
        _ => wadd(x, y),
    }
}

/// A node as the contracts see it.
pub struct NodeView {
    pub value: i64,
    pub grad: i64,
    pub prev: Seq<usize>,
    pub op: Option<Op>,
    pub label: Seq<char>,
}

/// One node: its value, its gradient, the indices of its operands in the
/// graph that owns it, the operation that produced it and a display label.
#[derive(Debug, PartialEq)]
pub struct Unit {
    pub value: i64,
    pub grad: i64,
    pub prev: ArrayVec<usize, 2>,
    pub op: Option<Op>,
    pub label: String,
}

impl View for Unit {
    type V = NodeView;

    open spec fn view(&self) -> NodeView {
        NodeView {
            value: self.value,
            grad: self.grad,
            prev: operand_items(self.prev),
            op: self.op,
            label: self.label@,
        }
    }
}

/// Node `i` is a leaf, or an application of a supported operation to two
/// earlier nodes whose value it holds.
pub open spec fn node_ok(nodes: Seq<NodeView>, i: int) -> bool {
    let n = nodes[i];
    match n.op {
        None => n.prev.len() == 0,
        Some(op) => {
            &&& supported(op)
            &&& n.prev.len() == 2
            &&& n.prev[0] < i
            &&& n.prev[1] < i
            &&& n.value == eval(op, nodes[n.prev[0] as int].value, nodes[n.prev[1] as int].value)
        },
    }
}

/// Every node is well formed; operands come before their consumers, so the
/// operand relation is acyclic.
pub open spec fn well_formed(nodes: Seq<NodeView>) -> bool {
    forall|i: int| 0 <= i < nodes.len() ==> #[trigger] node_ok(nodes, i)
}

/// `n` with its gradient replaced by `g`.
pub open spec fn with_grad(n: NodeView, g: i64) -> NodeView {
    NodeView { grad: g, ..n }
}

/// `a` and `b` differ at most in their gradients.
pub open spec fn same_shape(a: Seq<NodeView>, b: Seq<NodeView>) -> bool {
    &&& a.len() == b.len()
    &&& forall|i: int| 0 <= i < a.len() ==> #[trigger] with_grad(a[i], 0) == with_grad(b[i], 0)
}

/// Every gradient set to zero.
pub open spec fn reset(nodes: Seq<NodeView>) -> Seq<NodeView> {
    nodes.map_values(|n: NodeView| with_grad(n, 0))
}

/// The gradient of `root` set to one.
pub open spec fn seed(nodes: Seq<NodeView>, root: int) -> Seq<NodeView> {
    nodes.update(root, with_grad(nodes[root], 1))
}

/// A fresh leaf.
pub open spec fn leaf_view(value: i64, label: Seq<char>) -> NodeView {
    NodeView { value, grad: 0, prev: Seq::empty(), op: None, label }
}

/// A fresh node that applies `op` to nodes `a` and `b` of `nodes`.
pub open spec fn applied(nodes: Seq<NodeView>, op: Op, a: int, b: int, label: Seq<char>) -> NodeView {
    NodeView {
        value: eval(op, nodes[a].value, nodes[b].value),
        grad: 0,
        prev: seq![a as usize, b as usize],
        op: Some(op),
        label,
    }
}

impl Unit {
    /// A leaf holding `value`, with zero gradient.
    pub fn new(value: i64, label: &str) -> (r: Unit)
        ensures
            r@ == leaf_view(value, label@),
    {
        Unit { value, grad: 0, prev: operands_new(), op: None, label: label.to_owned() }
    }

    /// A node holding `value`, produced by `op` from the nodes `children`,
    /// with zero gradient. Only a supported operation applied to exactly as
    /// many operands as its arity (two) makes a node.
    pub fn with_child(value: i64, children: ArrayVec<usize, 2>, op: Op, label: &str) -> (r: Unit)
        requires
            supported(op),
            operand_items(children).len() == 2,
        ensures
            r@ == (NodeView {
                value,
                grad: 0,
                prev: operand_items(children),
                op: Some(op),
                label: label@,
            }),
    {
        Unit { value, grad: 0, prev: children, op: Some(op), label: label.to_owned() }
    }
}

/// An expression graph. Each node is one entry of the arena, identified by its
/// index; a node shared by several consumers is stored once.
pub struct Graph {
    pub(crate) units: Vec<Unit>,
}

impl View for Graph {
    type V = Seq<NodeView>;

    open(crate) spec fn view(&self) -> Seq<NodeView> {
        self.units@.map_values(|u: Unit| u@)
    }
}

impl Graph {
    #[verifier::type_invariant]
    pub(crate) open spec fn inv(&self) -> bool {
        well_formed(self@)
    }

    /// An empty graph.
    pub fn new() -> (r: Graph)
        ensures
            r@ == Seq::<NodeView>::empty(),
    {
        let r = Graph { units: Vec::new() };
        assert(r@ =~= Seq::<NodeView>::empty());
        r
    }

    /// The number of nodes.
    pub fn len(&self) -> (r: usize)
        ensures
            r == self@.len(),
    {
        self.units.len()
    }

    /// Node `id`.
    pub fn unit(&self, id: usize) -> (r: &Unit)
        requires
            id < self@.len(),
        ensures
            r@ == self@[id as int],
    {
        &self.units[id]
    }

    /// Adds a leaf holding `value` and returns its index.
    pub fn leaf(&mut self, value: i64, label: &str) -> (id: usize)
        requires
            old(self)@.len() < usize::MAX,
        ensures
            id == old(self)@.len(),
            final(self)@ == old(self)@.push(leaf_view(value, label@)),
    {
        proof { use_type_invariant(&*self); }
        let u = Unit::new(value, label);
        let id = self.units.len();
        let mut units = Vec::new();
        std::mem::swap(&mut units, &mut self.units);
        units.push(u);
        proof {
            let nodes = units@.map_values(|u: Unit| u@);
            assert(nodes =~= old(self)@.push(leaf_view(value, label@)));
            assert forall|i: int| 0 <= i < nodes.len() implies #[trigger] node_ok(nodes, i) by {
                if i < id {
                    assert(node_ok(old(self)@, i));
                }
            }
        }
        self.units = units;
        id
    }

    /// Adds the node that applies a supported `op` to nodes `a` and `b`.
    fn push_applied(&mut self, op: Op, a: usize, b: usize, label: &str) -> (id: usize)
        requires
            supported(op),
            a < old(self)@.len(),
            b < old(self)@.len(),
        ensures
            id == old(self)@.len(),
            final(self)@ == old(self)@.push(applied(old(self)@, op, a as int, b as int, label@)),
    {
        proof { use_type_invariant(&*self); }
        let x = self.units[a].value;
        let y = self.units[b].value;
        let value = match op {
            Op::Mul(_) => x.wrapping_mul(y),
            _ => x.wrapping_add(y),
        };
        let mut children = operands_new();
        operands_push(&mut children, a);
        operands_push(&mut children, b);
        let u = Unit::with_child(value, children, op, label);
        let id = self.units.len();
        let mut units = Vec::new();
        std::mem::swap(&mut units, &mut self.units);
        units.push(u);
        proof {
            let nodes = units@.map_values(|u: Unit| u@);
            let new = applied(old(self)@, op, a as int, b as int, label@);
            assert(operand_items(children) =~= new.prev);
            assert(nodes =~= old(self)@.push(new));
            assert forall|i: int| 0 <= i < nodes.len() implies #[trigger] node_ok(nodes, i) by {
                if i < id {
                    assert(node_ok(old(self)@, i));
                }
            }
        }
        self.units = units;
        id
    }

    /// Adds the node that applies `op` to `operands` and returns its index.
    /// Its value is computed from the operands' values.
    pub fn apply(&mut self, op: Op, operands: &[usize], label: &str) -> (r: Result<usize, GraphError>)
        ensures
            !supported(op) ==> r == Err::<usize, GraphError>(GraphError::Unsupported)
                && final(self)@ == old(self)@,
            supported(op) && operands@.len() != 2 ==> r == Err::<usize, GraphError>(GraphError::Arity)
                && final(self)@ == old(self)@,
            supported(op) && operands@.len() == 2 && (operands@[0] >= old(self)@.len()
                || operands@[1] >= old(self)@.len()) ==> r == Err::<usize, GraphError>(
                GraphError::UnknownOperand,
            ) && final(self)@ == old(self)@,
            supported(op) && operands@.len() == 2 && operands@[0] < old(self)@.len()
                && operands@[1] < old(self)@.len() ==> r == Ok::<usize, GraphError>(
                old(self)@.len() as usize,
            ) && final(self)@ == old(self)@.push(
                applied(old(self)@, op, operands@[0] as int, operands@[1] as int, label@),
            ),
    {
        match op {
            Op::Add(_) | Op::Mul(_) => {},
            _ => {
                return Err(GraphError::Unsupported);
            },
        }
        if operands.len() != 2 {
            return Err(GraphError::Arity);
        }
        let n = self.units.len();
        if operands[0] >= n || operands[1] >= n {
            return Err(GraphError::UnknownOperand);
        }
        Ok(self.push_applied(op, operands[0], operands[1], label))
    }

    /// Adds `a + b`, labelled "result", and returns its index.
    pub fn add(&mut self, a: usize, b: usize) -> (id: usize)
        requires
            a < old(self)@.len(),
            b < old(self)@.len(),
        ensures
            id == old(self)@.len(),
            final(self)@ == old(self)@.push(
                applied(old(self)@, Op::Add('+'), a as int, b as int, "result"@),
            ),
    {
        self.push_applied(Op::Add('+'), a, b, "result")
    }

    /// Adds `a * b`, labelled "result", and returns its index.
    pub fn mul(&mut self, a: usize, b: usize) -> (id: usize)
        requires
            a < old(self)@.len(),
            b < old(self)@.len(),
        ensures
            id == old(self)@.len(),
            final(self)@ == old(self)@.push(
                applied(old(self)@, Op::Mul('*'), a as int, b as int, "result"@),
            ),
    {
        self.push_applied(Op::Mul('*'), a, b, "result")
    }

    /// Sets the gradient of node `id` to `g`.
    pub(crate) fn set_grad(&mut self, id: usize, g: i64)
        requires
            id < old(self)@.len(),
        ensures
            final(self)@ == old(self)@.update(id as int, with_grad(old(self)@[id as int], g)),
    {
        proof { use_type_invariant(&*self); }
        let mut units = Vec::new();
        std::mem::swap(&mut units, &mut self.units);
        units[id].grad = g;
        proof {
            let nodes = old(self)@.update(id as int, with_grad(old(self)@[id as int], g));
            assert(units@.map_values(|u: Unit| u@) =~= nodes);
            assert forall|i: int| 0 <= i < nodes.len() implies #[trigger] node_ok(nodes, i) by {
                assert(node_ok(old(self)@, i));
            }
        }
        self.units = units;
    }

    /// Seeds a gradient pass: the gradient of `root` becomes one.
    pub fn seed_root(&mut self, root: usize)
        requires
            root < old(self)@.len(),
        ensures
            final(self)@ == seed(old(self)@, root as int),
    {
        self.set_grad(root, 1);
    }

    /// Sets every gradient to zero.
    pub fn reset_gradients(&mut self)
        ensures
            final(self)@ == reset(old(self)@),
    {
        let n = self.units.len();
        let mut i: usize = 0;
        while i < n
            invariant
                n == old(self)@.len(),
                self@.len() == n,
                i <= n,
                forall|j: int| 0 <= j < i ==> self@[j] == with_grad(old(self)@[j], 0),
                forall|j: int| i <= j < n ==> self@[j] == old(self)@[j],
            decreases n - i,
        {
            self.set_grad(i, 0);
            i += 1;
        }
        assert(self@ =~= reset(old(self)@));
    }
}

} // verus!

