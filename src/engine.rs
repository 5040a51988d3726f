//! Reverse-mode differentiation over a graph.
//!
//! A pass from `root` visits every node reachable from `root` once, from the
//! highest index down. Operands always precede their consumers, so this is a
//! reverse topological order: when a node hands its gradient to its operands,
//! every consumer of that node has already added its share.
use crate::graph::{node_ok, same_shape, wadd, well_formed, with_grad, wmul, Graph, NodeView, Op};
use crate::operands::{operand_at, operands_len};
use vstd::prelude::*;

verus! {

/// What node `i`, whose gradient is `g`, adds to the gradient of its operand
/// at position `k`: `g` for a sum, the other operand's value times `g` for a
/// product.
pub open spec fn term(nodes: Seq<NodeView>, i: int, k: int, g: i64) -> i64 {
    match nodes[i].op {
        Some(Op::Mul(_)) => wmul(nodes[nodes[i].prev[1 - k] as int].value, g),
        _ => g,
    }
}

/// `acc`, the gradient of node `j`, once node `i` with gradient `g` has added
/// its share for each position at which `j` is one of its operands.
pub open spec fn pass_to(nodes: Seq<NodeView>, i: int, j: int, acc: i64, g: i64) -> i64 {
    let p = nodes[i].prev;
    let a0 = if p.len() > 0 && p[0] == j {
        wadd(acc, term(nodes, i, 0, g))
    } else {
        acc
    };
    if p.len() > 1 && p[1] == j {
        wadd(a0, term(nodes, i, 1, g))
    } else {
        a0
    }
}

/// The graph after node `i` has applied its local-gradient rule once.
pub open spec fn step(nodes: Seq<NodeView>, i: int) -> Seq<NodeView> {
    Seq::new(
        nodes.len(),
        |j: int| with_grad(nodes[j], pass_to(nodes, i, j, nodes[j].grad, nodes[i].grad)),
    )
}

/// Node `i` has `j` among its operands.
pub open spec fn uses(nodes: Seq<NodeView>, i: int, j: int) -> bool {
    exists|k: int| 0 <= k < nodes[i].prev.len() && nodes[i].prev[k] == j
}

/// `j` is `root`, or an operand of a node in `lo..=root` that is reached from
/// `root`.
pub open spec fn reached(nodes: Seq<NodeView>, root: int, j: int, lo: int) -> bool
    decreases root - j, root + 1 - lo,
{
    if lo > root {
        j == root
    } else if lo <= j || j < 0 {
        false
    } else {
        reached(nodes, root, j, lo + 1) || (reached(nodes, root, lo, lo + 1)
            && uses(nodes, lo, j))
    }
}

/// `j` is reachable from `root` through operand links.
pub open spec fn reaches(nodes: Seq<NodeView>, root: int, j: int) -> bool {
    0 <= j <= root && reached(nodes, root, j, j + 1)
}

/// The gradient of node `j` once every node in `lo..=root` that is reached
/// from `root` has applied its rule, from the highest index down.
pub open spec fn grad_upto(nodes: Seq<NodeView>, root: int, j: int, lo: int) -> i64
    decreases root - j, root + 1 - lo,
{
    if lo > root || lo <= j || j < 0 {
        nodes[j].grad
    } else {
        let acc = grad_upto(nodes, root, j, lo + 1);
        if reached(nodes, root, lo, lo + 1) {
            pass_to(nodes, lo, j, acc, grad_upto(nodes, root, lo, lo + 1))
        } else {
            acc
        }
    }
}

/// The graph after a full pass from `root`: the gradient of each node `j` is
/// its former gradient plus the share of every reached consumer, each share
/// taken from that consumer's own final gradient.
pub open spec fn backprop(nodes: Seq<NodeView>, root: int) -> Seq<NodeView> {
    Seq::new(nodes.len(), |j: int| with_grad(nodes[j], grad_upto(nodes, root, j, j + 1)))
}

/// A node's share of gradient depends on the shape of the graph, not on the
/// other gradients it holds.
proof fn lemma_pass_to_shape(a: Seq<NodeView>, b: Seq<NodeView>, i: int, j: int, acc: i64, g: i64)
    requires
        well_formed(a),
        same_shape(a, b),
        0 <= i < a.len(),
    ensures
        pass_to(a, i, j, acc, g) == pass_to(b, i, j, acc, g),
{
    assert(node_ok(a, i));
    assert(with_grad(a[i], 0) == with_grad(b[i], 0));
    if a[i].prev.len() == 2 {
        let p0 = a[i].prev[0] as int;
        let p1 = a[i].prev[1] as int;
        assert(with_grad(a[p0], 0) == with_grad(b[p0], 0));
        assert(with_grad(a[p1], 0) == with_grad(b[p1], 0));
    }
}

impl Graph {
    /// What node `i`, whose gradient is `g`, adds to its operand at position `k`.
    fn local_term(&self, i: usize, k: usize, g: i64) -> (r: i64)
        requires
            i < self@.len(),
            k < 2,
            self@[i as int].prev.len() == 2,
        ensures
            r == term(self@, i as int, k as int, g),
    {
        proof { use_type_invariant(self); assert(node_ok(self@, i as int)); }
        match self.units[i].op {
            Some(Op::Mul(_)) => {
                let other = operand_at(&self.units[i].prev, 1 - k);
                self.units[other].value.wrapping_mul(g)
            },
            _ => g,
        }
    }

    /// Applies the local-gradient rule of node `id` once: each operand's
    /// gradient grows by its share of the gradient of `id`.
    pub fn backward(&mut self, id: usize)
        requires
            id < old(self)@.len(),
        ensures
            final(self)@ == step(old(self)@, id as int),
    {
        proof { use_type_invariant(&*self); assert(node_ok(self@, id as int)); }
        let ghost nodes = self@;
        let m = operands_len(&self.units[id].prev);
        let g = self.units[id].grad;
        if m > 0 {
            let j = operand_at(&self.units[id].prev, 0);
            let t = self.local_term(id, 0, g);
            let cur = self.units[j].grad;
            self.set_grad(j, cur.wrapping_add(t));
        }
        let ghost mid = self@;
        assert(mid[id as int] == nodes[id as int]);
        assert(self.units@.len() == mid.len());
        if m > 1 {
            let j = operand_at(&self.units[id].prev, 1);
            proof {
                assert(same_shape(nodes, mid)) by {
                    assert forall|i: int| 0 <= i < nodes.len() implies #[trigger] with_grad(nodes[i], 0)
                        == with_grad(mid[i], 0) by {}
                }
            }
            let t = self.local_term(id, 1, g);
            let cur = self.units[j].grad;
            self.set_grad(j, cur.wrapping_add(t));
        }
        assert(self@ =~= step(nodes, id as int));
    }

    /// For each node, whether it is reachable from `root`.
    pub(crate) fn reach_marks(&self, root: usize) -> (marks: Vec<bool>)
        requires
            root < self@.len(),
        ensures
            marks@.len() == self@.len(),
            forall|j: int| 0 <= j < self@.len() ==> marks@[j] == reaches(self@, root as int, j),
    {
        proof { use_type_invariant(self); }
        let ghost nodes = self@;
        let n = self.units.len();
        let mut marks: Vec<bool> = Vec::new();
        let mut j: usize = 0;
        while j < n
            invariant
                j <= n,
                marks@.len() == j,
                forall|k: int| 0 <= k < j ==> marks@[k] == (k == root),
            decreases n - j,
        {
            marks.push(j == root);
            j += 1;
        }
        let mut i: usize = root + 1;
        while i > 0
            invariant
                i <= root + 1,
                root < n,
                n == nodes.len(),
                nodes == self@,
                well_formed(nodes),
                marks@.len() == n,
                forall|j: int|
                    0 <= j < n ==> #[trigger] marks@[j] == if j >= i {
                        reaches(nodes, root as int, j)
                    } else {
                        reached(nodes, root as int, j, i as int)
                    },
            decreases i,
        {
            i -= 1;
            proof { assert(node_ok(nodes, i as int)); }
            if marks[i] {
                let m = operands_len(&self.units[i].prev);
                if m > 0 {
                    let j = operand_at(&self.units[i].prev, 0);
                    marks.set(j, true);
                }
                if m > 1 {
                    let j = operand_at(&self.units[i].prev, 1);
                    marks.set(j, true);
                }
            }
            proof {
                assert forall|j: int| 0 <= j < n implies #[trigger] marks@[j] == if j >= i {
                    reaches(nodes, root as int, j)
                } else {
                    reached(nodes, root as int, j, i as int)
                } by {
                    if j < i {
                        if uses(nodes, i as int, j) {
                            let k = choose|k: int| 0 <= k < nodes[i as int].prev.len() && nodes[i as int].prev[k] == j;
                        }
                    }
                }
            }
        }
        marks
    }

    /// Runs a full gradient pass from `root`, whose gradient the caller has
    /// seeded: every node reachable from `root`, from the highest index down,
    /// adds its share of its own gradient to its operands' gradients. Nothing
    /// is reset first, so a second pass adds to the first.
    pub fn traverse_backward(&mut self, root: usize)
        requires
            root < old(self)@.len(),
        ensures
            final(self)@ == backprop(old(self)@, root as int),
    {
        proof { use_type_invariant(&*self); }
        let ghost nodes = self@;
        let marks = self.reach_marks(root);
        let n = self.units.len();
        assert(n == nodes.len());
        let mut i: usize = root + 1;
        while i > 0
            invariant
                i <= root + 1,
                root < nodes.len(),
                marks@.len() == nodes.len(),
                forall|j: int| 0 <= j < nodes.len() ==> marks@[j] == reaches(nodes, root as int, j),
                well_formed(nodes),
                same_shape(nodes, self@),
                forall|j: int|
                    0 <= j < nodes.len() ==> #[trigger] self@[j].grad == if j >= i {
                        grad_upto(nodes, root as int, j, j + 1)
                    } else {
                        grad_upto(nodes, root as int, j, i as int)
                    },
            decreases i,
        {
            i -= 1;
            let ghost cur = self@;
            proof { assert(node_ok(nodes, i as int)); }
            if marks[i] {
                self.backward(i);
            }
            proof {
                assert forall|j: int| 0 <= j < nodes.len() implies #[trigger] with_grad(nodes[j], 0)
                    == with_grad(self@[j], 0) by {
                    assert(with_grad(nodes[j], 0) == with_grad(cur[j], 0));
                }
                assert forall|j: int| 0 <= j < nodes.len() implies #[trigger] self@[j].grad == if j >= i {
                    grad_upto(nodes, root as int, j, j + 1)
                } else {
                    grad_upto(nodes, root as int, j, i as int)
                } by {
                    assert(with_grad(nodes[i as int], 0) == with_grad(cur[i as int], 0));
                    lemma_pass_to_shape(nodes, cur, i as int, j, cur[j].grad, cur[i as int].grad);
                    if j < i {
                        assert(grad_upto(nodes, root as int, j, i as int) == if marks@[i as int] {
                            pass_to(nodes, i as int, j, cur[j].grad, cur[i as int].grad)
                        } else {
                            cur[j].grad
                        });
                    }
                }
            }
        }
        assert forall|j: int| 0 <= j < nodes.len() implies self@[j] == #[trigger] backprop(
            nodes,
            root as int,
        )[j] by {
            assert(with_grad(nodes[j], 0) == with_grad(self@[j], 0));
            assert(self@[j].grad == grad_upto(nodes, root as int, j, j + 1));
            assert(self@[j] == with_grad(nodes[j], self@[j].grad));
        }
        assert(self@ =~= backprop(nodes, root as int));
    }
}

} // verus!
