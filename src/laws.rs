//! Properties of graph construction, gradient passes and tracing, stated over
//! the models that the operations' contracts use.
use crate::engine::{backprop, grad_upto, reached, reaches, step, uses};
use crate::graph::{
    applied, node_ok, reset, same_shape, seed, supported, wadd, well_formed, with_grad, wmul,
    NodeView, Op,
};
use crate::viz::{traced_edges, traced_nodes};
use vstd::prelude::*;

verus! {

/// Node `j` is reached from `root` exactly when some reached node between
/// `lo` and `root` has it as an operand.
proof fn lemma_reached_exists(nodes: Seq<NodeView>, root: int, j: int, lo: int)
    requires
        0 <= j < lo <= root + 1,
        j < root,
    ensures
        reached(nodes, root, j, lo) <==> exists|i: int|
            lo <= i <= root && #[trigger] reached(nodes, root, i, i + 1) && uses(nodes, i, j),
    decreases root + 1 - lo,
{
    if lo <= root {
        lemma_reached_exists(nodes, root, j, lo + 1);
        if reached(nodes, root, j, lo) && !reached(nodes, root, j, lo + 1) {
            assert(reached(nodes, root, lo, lo + 1) && uses(nodes, lo, j));
        }
        if exists|i: int|
            lo <= i <= root && #[trigger] reached(nodes, root, i, i + 1) && uses(nodes, i, j) {
            let i = choose|i: int|
                lo <= i <= root && #[trigger] reached(nodes, root, i, i + 1) && uses(nodes, i, j);
            if i > lo {
                assert(reached(nodes, root, j, lo + 1));
            }
        }
    }
}

/// A node other than `root` is reachable from `root` exactly when a
/// reachable node above it has it as an operand.
pub proof fn lemma_reaches_unfold(nodes: Seq<NodeView>, root: int, j: int)
    requires
        0 <= j < root,
    ensures
        reaches(nodes, root, j) <==> exists|i: int|
            j < i <= root && #[trigger] reaches(nodes, root, i) && uses(nodes, i, j),
{
    lemma_reached_exists(nodes, root, j, j + 1);
    if reaches(nodes, root, j) {
        let i = choose|i: int|
            j + 1 <= i <= root && #[trigger] reached(nodes, root, i, i + 1) && uses(nodes, i, j);
        assert(reaches(nodes, root, i));
    }
    if exists|i: int|
        j < i <= root && #[trigger] reaches(nodes, root, i) && uses(nodes, i, j) {
        let i = choose|i: int|
            j < i <= root && #[trigger] reaches(nodes, root, i) && uses(nodes, i, j);
        assert(reached(nodes, root, i, i + 1));
    }
}

/// An operand of a reachable node is reachable.
pub proof fn lemma_reaches_operand(nodes: Seq<NodeView>, root: int, i: int, j: int)
    requires
        well_formed(nodes),
        root < nodes.len(),
        reaches(nodes, root, i),
        0 <= j < nodes.len(),
        uses(nodes, i, j),
    ensures
        reaches(nodes, root, j),
{
    assert(node_ok(nodes, i));
    let k = choose|k: int| 0 <= k < nodes[i].prev.len() && nodes[i].prev[k] == j;
    assert(j < i);
    lemma_reaches_unfold(nodes, root, j);
}

/// Only a leaf itself is reachable from a leaf.
pub proof fn lemma_leaf_reaches(nodes: Seq<NodeView>, a: int, j: int)
    requires
        0 <= a < nodes.len(),
        nodes[a].prev.len() == 0,
    ensures
        reaches(nodes, a, j) <==> j == a,
    decreases a - j,
{
    if 0 <= j < a {
        lemma_reaches_unfold(nodes, a, j);
        if reaches(nodes, a, j) {
            let i = choose|i: int|
                j < i <= a && #[trigger] reaches(nodes, a, i) && uses(nodes, i, j);
            if i < a {
                lemma_leaf_reaches(nodes, a, i);
            }
        }
    }
}

/// `g` extends `base` with nodes whose operands below `base.len()` are `x`
/// or `y`, and `x` and `y` are reachable from `r`: then below `base.len()`,
/// exactly the nodes that `base` reaches from `x` or `y` are reachable.
proof fn lemma_reach_entry(base: Seq<NodeView>, g: Seq<NodeView>, r: int, x: int, y: int, j: int)
    requires
        well_formed(base),
        well_formed(g),
        base.len() <= r < g.len(),
        forall|i: int| 0 <= i < base.len() ==> (#[trigger] g[i]).prev == base[i].prev,
        0 <= x < base.len(),
        0 <= y < base.len(),
        reaches(g, r, x),
        reaches(g, r, y),
        forall|i: int, k: int|
            base.len() <= i <= r && reaches(g, r, i) && 0 <= k < g[i].prev.len() && g[i].prev[k]
                < base.len() ==> #[trigger] g[i].prev[k] == x || g[i].prev[k] == y,
        0 <= j < base.len(),
    ensures
        reaches(g, r, j) <==> reaches(base, x, j) || reaches(base, y, j),
    decreases base.len() - j,
{
    assert forall|i: int| j < i < base.len() implies (reaches(g, r, i) <==> reaches(base, x, i)
        || reaches(base, y, i)) by {
        lemma_reach_entry(base, g, r, x, y, i);
    }
    lemma_reaches_unfold(g, r, j);
    if reaches(g, r, j) {
        let i = choose|i: int|
            j < i <= r && #[trigger] reaches(g, r, i) && uses(g, i, j);
        let k = choose|k: int| 0 <= k < g[i].prev.len() && g[i].prev[k] == j;
        if i < base.len() {
            assert(base[i].prev[k] == j);
            if reaches(base, x, i) {
                lemma_reaches_operand(base, x, i, j);
            } else {
                lemma_reaches_operand(base, y, i, j);
            }
        } else {
            assert(g[i].prev[k] == x || g[i].prev[k] == y);
            assert(reaches(base, x, x));
            assert(reaches(base, y, y));
        }
    }
    if reaches(base, x, j) && j != x {
        lemma_reaches_unfold(base, x, j);
        let i = choose|i: int|
            j < i <= x && #[trigger] reaches(base, x, i) && uses(base, i, j);
        assert(uses(g, i, j));
        lemma_reaches_operand(g, r, i, j);
    }
    if reaches(base, y, j) && j != y {
        lemma_reaches_unfold(base, y, j);
        let i = choose|i: int|
            j < i <= y && #[trigger] reaches(base, y, i) && uses(base, i, j);
        assert(uses(g, i, j));
        lemma_reaches_operand(g, r, i, j);
    }
}

/// Multiplying by one and adding zero change nothing.
proof fn lemma_wrap_identity(v: i64)
    ensures
        wmul(v, 1) == v,
        wadd(0, v) == v,
{
    let r = 0x1_0000_0000_0000_0000int;
    let w = v as int;
    assert(w * 1 == w);
    if w >= 0 {
        assert(w % r == w) by (nonlinear_arith)
            requires 0 <= w < r;
    } else {
        assert(w % r == w + r) by (nonlinear_arith)
            requires -r < w < 0;
    }
}

/// Adding a value to itself doubles it.
proof fn lemma_wrap_double(v: i64)
    ensures
        wadd(v, v) == wmul(2, v),
{
    let r = 0x1_0000_0000_0000_0000int;
    let d = 2 * v;
    if d >= 0 {
        assert(d % r == d) by (nonlinear_arith)
            requires 0 <= d < r;
    } else if d > -r {
        assert(d % r == d + r) by (nonlinear_arith)
            requires -r < d < 0;
    } else {
        assert(d == -r);
        assert(d % r == 0);
    }
}

/// Appending a node that applies a supported operation to existing nodes
/// keeps the graph well formed.
proof fn lemma_push_applied(nodes: Seq<NodeView>, op: Op, a: usize, b: usize, label: Seq<char>)
    requires
        well_formed(nodes),
        supported(op),
        a < nodes.len(),
        b < nodes.len(),
    ensures
        well_formed(nodes.push(applied(nodes, op, a as int, b as int, label))),
{
    let g = nodes.push(applied(nodes, op, a as int, b as int, label));
    assert forall|i: int| 0 <= i < g.len() implies #[trigger] node_ok(g, i) by {
        if i < nodes.len() {
            assert(node_ok(nodes, i));
        }
    }
}

/// Changing gradients keeps the graph well formed.
proof fn lemma_shape_well_formed(a: Seq<NodeView>, b: Seq<NodeView>)
    requires
        well_formed(a),
        same_shape(a, b),
    ensures
        well_formed(b),
{
    assert forall|i: int| 0 <= i < b.len() implies #[trigger] node_ok(b, i) by {
        assert(node_ok(a, i));
        assert(with_grad(a[i], 0) == with_grad(b[i], 0));
        if b[i].prev.len() == 2 {
            let p0 = b[i].prev[0] as int;
            let p1 = b[i].prev[1] as int;
            assert(with_grad(a[p0], 0) == with_grad(b[p0], 0));
            assert(with_grad(a[p1], 0) == with_grad(b[p1], 0));
        }
    }
}

/// For `r = x + y` with `r`'s gradient seeded to one, one application of
/// `r`'s rule gives both `x` and `y` gradient one (from zero).
pub proof fn lemma_add_step(nodes: Seq<NodeView>, x: usize, y: usize)
    requires
        well_formed(nodes),
        x < nodes.len(),
        y < nodes.len(),
        x != y,
        nodes[x as int].grad == 0,
        nodes[y as int].grad == 0,
    ensures
        ({
            let r = nodes.len() as int;
            let after = step(seed(nodes.push(applied(nodes, Op::Add('+'), x as int, y as int, "result"@)), r), r);
            after[x as int].grad == 1 && after[y as int].grad == 1
        }),
{
    lemma_wrap_identity(1);
}

/// For `r = x * y` with `r`'s gradient seeded to one, one application of
/// `r`'s rule gives `x` the value of `y` as gradient and `y` the value of
/// `x` (from zero).
pub proof fn lemma_mul_step(nodes: Seq<NodeView>, x: usize, y: usize)
    requires
        well_formed(nodes),
        x < nodes.len(),
        y < nodes.len(),
        x != y,
        nodes[x as int].grad == 0,
        nodes[y as int].grad == 0,
    ensures
        ({
            let r = nodes.len() as int;
            let after = step(seed(nodes.push(applied(nodes, Op::Mul('*'), x as int, y as int, "result"@)), r), r);
            after[x as int].grad == nodes[y as int].value && after[y as int].grad == nodes[x as int].value
        }),
{
    lemma_wrap_identity(nodes[x as int].value);
    lemma_wrap_identity(nodes[y as int].value);
}

/// Between `lo` and `hi`, no reached node has `j` as an operand: the
/// gradient of `j` is the same before and after those nodes apply their rules.
proof fn lemma_no_consumer_between(g: Seq<NodeView>, root: int, j: int, lo: int, hi: int)
    requires
        0 <= j < lo <= hi <= root + 1,
        forall|i: int| lo <= i < hi && #[trigger] reached(g, root, i, i + 1) ==> !uses(g, i, j),
    ensures
        grad_upto(g, root, j, lo) == grad_upto(g, root, j, hi),
    decreases hi - lo,
{
    if lo < hi {
        lemma_no_consumer_between(g, root, j, lo + 1, hi);
        if reached(g, root, lo, lo + 1) {
            let p = g[lo].prev;
            if p.len() > 0 && p[0] == j {
                assert(uses(g, lo, j));
            }
            if p.len() > 1 && p[1] == j {
                assert(uses(g, lo, j));
            }
        }
    }
}

/// Below the two appended nodes of the shared-node graph, the only reached
/// consumer of `x` is `s`.
proof fn lemma_shared_entry(nodes: Seq<NodeView>, g: Seq<NodeView>, x: usize, y: usize)
    requires
        well_formed(nodes),
        well_formed(g),
        g.len() == nodes.len() + 2,
        nodes.len() + 2 <= usize::MAX,
        forall|i: int| 0 <= i < nodes.len() ==> (#[trigger] g[i]).prev == nodes[i].prev,
        g[nodes.len() as int].prev == seq![x, y] || g[nodes.len() as int].prev == seq![y, x],
        g[nodes.len() + 1int].prev == seq![nodes.len() as usize, nodes.len() as usize],
        x < nodes.len(),
        y < nodes.len(),
        !reaches(nodes, y as int, x as int),
    ensures
        forall|i: int|
            x < i < nodes.len() && #[trigger] reached(g, nodes.len() + 1int, i, i + 1) ==> !uses(
                g,
                i,
                x as int,
            ),
{
    let n = nodes.len() as int;
    let r = n + 1;
    assert(uses(g, r, n)) by {
        assert(g[r].prev[0] == n);
    }
    assert(reaches(g, r, r));
    lemma_reaches_operand(g, r, r, n);
    assert(uses(g, n, x as int)) by {
        if g[n].prev[0] != x {
            assert(g[n].prev[1] == x);
        }
    }
    assert(uses(g, n, y as int)) by {
        if g[n].prev[0] != y {
            assert(g[n].prev[1] == y);
        }
    }
    lemma_reaches_operand(g, r, n, x as int);
    lemma_reaches_operand(g, r, n, y as int);
    assert forall|i: int|
        x < i < n && #[trigger] reached(g, r, i, i + 1) implies !uses(g, i, x as int) by {
        assert forall|i2: int, k: int|
            n <= i2 <= r && reaches(g, r, i2) && 0 <= k < g[i2].prev.len() && g[i2].prev[k]
                < n implies #[trigger] g[i2].prev[k] == x || g[i2].prev[k] == y by {
            if i2 == n {
                assert(k == 0 || k == 1);
            }
        }
        lemma_reach_entry(nodes, g, r, x as int, y as int, i);
        assert(reaches(g, r, i));
        if uses(g, i, x as int) {
            let k = choose|k: int| 0 <= k < g[i].prev.len() && g[i].prev[k] == x;
            assert(nodes[i].prev[k] == x);
            assert(uses(nodes, i, x as int));
            if reaches(nodes, y as int, i) {
                lemma_reaches_operand(nodes, y as int, i, x as int);
            }
        }
    }
}

/// A sub-expression used twice collects a share from each use. For
/// `s = x + y` and `p = s * s` on a graph whose gradients are all zero, a pass
/// from `p` seeded with one gives `s` twice its own value, and `x` and `y`
/// each receive that whole gradient. Neither of `x`, `y` may reach the other,
/// or it would collect a second share through it.
pub proof fn lemma_shared_node(nodes: Seq<NodeView>, x: usize, y: usize)
    requires
        well_formed(nodes),
        nodes.len() + 2 <= usize::MAX,
        x < nodes.len(),
        y < nodes.len(),
        x != y,
        !reaches(nodes, x as int, y as int),
        !reaches(nodes, y as int, x as int),
        forall|i: int| 0 <= i < nodes.len() ==> #[trigger] nodes[i].grad == 0,
    ensures
        ({
            let s = nodes.len() as int;
            let g1 = nodes.push(applied(nodes, Op::Add('+'), x as int, y as int, "result"@));
            let g2 = g1.push(applied(g1, Op::Mul('*'), s, s, "result"@));
            let after = backprop(seed(g2, s + 1), s + 1);
            &&& after[s].grad == wmul(2, after[s].value)
            &&& after[x as int].grad == after[s].grad
            &&& after[y as int].grad == after[s].grad
        }),
{
    let n = nodes.len() as int;
    let r = n + 1;
    let g1 = nodes.push(applied(nodes, Op::Add('+'), x as int, y as int, "result"@));
    let g2 = g1.push(applied(g1, Op::Mul('*'), n, n, "result"@));
    let g = seed(g2, r);
    lemma_push_applied(nodes, Op::Add('+'), x, y, "result"@);
    lemma_push_applied(g1, Op::Mul('*'), n as usize, n as usize, "result"@);
    assert(same_shape(g2, g)) by {
        assert forall|i: int| 0 <= i < g2.len() implies #[trigger] with_grad(g2[i], 0) == with_grad(
            g[i],
            0,
        ) by {}
    }
    lemma_shape_well_formed(g2, g);
    assert forall|i: int| 0 <= i < nodes.len() implies (#[trigger] g[i]).prev == nodes[i].prev by {}
    assert(g[n].prev == seq![x, y]);
    assert(g[r].prev == seq![n as usize, n as usize]);
    // `s` collects one share from each operand position of `p`.
    let v = g[n].value;
    lemma_wrap_identity(v);
    lemma_wrap_double(v);
    assert(grad_upto(g, r, n, n + 2) == 0);
    assert(grad_upto(g, r, r, r + 1) == 1);
    assert(grad_upto(g, r, n, n + 1) == wmul(2, v));
    // `x` and `y` collect their share from `s` alone.
    let gs = grad_upto(g, r, n, n + 1);
    lemma_wrap_identity(gs);
    lemma_shared_entry(nodes, g, x, y);
    lemma_shared_entry(nodes, g, y, x);
    assert(nodes[x as int].grad == 0);
    assert(nodes[y as int].grad == 0);
    assert(grad_upto(g, r, x as int, n + 2) == 0);
    assert(grad_upto(g, r, y as int, n + 2) == 0);
    assert(grad_upto(g, r, x as int, n + 1) == 0);
    assert(grad_upto(g, r, y as int, n + 1) == 0);
    assert(reached(g, r, n, n + 1)) by {
        assert(uses(g, r, n)) by {
            assert(g[r].prev[0] == n);
        }
        assert(reaches(g, r, r));
        lemma_reaches_operand(g, r, r, n);
    }
    assert(grad_upto(g, r, x as int, n) == gs);
    assert(grad_upto(g, r, y as int, n) == gs);
    lemma_no_consumer_between(g, r, x as int, x + 1, n);
    lemma_no_consumer_between(g, r, y as int, y + 1, n);
}

/// Nodes are told apart by identity, never by value: for `r` applied to two
/// distinct leaves `x` and `y` (which may hold equal values), a trace from `r`
/// holds exactly the three nodes `x`, `y` and `r`.
pub proof fn lemma_trace_distinct_leaves(
    nodes: Seq<NodeView>,
    x: usize,
    y: usize,
    op: Op,
    label: Seq<char>,
)
    requires
        well_formed(nodes),
        nodes.len() + 1 <= usize::MAX,
        x < nodes.len(),
        y < nodes.len(),
        x != y,
        nodes[x as int].prev.len() == 0,
        nodes[y as int].prev.len() == 0,
        supported(op),
    ensures
        ({
            let r = nodes.len() as int;
            let g = nodes.push(applied(nodes, op, x as int, y as int, label));
            &&& traced_nodes(g, r) == set![x, y, r as usize]
            &&& traced_nodes(g, r).len() == 3
        }),
{
    let n = nodes.len() as int;
    let g = nodes.push(applied(nodes, op, x as int, y as int, label));
    lemma_push_applied(nodes, op, x, y, label);
    assert(reaches(g, n, n));
    assert(uses(g, n, x as int)) by {
        assert(g[n].prev[0] == x);
    }
    assert(uses(g, n, y as int)) by {
        assert(g[n].prev[1] == y);
    }
    lemma_reaches_operand(g, n, n, x as int);
    lemma_reaches_operand(g, n, n, y as int);
    assert forall|i: int| 0 <= i < nodes.len() implies (#[trigger] g[i]).prev == nodes[i].prev by {}
    assert forall|i2: int, k: int|
        n <= i2 <= n && reaches(g, n, i2) && 0 <= k < g[i2].prev.len() && g[i2].prev[k]
            < n implies #[trigger] g[i2].prev[k] == x || g[i2].prev[k] == y by {
        assert(k == 0 || k == 1);
    }
    assert forall|j: usize| #[trigger] traced_nodes(g, n).contains(j) <==> set![x, y, n as usize].contains(j) by {
        if j < n {
            lemma_reach_entry(nodes, g, n, x as int, y as int, j as int);
            lemma_leaf_reaches(nodes, x as int, j as int);
            lemma_leaf_reaches(nodes, y as int, j as int);
        }
    }
    assert(traced_nodes(g, n) =~= set![x, y, n as usize]);
}

/// A diamond, one leaf `a` feeding two consumers `b` and `c` which both feed
/// `d`, traces to exactly four nodes and four edges from `d`; `a`, used twice
/// by each of `b` and `c`, still gives one edge to each.
pub proof fn lemma_trace_diamond(
    nodes: Seq<NodeView>,
    a: usize,
    ops: (Op, Op, Op),
    labels: (Seq<char>, Seq<char>, Seq<char>),
)
    requires
        well_formed(nodes),
        nodes.len() + 3 <= usize::MAX,
        a < nodes.len(),
        nodes[a as int].prev.len() == 0,
        supported(ops.0),
        supported(ops.1),
        supported(ops.2),
    ensures
        ({
            let b = nodes.len() as int;
            let g1 = nodes.push(applied(nodes, ops.0, a as int, a as int, labels.0));
            let g2 = g1.push(applied(g1, ops.1, a as int, a as int, labels.1));
            let g3 = g2.push(applied(g2, ops.2, b, b + 1, labels.2));
            let (bu, cu, du) = (b as usize, (b + 1) as usize, (b + 2) as usize);
            &&& traced_nodes(g3, b + 2) == set![a, bu, cu, du]
            &&& traced_nodes(g3, b + 2).len() == 4
            &&& traced_edges(g3, b + 2) == set![(a, bu), (a, cu), (bu, du), (cu, du)]
            &&& traced_edges(g3, b + 2).len() == 4
        }),
{
    let b = nodes.len() as int;
    let d = b + 2;
    let g1 = nodes.push(applied(nodes, ops.0, a as int, a as int, labels.0));
    let g2 = g1.push(applied(g1, ops.1, a as int, a as int, labels.1));
    let g3 = g2.push(applied(g2, ops.2, b, b + 1, labels.2));
    let (bu, cu, du) = (b as usize, (b + 1) as usize, (b + 2) as usize);
    lemma_push_applied(nodes, ops.0, a, a, labels.0);
    lemma_push_applied(g1, ops.1, a, a, labels.1);
    lemma_push_applied(g2, ops.2, bu, cu, labels.2);
    assert(reaches(g3, d, d));
    assert(uses(g3, d, b)) by {
        assert(g3[d].prev[0] == b);
    }
    assert(uses(g3, d, b + 1)) by {
        assert(g3[d].prev[1] == b + 1);
    }
    assert(uses(g3, b, a as int)) by {
        assert(g3[b].prev[0] == a);
    }
    assert(uses(g3, b + 1, a as int)) by {
        assert(g3[b + 1].prev[0] == a);
    }
    lemma_reaches_operand(g3, d, d, b);
    lemma_reaches_operand(g3, d, d, b + 1);
    lemma_reaches_operand(g3, d, b, a as int);
    assert forall|i: int| 0 <= i < nodes.len() implies (#[trigger] g3[i]).prev == nodes[i].prev by {}
    assert forall|i2: int, k: int|
        b <= i2 <= d && reaches(g3, d, i2) && 0 <= k < g3[i2].prev.len() && g3[i2].prev[k]
            < b implies #[trigger] g3[i2].prev[k] == a || g3[i2].prev[k] == a by {
        assert(k == 0 || k == 1);
    }
    assert forall|j: int| 0 <= j < b implies (reaches(g3, d, j) <==> j == a) by {
        lemma_reach_entry(nodes, g3, d, a as int, a as int, j);
        lemma_leaf_reaches(nodes, a as int, j);
    }
    assert(traced_nodes(g3, d) =~= set![a, bu, cu, du]);
    assert forall|e: (usize, usize)| #[trigger] traced_edges(g3, d).contains(e) <==> set![
        (a, bu),
        (a, cu),
        (bu, du),
        (cu, du),
    ].contains(e) by {
        if traced_edges(g3, d).contains(e) {
            let k = choose|k: int| 0 <= k < g3[e.1 as int].prev.len() && g3[e.1 as int].prev[k] == e.0;
            if e.1 < b {
                assert(e.1 == a);
            }
        }
    }
    assert(traced_edges(g3, d) =~= set![(a, bu), (a, cu), (bu, du), (cu, du)]);
}

/// A pass from reset gradients can be repeated: reset, seed and run a pass,
/// then reset, seed and run it again, and the second run leaves exactly what
/// the first did.
pub proof fn lemma_repeat_pass(nodes: Seq<NodeView>, root: int)
    requires
        0 <= root < nodes.len(),
    ensures
        ({
            let first = backprop(seed(reset(nodes), root), root);
            backprop(seed(reset(first), root), root) == first
        }),
{
    let first = backprop(seed(reset(nodes), root), root);
    assert(reset(first) =~= reset(nodes));
}

/// A pass from `root` changes no node that `root` does not reach.
pub proof fn lemma_pass_only_reached(nodes: Seq<NodeView>, root: int, j: int)
    requires
        well_formed(nodes),
        0 <= root < nodes.len(),
        0 <= j < nodes.len(),
        !reaches(nodes, root, j),
    ensures
        backprop(nodes, root)[j] == nodes[j],
{
    if j < root {
        assert forall|i: int| j + 1 <= i < root + 1 && #[trigger] reached(nodes, root, i, i + 1)
            implies !uses(nodes, i, j) by {
            if uses(nodes, i, j) {
                lemma_reaches_operand(nodes, root, i, j);
            }
        }
        lemma_no_consumer_between(nodes, root, j, j + 1, root + 1);
    }
}

} // verus!
