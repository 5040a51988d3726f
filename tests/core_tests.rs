use arrayvec::ArrayVec;
use majin::{Graph, GraphError, Op, Unit};

fn children(a: usize, b: usize) -> ArrayVec<usize, 2> {
    let mut c = ArrayVec::new();
    c.push(a);
    c.push(b);
    c
}

#[test]
fn test_addition() {
    let mut g = Graph::new();
    let a = g.leaf(5, "a");
    let b = g.leaf(10, "b");
    let result = g.add(a, b);
    let ans = Unit::with_child(15, children(a, b), Op::Add('+'), "result");
    assert_eq!(*g.unit(result), ans);
}

#[test]
fn test_multiplication() {
    let mut g = Graph::new();
    let a = g.leaf(3, "a");
    let b = g.leaf(4, "b");
    let result = g.mul(a, b);
    let ans = Unit::with_child(12, children(a, b), Op::Mul('*'), "result");
    assert_eq!(*g.unit(result), ans);
}

#[test]
fn test_all() {
    let mut g = Graph::new();
    let a = g.leaf(2, "a");
    let b = g.leaf(-3, "b");
    let c = g.leaf(10, "c");
    let ab = g.mul(a, b);
    let result = g.add(ab, c);
    let ans = Unit::with_child(4, children(ab, c), Op::Add('+'), "result");
    assert_eq!(*g.unit(result), ans);
    assert_eq!(g.unit(ab).value, -6);
}

#[test]
fn test_backward() {
    let mut g = Graph::new();
    let a = g.leaf(2, "a");
    let b = g.leaf(-3, "b");
    let c = g.leaf(10, "c");
    let intermediate = g.mul(a, b);
    let result = g.add(intermediate, c);
    g.seed_root(result);
    g.backward(result);
    g.backward(intermediate);
    assert_eq!(g.unit(result).grad, 1);
    assert_eq!(g.unit(intermediate).grad, 1);
    assert_eq!(g.unit(c).grad, 1);
    assert_eq!(g.unit(a).grad, -3);
    assert_eq!(g.unit(b).grad, 2);
}

#[test]
fn test_complex1_backward() {
    let mut g = Graph::new();
    let a = g.leaf(2, "a");
    let b = g.leaf(-3, "b");
    let c = g.leaf(10, "c");
    let d = g.leaf(5, "d");
    let intermediate1 = g.mul(a, b); // -6
    let intermediate2 = g.add(c, d); // 15
    let result = g.mul(intermediate1, intermediate2);
    g.seed_root(result);
    g.backward(result);
    g.backward(intermediate1);
    g.backward(intermediate2);
    assert_eq!(g.unit(result).grad, 1);
    assert_eq!(g.unit(intermediate1).grad, 15);
    assert_eq!(g.unit(intermediate2).grad, -6);
    assert_eq!(g.unit(a).grad, -45);
    assert_eq!(g.unit(b).grad, 30);
    assert_eq!(g.unit(c).grad, -6);
    assert_eq!(g.unit(d).grad, -6);
}

#[test]
fn test_operation_enum() {
    let add_op = Op::Add('+');
    let mul_op = Op::Mul('*');

    assert_eq!(add_op, Op::Add('+'));
    assert_eq!(mul_op, Op::Mul('*'));
}

#[test]
fn leaf_starts_with_zero_gradient_and_no_operands() {
    let u = Unit::new(7, "x");
    assert_eq!(u.value, 7);
    assert_eq!(u.grad, 0);
    assert!(u.prev.is_empty());
    assert_eq!(u.op, None);
    assert_eq!(u.label, "x");
}

#[test]
fn apply_computes_value_and_links_operands() {
    let mut g = Graph::new();
    let x = g.leaf(6, "x");
    let y = g.leaf(7, "y");
    let s = g.apply(Op::Add('+'), &[x, y], "s").unwrap();
    let p = g.apply(Op::Mul('*'), &[s, y], "p").unwrap();
    assert_eq!(g.unit(s).value, 13);
    assert_eq!(g.unit(p).value, 91);
    assert_eq!(g.unit(p).prev.as_slice(), &[s, y]);
    assert_eq!(g.unit(p).label, "p");
    assert_eq!(g.len(), 4);
}

#[test]
fn apply_rejects_operations_without_an_integer_rule() {
    let mut g = Graph::new();
    let x = g.leaf(1, "x");
    assert_eq!(g.apply(Op::Tanh('t'), &[x], "t"), Err(GraphError::Unsupported));
    assert_eq!(g.apply(Op::Sigmoid('s'), &[x], "s"), Err(GraphError::Unsupported));
    assert_eq!(g.apply(Op::Relu('r'), &[x], "r"), Err(GraphError::Unsupported));
    assert_eq!(g.len(), 1);
}

#[test]
fn apply_rejects_wrong_arity() {
    let mut g = Graph::new();
    let x = g.leaf(1, "x");
    assert_eq!(g.apply(Op::Add('+'), &[x], "s"), Err(GraphError::Arity));
    assert_eq!(g.apply(Op::Mul('*'), &[x, x, x], "p"), Err(GraphError::Arity));
    assert_eq!(g.apply(Op::Mul('*'), &[], "p"), Err(GraphError::Arity));
    assert_eq!(g.len(), 1);
}

#[test]
fn apply_rejects_unknown_operands() {
    let mut g = Graph::new();
    let x = g.leaf(1, "x");
    assert_eq!(g.apply(Op::Add('+'), &[x, 1], "s"), Err(GraphError::UnknownOperand));
    assert_eq!(g.apply(Op::Mul('*'), &[5, x], "p"), Err(GraphError::UnknownOperand));
    assert_eq!(g.len(), 1);
}

#[test]
fn arithmetic_wraps() {
    let mut g = Graph::new();
    let m = g.leaf(i64::MAX, "max");
    let one = g.leaf(1, "one");
    let two = g.leaf(2, "two");
    let s = g.add(m, one);
    let p = g.mul(m, two);
    assert_eq!(g.unit(s).value, i64::MIN);
    assert_eq!(g.unit(p).value, -2);
}

#[test]
fn add_step_gives_each_operand_the_seed() {
    let mut g = Graph::new();
    let x = g.leaf(4, "x");
    let y = g.leaf(9, "y");
    let r = g.add(x, y);
    g.seed_root(r);
    g.backward(r);
    assert_eq!(g.unit(x).grad, 1);
    assert_eq!(g.unit(y).grad, 1);
}

#[test]
fn mul_step_swaps_operand_values() {
    let mut g = Graph::new();
    let x = g.leaf(4, "x");
    let y = g.leaf(9, "y");
    let r = g.mul(x, y);
    g.seed_root(r);
    g.backward(r);
    assert_eq!(g.unit(x).grad, 9);
    assert_eq!(g.unit(y).grad, 4);
}

#[test]
fn step_accumulates_instead_of_overwriting() {
    let mut g = Graph::new();
    let x = g.leaf(4, "x");
    let y = g.leaf(9, "y");
    let r = g.mul(x, y);
    g.seed_root(r);
    g.backward(r);
    g.backward(r);
    assert_eq!(g.unit(x).grad, 18);
    assert_eq!(g.unit(y).grad, 8);
}

#[test]
fn chain_rule_over_depth() {
    let mut g = Graph::new();
    let a = g.leaf(2, "a");
    let b = g.leaf(-3, "b");
    let c = g.leaf(10, "c");
    let ab = g.mul(a, b);
    let r = g.add(ab, c);
    assert_eq!(g.unit(r).value, 4);
    g.seed_root(r);
    g.traverse_backward(r);
    assert_eq!(g.unit(a).grad, -3);
    assert_eq!(g.unit(b).grad, 2);
    assert_eq!(g.unit(c).grad, 1);
    assert_eq!(g.unit(ab).grad, 1);
    assert_eq!(g.unit(r).grad, 1);
}

#[test]
fn full_pass_matches_stepwise_pass() {
    let mut g = Graph::new();
    let a = g.leaf(2, "a");
    let b = g.leaf(-3, "b");
    let c = g.leaf(10, "c");
    let d = g.leaf(5, "d");
    let i1 = g.mul(a, b);
    let i2 = g.add(c, d);
    let r = g.mul(i1, i2);
    g.seed_root(r);
    g.traverse_backward(r);
    assert_eq!(g.unit(i1).grad, 15);
    assert_eq!(g.unit(i2).grad, -6);
    assert_eq!(g.unit(a).grad, -45);
    assert_eq!(g.unit(b).grad, 30);
    assert_eq!(g.unit(c).grad, -6);
    assert_eq!(g.unit(d).grad, -6);
}

#[test]
fn shared_node_collects_both_shares() {
    let mut g = Graph::new();
    let x = g.leaf(3, "x");
    let y = g.leaf(4, "y");
    let s = g.add(x, y);
    let p = g.mul(s, s);
    assert_eq!(g.unit(p).value, 49);
    g.seed_root(p);
    g.traverse_backward(p);
    assert_eq!(g.unit(s).grad, 2 * g.unit(s).value);
    assert_eq!(g.unit(s).grad, 14);
    assert_eq!(g.unit(x).grad, 14);
    assert_eq!(g.unit(y).grad, 14);
}

#[test]
fn shared_node_through_two_consumers() {
    // r = (a * b) + (a * c): a is used by two different products
    let mut g = Graph::new();
    let a = g.leaf(2, "a");
    let b = g.leaf(5, "b");
    let c = g.leaf(7, "c");
    let ab = g.mul(a, b);
    let ac = g.mul(a, c);
    let r = g.add(ab, ac);
    g.seed_root(r);
    g.traverse_backward(r);
    assert_eq!(g.unit(a).grad, 12);
    assert_eq!(g.unit(b).grad, 2);
    assert_eq!(g.unit(c).grad, 2);
}

#[test]
fn pass_leaves_unreachable_nodes_alone() {
    let mut g = Graph::new();
    let x = g.leaf(3, "x");
    let y = g.leaf(4, "y");
    let other = g.mul(x, y);
    let r = g.add(x, x);
    g.seed_root(other);
    g.seed_root(r);
    g.traverse_backward(r);
    // `other` is not reachable from `r`: its seeded gradient stays and is not passed on
    assert_eq!(g.unit(other).grad, 1);
    assert_eq!(g.unit(x).grad, 2);
    assert_eq!(g.unit(y).grad, 0);
}

#[test]
fn unseeded_pass_yields_zero_gradients() {
    let mut g = Graph::new();
    let a = g.leaf(2, "a");
    let b = g.leaf(-3, "b");
    let r = g.mul(a, b);
    g.traverse_backward(r);
    assert_eq!(g.unit(a).grad, 0);
    assert_eq!(g.unit(b).grad, 0);
}

#[test]
fn second_pass_without_reset_doubles() {
    let mut g = Graph::new();
    let a = g.leaf(2, "a");
    let b = g.leaf(-3, "b");
    let r = g.mul(a, b);
    g.seed_root(r);
    g.traverse_backward(r);
    g.traverse_backward(r);
    assert_eq!(g.unit(a).grad, -6);
    assert_eq!(g.unit(b).grad, 4);
}

#[test]
fn reset_then_pass_twice_is_repeatable() {
    let mut g = Graph::new();
    let x = g.leaf(3, "x");
    let y = g.leaf(-4, "y");
    let s = g.add(x, y);
    let p = g.mul(s, x);
    let grads = |g: &Graph| (0..g.len()).map(|i| g.unit(i).grad).collect::<Vec<i64>>();
    g.reset_gradients();
    g.seed_root(p);
    g.traverse_backward(p);
    let first = grads(&g);
    g.reset_gradients();
    assert!(grads(&g).iter().all(|&v| v == 0));
    g.seed_root(p);
    g.traverse_backward(p);
    assert_eq!(grads(&g), first);
    assert_eq!(first, vec![2, 3, 3, 1]);
    assert_eq!(g.unit(s).value, -1);
}
