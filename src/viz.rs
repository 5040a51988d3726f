//! Extracting the structure of a graph: the nodes and the operand-to-consumer
//! edges reachable from a root, deduplicated by node identity.
use crate::engine::{reaches, uses};
use crate::graph::{Graph, NodeView, Op};
use crate::operands::{operand_at, operands_len};
use vstd::prelude::*;
use vstd::string::StringExecFns;

verus! {

/// The nodes reachable from `root`.
pub open spec fn traced_nodes(nodes: Seq<NodeView>, root: int) -> Set<usize> {
    Set::new(|j: usize| j < nodes.len() && reaches(nodes, root, j as int))
}

/// The pairs `(operand, consumer)` with the consumer reachable from `root`.
pub open spec fn traced_edges(nodes: Seq<NodeView>, root: int) -> Set<(usize, usize)> {
    Set::new(
        |e: (usize, usize)|
            e.1 < nodes.len() && reaches(nodes, root, e.1 as int) && uses(nodes, e.1 as int, e.0 as int),
    )
}

/// Walks the graph from `root`. Returns every reachable node once, from the
/// highest index down (so `root` first), and every `(operand, consumer)` pair
/// among them once, however many times the consumer uses the operand.
pub fn trace(graph: &Graph, root: usize) -> (r: (Vec<usize>, Vec<(usize, usize)>))
    requires
        root < graph@.len(),
    ensures
        r.0@.no_duplicates(),
        r.0@.to_set() == traced_nodes(graph@, root as int),
        r.0@.len() == traced_nodes(graph@, root as int).len(),
        forall|a: int, b: int| 0 <= a < b < r.0@.len() ==> r.0@[a] > r.0@[b],
        r.1@.no_duplicates(),
        r.1@.to_set() == traced_edges(graph@, root as int),
        r.1@.len() == traced_edges(graph@, root as int).len(),
{
    let ghost g = graph@;
    let marks = graph.reach_marks(root);
    let n = graph.len();
    let mut nodes: Vec<usize> = Vec::new();
    let mut edges: Vec<(usize, usize)> = Vec::new();
    let mut i: usize = root + 1;
    while i > 0
        invariant
            i <= root + 1,
            root < n,
            n == g.len(),
            g == graph@,
            marks@.len() == n,
            forall|j: int| 0 <= j < n ==> marks@[j] == reaches(g, root as int, j),
            forall|a: int, b: int| 0 <= a < b < nodes@.len() ==> nodes@[a] > nodes@[b],
            forall|a: int| 0 <= a < nodes@.len() ==> nodes@[a] >= i,
            forall|j: usize| #[trigger]
                nodes@.contains(j) <==> (i <= j && j < n && marks@[j as int]),
            edges@.no_duplicates(),
            forall|a: int| 0 <= a < edges@.len() ==> (#[trigger] edges@[a]).1 >= i,
            forall|e: (usize, usize)| #[trigger]
                edges@.contains(e) <==> (i <= e.1 && e.1 < n && marks@[e.1 as int] && uses(g, e.1 as int, e.0 as int)),
        decreases i,
    {
        i -= 1;
        if marks[i] {
            let ghost before = nodes@;
            nodes.push(i);
            proof {
                assert forall|j: usize| #[trigger] nodes@.contains(j) <==> (i <= j && j < n && marks@[j as int]) by {
                    if nodes@.contains(j) && j != i {
                        let a = choose|a: int| 0 <= a < nodes@.len() && nodes@[a] == j;
                        assert(a < before.len());
                        assert(before[a] == j);
                        assert(before.contains(j));
                    }
                    if i < j && j < n && marks@[j as int] {
                        assert(before.contains(j));
                        let a = choose|a: int| 0 <= a < before.len() && before[a] == j;
                        assert(nodes@[a] == j);
                    }
                    if j == i {
                        assert(nodes@[before.len() as int] == j);
                    }
                }
            }
            let u = graph.unit(i);
            let m = operands_len(&u.prev);
            let ghost e0 = edges@;
            if m > 0 {
                let p0 = operand_at(&u.prev, 0);
                edges.push((p0, i));
            }
            let ghost e1 = edges@;
            if m > 1 {
                let p0 = operand_at(&u.prev, 0);
                let p1 = operand_at(&u.prev, 1);
                if p1 != p0 {
                    edges.push((p1, i));
                }
            }
            proof {
                let p = g[i as int].prev;
                assert(edges@.no_duplicates()) by {
                    assert forall|a: int, b: int| 0 <= a < b < edges@.len() implies edges@[a] != edges@[b] by {
                        if b >= e0.len() && a < e0.len() {
                            assert(e0[a].1 >= i + 1);
                        }
                    }
                }
                assert forall|e: (usize, usize)| #[trigger] edges@.contains(e) <==> (i <= e.1 && e.1 < n
                    && marks@[e.1 as int] && uses(g, e.1 as int, e.0 as int)) by {
                    if edges@.contains(e) {
                        let a = choose|a: int| 0 <= a < edges@.len() && edges@[a] == e;
                        if a < e0.len() {
                            assert(e0.contains(e));
                        } else {
                            assert(p[0] == e.0 || p[1] == e.0);
                        }
                    }
                    if i < e.1 && e.1 < n && marks@[e.1 as int] && uses(g, e.1 as int, e.0 as int) {
                        assert(e0.contains(e));
                        let a = choose|a: int| 0 <= a < e0.len() && e0[a] == e;
                        assert(edges@[a] == e);
                    }
                    if e.1 == i && uses(g, i as int, e.0 as int) {
                        let k = choose|k: int| 0 <= k < p.len() && p[k] == e.0;
                        if k == 0 || p[1] == p[0] {
                            assert(edges@[e0.len() as int] == e);
                        } else {
                            assert(edges@[e1.len() as int] == e);
                        }
                    }
                }
            }
        }
    }
    proof {
        assert(nodes@.to_set() =~= traced_nodes(g, root as int));
        assert(edges@.to_set() =~= traced_edges(g, root as int));
        nodes@.unique_seq_to_set();
        edges@.unique_seq_to_set();
    }
    (nodes, edges)
}

/// The character of decimal digit `d`.
pub open spec fn digit_char(d: nat) -> char {
    if d == 0 { '0' }
    else if d == 1 { '1' }
    else if d == 2 { '2' }
    else if d == 3 { '3' }
    else if d == 4 { '4' }
    else if d == 5 { '5' }
    else if d == 6 { '6' }
    else if d == 7 { '7' }
    else if d == 8 { '8' }
    else { '9' }
}

/// The decimal digits of `n`, without leading zeros.
pub open spec fn decimal(n: nat) -> Seq<char>
    decreases n,
{
    if n < 10 {
        seq![digit_char(n)]
    } else {
        decimal(n / 10) + seq![digit_char(n % 10)]
    }
}

/// `v` in decimal, with a leading minus sign when negative.
pub open spec fn signed_decimal(v: int) -> Seq<char> {
    if v < 0 {
        seq!['-'] + decimal((-v) as nat)
    } else {
        decimal(v as nat)
    }
}

/// The lines that list nodes `ids`, one `Node <id>: Value: <value>` each.
pub open spec fn node_lines(nodes: Seq<NodeView>, ids: Seq<usize>) -> Seq<char>
    decreases ids.len(),
{
    if ids.len() == 0 {
        Seq::empty()
    } else {
        let id = ids.last();
        node_lines(nodes, ids.drop_last()) + "Node "@ + decimal(id as nat) + ": Value: "@
            + signed_decimal(nodes[id as int].value as int) + "\n"@
    }
}

/// The lines that list `edges`, one `<operand> -> <consumer>` each.
pub open spec fn edge_lines(edges: Seq<(usize, usize)>) -> Seq<char>
    decreases edges.len(),
{
    if edges.len() == 0 {
        Seq::empty()
    } else {
        let e = edges.last();
        edge_lines(edges.drop_last()) + decimal(e.0 as nat) + " -> "@ + decimal(e.1 as nat) + "\n"@
    }
}

/// The text dump of a traced graph: its nodes, a blank line, `Edges:`, then
/// its edges.
pub open spec fn ascii_dump(nodes: Seq<NodeView>, ids: Seq<usize>, edges: Seq<(usize, usize)>) -> Seq<char> {
    node_lines(nodes, ids) + "\nEdges:\n"@ + edge_lines(edges)
}

/// Appends the decimal digit `d`.
fn push_digit(s: &mut String, d: u64)
    requires
        d < 10,
    ensures
        final(s)@ == old(s)@ + seq![digit_char(d as nat)],
{
    let t = if d == 0 {
        proof { reveal_strlit("0"); }
        "0"
    } else if d == 1 {
        proof { reveal_strlit("1"); }
        "1"
    } else if d == 2 {
        proof { reveal_strlit("2"); }
        "2"
    } else if d == 3 {
        proof { reveal_strlit("3"); }
        "3"
    } else if d == 4 {
        proof { reveal_strlit("4"); }
        "4"
    } else if d == 5 {
        proof { reveal_strlit("5"); }
        "5"
    } else if d == 6 {
        proof { reveal_strlit("6"); }
        "6"
    } else if d == 7 {
        proof { reveal_strlit("7"); }
        "7"
    } else if d == 8 {
        proof { reveal_strlit("8"); }
        "8"
    } else {
        proof { reveal_strlit("9"); }
        "9"
    };
    assert(t@ =~= seq![digit_char(d as nat)]);
    s.append(t);
}

/// Appends `n` in decimal.
fn push_decimal(s: &mut String, n: u64)
    ensures
        final(s)@ == old(s)@ + decimal(n as nat),
    decreases n,
{
    if n >= 10 {
        push_decimal(s, n / 10);
        push_digit(s, n % 10);
        assert(final(s)@ =~= old(s)@ + decimal(n as nat));
    } else {
        push_digit(s, n);
    }
}

/// Appends `v` in decimal, with a minus sign when negative.
fn push_signed(s: &mut String, v: i64)
    ensures
        final(s)@ == old(s)@ + signed_decimal(v as int),
{
    if v < 0 {
        proof { reveal_strlit("-"); }
        s.append("-");
        let m = (-(v + 1)) as u64 + 1;
        push_decimal(s, m);
        assert(final(s)@ =~= old(s)@ + signed_decimal(v as int));
    } else {
        push_decimal(s, v as u64);
    }
}

/// A plain-text dump of the graph reachable from `root`: a line
/// `Node <id>: Value: <value>` per node, in the order of `trace`, then a
/// blank line, `Edges:`, and a line `<operand> -> <consumer>` per edge.
pub fn draw_ascii(graph: &Graph, root: usize) -> (r: String)
    requires
        root < graph@.len(),
    ensures
        exists|ids: Seq<usize>, edges: Seq<(usize, usize)>|
            {
                &&& ids.no_duplicates()
                &&& ids.to_set() == traced_nodes(graph@, root as int)
                &&& forall|a: int, b: int| 0 <= a < b < ids.len() ==> ids[a] > ids[b]
                &&& edges.no_duplicates()
                &&& edges.to_set() == traced_edges(graph@, root as int)
                &&& r@ == ascii_dump(graph@, ids, edges)
            },
{
    let (ids, edges) = trace(graph, root);
    assert forall|a: int| 0 <= a < ids@.len() implies ids@[a] < graph@.len() by {
        assert(ids@.to_set().contains(ids@[a]));
    }
    let mut out = String::new();
    let mut i: usize = 0;
    while i < ids.len()
        invariant
            i <= ids@.len(),
            forall|a: int| 0 <= a < ids@.len() ==> ids@[a] < graph@.len(),
            out@ == node_lines(graph@, ids@.take(i as int)),
        decreases ids@.len() - i,
    {
        let id = ids[i];
        let v = graph.unit(id).value;
        out.append("Node ");
        push_decimal(&mut out, id as u64);
        out.append(": Value: ");
        push_signed(&mut out, v);
        out.append("\n");
        proof {
            assert(ids@.take(i + 1).drop_last() =~= ids@.take(i as int));
        }
        i += 1;
    }
    assert(ids@.take(ids@.len() as int) =~= ids@);
    out.append("\nEdges:\n");
    let ghost head = out@;
    let mut k: usize = 0;
    while k < edges.len()
        invariant
            k <= edges@.len(),
            out@ == head + edge_lines(edges@.take(k as int)),
        decreases edges@.len() - k,
    {
        let e = edges[k];
        push_decimal(&mut out, e.0 as u64);
        out.append(" -> ");
        push_decimal(&mut out, e.1 as u64);
        out.append("\n");
        proof {
            assert(edges@.take(k + 1).drop_last() =~= edges@.take(k as int));
            assert(out@ =~= head + edge_lines(edges@.take(k + 1)));
        }
        k += 1;
    }
    assert(edges@.take(edges@.len() as int) =~= edges@);
    assert(out@ =~= ascii_dump(graph@, ids@, edges@));
    out
}

/// How a node's frame or an edge's line is drawn in the graph viewer.
#[derive(Debug, Eq, PartialEq, Clone, Copy, Structural)]
pub enum Stroke {
    Plain,
    Thick,
    Double,
}

/// Sums are drawn thick, products double, everything else plain.
pub fn stroke(op: Option<Op>) -> (r: Stroke)
    ensures
        r == match op {
            Some(Op::Add(_)) => Stroke::Thick,
            Some(Op::Mul(_)) => Stroke::Double,
            _ => Stroke::Plain,
        },
{
    match op {
        Some(Op::Add(_)) => Stroke::Thick,
        Some(Op::Mul(_)) => Stroke::Double,
        _ => Stroke::Plain,
    }
}

/// The symbol shown inside a node: `+` for a sum, `*` for a product, `?`
/// otherwise.
pub fn symbol(op: Option<Op>) -> (r: &'static str)
    ensures
        r@ == match op {
            Some(Op::Add(_)) => "+"@,
            Some(Op::Mul(_)) => "*"@,
            _ => "?"@,
        },
{
    match op {
        Some(Op::Add(_)) => "+",
        Some(Op::Mul(_)) => "*",
        _ => "?",
    }
}

/// An edge as the viewer draws it: the positions of its two ends in the
/// list of traced nodes, and the port that each end uses.
#[derive(Debug, Eq, PartialEq, Clone, Copy, Structural)]
pub struct Link {
    pub from: usize,
    pub from_port: usize,
    pub to: usize,
    pub to_port: usize,
}

/// How many ends of `links` sit at position `p`.
pub open spec fn ends_at(links: Seq<Link>, p: usize) -> nat
    decreases links.len(),
{
    if links.len() == 0 {
        0
    } else {
        let l = links.last();
        ends_at(links.drop_last(), p) + (if l.from == p { 1nat } else { 0nat }) + (if l.to == p {
            1nat
        } else {
            0nat
        })
    }
}

/// `a` is the first position of `x` in `ids`.
pub open spec fn first_at(ids: Seq<usize>, x: usize, a: int) -> bool {
    0 <= a < ids.len() && ids[a] == x && forall|b: int| 0 <= b < a ==> ids[b] != x
}

proof fn lemma_ends_at_bound(links: Seq<Link>, p: usize)
    ensures
        ends_at(links, p) <= 2 * links.len(),
    decreases links.len(),
{
    if links.len() > 0 {
        lemma_ends_at_bound(links.drop_last(), p);
    }
}

/// The first position of `x` in `ids`, if any.
fn position(ids: &Vec<usize>, x: usize) -> (r: Option<usize>)
    ensures
        match r {
            Some(a) => first_at(ids@, x, a as int),
            None => !ids@.contains(x),
        },
{
    let mut a: usize = 0;
    while a < ids.len()
        invariant
            a <= ids@.len(),
            forall|b: int| 0 <= b < a ==> ids@[b] != x,
        decreases ids@.len() - a,
    {
        if ids[a] == x {
            return Some(a);
        }
        a += 1;
    }
    None
}

/// Lays out the edges of a trace for the viewer. Each edge becomes a link
/// between the first positions of its two ends in `ids`; each end takes the
/// next free port of its node, counting the ends of all earlier links.
/// Returns `None` when an end of some edge is not in `ids`.
pub fn connection_ports(ids: &Vec<usize>, edges: &Vec<(usize, usize)>) -> (r: Option<Vec<Link>>)
    requires
        edges@.len() < usize::MAX / 2,
    ensures
        r is None <==> exists|k: int|
            0 <= k < edges@.len() && (!ids@.contains(#[trigger] edges@[k].0) || !ids@.contains(
                edges@[k].1,
            )),
        r matches Some(links) ==> {
            &&& links@.len() == edges@.len()
            &&& forall|k: int|
                0 <= k < edges@.len() ==> {
                    let l = #[trigger] links@[k];
                    &&& first_at(ids@, edges@[k].0, l.from as int)
                    &&& first_at(ids@, edges@[k].1, l.to as int)
                    &&& l.from_port == ends_at(links@.take(k), l.from)
                    &&& l.to_port == ends_at(links@.take(k), l.to)
                }
        },
{
    let n = ids.len();
    let mut usage: Vec<usize> = Vec::new();
    let mut p: usize = 0;
    while p < n
        invariant
            p <= n,
            n == ids@.len(),
            usage@.len() == p,
            forall|q: int| 0 <= q < p ==> usage@[q] == 0,
        decreases n - p,
    {
        usage.push(0);
        p += 1;
    }
    let mut links: Vec<Link> = Vec::new();
    let mut k: usize = 0;
    while k < edges.len()
        invariant
            k <= edges@.len(),
            edges@.len() < usize::MAX / 2,
            n == ids@.len(),
            usage@.len() == n,
            links@.len() == k,
            forall|q: int| 0 <= q < n ==> usage@[q] == ends_at(links@, q as usize),
            forall|j: int|
                0 <= j < k ==> {
                    let l = #[trigger] links@[j];
                    &&& first_at(ids@, edges@[j].0, l.from as int)
                    &&& first_at(ids@, edges@[j].1, l.to as int)
                    &&& l.from_port == ends_at(links@.take(j), l.from)
                    &&& l.to_port == ends_at(links@.take(j), l.to)
                },
        decreases edges@.len() - k,
    {
        let (x, y) = edges[k];
        let from = match position(ids, x) {
            Some(a) => a,
            None => {
                assert(!ids@.contains(edges@[k as int].0));
                return None;
            },
        };
        let to = match position(ids, y) {
            Some(a) => a,
            None => {
                assert(!ids@.contains(edges@[k as int].1));
                return None;
            },
        };
        proof {
            lemma_ends_at_bound(links@, from as usize);
            lemma_ends_at_bound(links@, to as usize);
        }
        let from_port = usage[from];
        let to_port = usage[to];
        let ghost before = links@;
        links.push(Link { from, from_port, to, to_port });
        let uf = usage[from] + 1;
        usage.set(from, uf);
        let ut = usage[to] + 1;
        usage.set(to, ut);
        proof {
            assert(links@.drop_last() =~= before);
            assert forall|j: int| 0 <= j <= k implies links@.take(j) =~= before.take(j) by {}
            assert(before.take(k as int) =~= before);
        }
        k += 1;
    }
    proof {
        assert forall|j: int| 0 <= j < edges@.len() implies ids@.contains(#[trigger] edges@[j].0)
            && ids@.contains(edges@[j].1) by {
            let l = links@[j];
            assert(ids@[l.from as int] == edges@[j].0);
            assert(ids@[l.to as int] == edges@[j].1);
        }
    }
    Some(links)
}

} // verus!
