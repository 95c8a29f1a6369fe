//! The lattice of candidate words over a text and its minimum-cost path.
use vstd::prelude::*;

use crate::connection::ConnectionCostMatrix;
use crate::word_entry::{WordEntry, WordId};

verus! {

/// A candidate word that starts at some offset and spans `len` bytes.
#[derive(Clone, Copy, Debug, PartialEq, Eq, Structural)]
pub struct Edge {
    pub len: usize,
    pub entry: WordEntry,
}

/// A word of the output: its byte span and its record.
#[derive(Clone, Copy, Debug, PartialEq, Eq, Structural)]
pub struct Token {
    pub start: usize,
    pub end: usize,
    pub entry: WordEntry,
}

/// Context id of the synthetic start and end nodes.
pub const BOUNDARY_CONTEXT: u16 = 0;

/// Whether `e`, starting at `p`, fits a text of `n` bytes and the matrix.
pub open spec fn edge_ok(p: int, e: Edge, n: nat, m: ConnectionCostMatrix) -> bool {
    &&& e.len >= 1
    &&& p + e.len <= n
    &&& e.entry.left_id < m.backward_size
    &&& e.entry.right_id < m.forward_size
}

/// Whether `edges` lists the candidates starting at each offset 0..=n of a
/// text of `n` bytes, all of them usable with `m`.
pub open spec fn lattice_ok(edges: Seq<Vec<Edge>>, n: nat, m: ConnectionCostMatrix) -> bool {
    &&& m.wf()
    &&& m.forward_size > BOUNDARY_CONTEXT
    &&& m.backward_size > BOUNDARY_CONTEXT
    &&& edges.len() == n + 1
    &&& forall|p: int, j: int|
        0 <= p <= n && 0 <= j < edges[p]@.len() ==> edge_ok(p, #[trigger] edges[p]@[j], n, m)
}

/// Whether `t` is a candidate of the lattice.
pub open spec fn token_in(edges: Seq<Vec<Edge>>, t: Token) -> bool {
    &&& t.start < edges.len()
    &&& exists|j: int|
        0 <= j < edges[t.start as int]@.len() && #[trigger] edges[t.start as int]@[j] == (Edge {
            len: (t.end - t.start) as usize,
            entry: t.entry,
        })
}

/// Whether `ts` covers the bytes 0..n in order, each token ending where
/// the next starts, without gaps or overlaps.
pub open spec fn is_partition(ts: Seq<Token>, n: nat) -> bool {
    &&& ts.len() == 0 ==> n == 0
    &&& ts.len() > 0 ==> ts[0].start == 0 && ts.last().end == n
    &&& forall|i: int| 0 <= i < ts.len() ==> #[trigger] ts[i].start < ts[i].end
    &&& forall|i: int| 0 <= i < ts.len() - 1 ==> #[trigger] ts[i].end == ts[i + 1].start
}

/// Whether `ts` is a path of the lattice from the start to the end of the text.
pub open spec fn is_lattice_path(edges: Seq<Vec<Edge>>, ts: Seq<Token>, n: nat) -> bool {
    &&& is_partition(ts, n)
    &&& forall|i: int| 0 <= i < ts.len() ==> token_in(edges, #[trigger] ts[i])
}

/// Whether the offsets marked in `s` start at 0, and every marked offset
/// before `n` has a candidate, each of whose ends is marked or is `n`.
pub open spec fn steps_through(edges: Seq<Vec<Edge>>, s: Seq<bool>, n: nat) -> bool {
    &&& s.len() == n + 1
    &&& s[0]
    &&& forall|p: int|
        0 <= p < n && #[trigger] s[p] ==> edges[p]@.len() > 0 && forall|j: int|
            0 <= j < edges[p]@.len() ==> #[trigger] s[p + edges[p]@[j].len]
}

/// The cost that `m` adds between a word with right context `r` and one with
/// left context `l`.
pub open spec fn conn(m: ConnectionCostMatrix, r: u16, l: u16) -> int {
    m.cost_spec(r as int, l as int)
}

/// The right context that a path ending with `ts` leaves: the start's where
/// `ts` is empty.
pub open spec fn last_right(ts: Seq<Token>) -> u16 {
    if ts.len() == 0 {
        BOUNDARY_CONTEXT
    } else {
        ts.last().entry.right_id
    }
}

/// The cost of the words `ts` taken from the start in order: each word's
/// cost plus the transition into it.
#[verifier::opaque]
pub open spec fn prefix_cost(m: ConnectionCostMatrix, ts: Seq<Token>) -> int
    decreases ts.len(),
{
    if ts.len() == 0 {
        0
    } else {
        prefix_cost(m, ts.drop_last()) + conn(m, last_right(ts.drop_last()), ts.last().entry.left_id)
            + ts.last().entry.word_cost
    }
}

/// The cost of a whole path: its words and the transition into the end.
pub open spec fn path_cost(m: ConnectionCostMatrix, ts: Seq<Token>) -> int {
    prefix_cost(m, ts) + conn(m, last_right(ts), BOUNDARY_CONTEXT)
}

struct Node {
    start: usize,
    end: usize,
    entry: WordEntry,
    edge: usize,
    cost: i128,
    prev: usize,
    link: Option<usize>,
}

const COST_STEP: i128 = 65536;

spec fn node_token(nd: Node) -> Token {
    Token { start: nd.start, end: nd.end, entry: nd.entry }
}

/// The words of the path that leads to node `k`, following `prev` back.
#[verifier::opaque]
spec fn chain(nodes: Seq<Node>, k: int) -> Seq<Token>
    decreases k,
{
    if k <= 0 || k >= nodes.len() || nodes[k].prev >= k {
        seq![]
    } else {
        chain(nodes, nodes[k].prev as int).push(node_token(nodes[k]))
    }
}

proof fn lemma_chain_push(nodes: Seq<Node>, nd: Node, k: int)
    requires
        0 <= k < nodes.len(),
    ensures
        chain(nodes.push(nd), k) == chain(nodes, k),
    decreases k,
{
    reveal_with_fuel(chain, 1);
    assert(nodes.push(nd)[k] == nodes[k]);
    if k > 0 && nodes[k].prev < k {
        lemma_chain_push(nodes, nd, nodes[k].prev as int);
    }
}

/// The candidate that token `t` stands for.
spec fn edge_of(t: Token) -> Edge {
    Edge { len: (t.end - t.start) as usize, entry: t.entry }
}

/// Whether `ts` runs through the lattice from the start, not necessarily to the end.
spec fn is_partial(edges: Seq<Vec<Edge>>, ts: Seq<Token>) -> bool {
    &&& ts.len() > 0 ==> ts[0].start == 0
    &&& forall|i: int| 0 <= i < ts.len() ==> #[trigger] ts[i].start < ts[i].end && token_in(edges, ts[i])
    &&& forall|i: int| 0 <= i < ts.len() - 1 ==> #[trigger] ts[i].end == ts[i + 1].start
}

spec fn path_end(ts: Seq<Token>) -> int {
    if ts.len() == 0 {
        0
    } else {
        ts.last().end as int
    }
}

/// Some node ends where `ts` ends, leaves the same context, and costs no more.
spec fn dominated(nodes: Seq<Node>, m: ConnectionCostMatrix, ts: Seq<Token>) -> bool {
    exists|k: int|
        0 <= k < nodes.len() && #[trigger] nodes[k].end == path_end(ts) && nodes[k].entry.right_id
            == last_right(ts) && nodes[k].cost <= prefix_cost(m, ts)
}

/// Every partial path whose last word starts before `p` is dominated.
spec fn dominated_below(nodes: Seq<Node>, edges: Seq<Vec<Edge>>, m: ConnectionCostMatrix, p: int) -> bool {
    forall|ts: Seq<Token>|
        #[trigger] is_partial(edges, ts) && (ts.len() == 0 || ts.last().start < p) ==> dominated(nodes, m, ts)
}

proof fn lemma_dominated_grow(old_nodes: Seq<Node>, new_nodes: Seq<Node>, m: ConnectionCostMatrix, ts: Seq<Token>)
    requires
        new_nodes.len() >= old_nodes.len(),
        forall|k: int| 0 <= k < old_nodes.len() ==> #[trigger] new_nodes[k] == old_nodes[k],
        dominated(old_nodes, m, ts),
    ensures
        dominated(new_nodes, m, ts),
{
    let k = choose|k: int|
        0 <= k < old_nodes.len() && #[trigger] old_nodes[k].end == path_end(ts) && old_nodes[k].entry.right_id
            == last_right(ts) && old_nodes[k].cost <= prefix_cost(m, ts);
    assert(new_nodes[k] == old_nodes[k]);
}

proof fn lemma_partial_drop_last(edges: Seq<Vec<Edge>>, ts: Seq<Token>)
    requires
        is_partial(edges, ts),
        ts.len() > 0,
    ensures
        is_partial(edges, ts.drop_last()),
        path_end(ts.drop_last()) == ts.last().start,
        ts.drop_last().len() == 0 || ts.drop_last().last().start < ts.last().start,
{
    let d = ts.drop_last();
    assert forall|i: int| 0 <= i < d.len() implies #[trigger] d[i].start < d[i].end && token_in(edges, d[i]) by {
        assert(d[i] == ts[i]);
    }
    assert forall|i: int| 0 <= i < d.len() - 1 implies #[trigger] d[i].end == d[i + 1].start by {
        assert(d[i] == ts[i] && d[i + 1] == ts[i + 1]);
    }
    if d.len() > 0 {
        assert(ts[ts.len() - 2].end == ts[ts.len() - 1].start);
        assert(ts[ts.len() - 2].start < ts[ts.len() - 2].end);
    }
}

proof fn lemma_new_node_dominates(
    old_nodes: Seq<Node>,
    new_nodes: Seq<Node>,
    old_heads: Seq<Option<usize>>,
    edges: Seq<Vec<Edge>>,
    n: nat,
    m: ConnectionCostMatrix,
    p: int,
    j: int,
    h: usize,
    ts: Seq<Token>,
)
    requires
        lattice_ok(edges, n, m),
        heads_ok(old_heads, old_nodes, n),
        0 <= p < n,
        old_heads[p] == Some(h),
        dominated_below(old_nodes, edges, m, p),
        new_nodes.len() == old_nodes.len() + 1,
        forall|k: int| 0 <= k < old_nodes.len() ==> #[trigger] new_nodes[k] == old_nodes[k],
        0 <= j < edges[p]@.len(),
        ({
            let nd = new_nodes.last();
            let e = edges[p]@[j];
            &&& nd.start == p
            &&& nd.end == p + e.len
            &&& nd.entry == e.entry
            &&& forall|x: int|
                in_list(old_nodes, h as int, x) ==> nd.cost <= old_nodes[x].cost + conn(
                    m,
                    old_nodes[x].entry.right_id,
                    e.entry.left_id,
                ) + e.entry.word_cost
        }),
        is_partial(edges, ts),
        ts.len() > 0,
        ts.last().start == p,
        edge_of(ts.last()) == edges[p]@[j],
    ensures
        dominated(new_nodes, m, ts),
{
    let d = ts.drop_last();
    lemma_partial_drop_last(edges, ts);
    assert(is_partial(edges, d));
    assert(dominated(old_nodes, m, d));
    let k = choose|k: int|
        0 <= k < old_nodes.len() && #[trigger] old_nodes[k].end == path_end(d) && old_nodes[k].entry.right_id
            == last_right(d) && old_nodes[k].cost <= prefix_cost(m, d);
    assert(old_heads[old_nodes[k].end as int] is Some);
    assert(in_list(old_nodes, old_heads[old_nodes[k].end as int]->0 as int, k));
    let last = ts.last();
    assert(ts[ts.len() - 1] == last);
    assert(last.start < last.end);
    reveal_with_fuel(prefix_cost, 1);
    assert(prefix_cost(m, ts) == prefix_cost(m, d) + conn(m, last_right(d), last.entry.left_id)
        + last.entry.word_cost);
    let w = old_nodes.len() as int;
    assert(new_nodes[w] == new_nodes.last());
    let nd = new_nodes.last();
    let e = edges[p]@[j];
    assert(old_nodes[k].end == p);
    assert(old_heads[p]->0 == h);
    assert(in_list(old_nodes, h as int, k));
    assert(nd.cost <= old_nodes[k].cost + conn(m, old_nodes[k].entry.right_id, e.entry.left_id) + e.entry.word_cost);
    assert(e.entry == last.entry);
    assert(e.len == last.end - last.start);
    assert(nd.end == path_end(ts));
    assert(nd.entry.right_id == last_right(ts));
    assert(nd.cost <= prefix_cost(m, ts));
}

spec fn nodes_ok(nodes: Seq<Node>, edges: Seq<Vec<Edge>>, n: nat, m: ConnectionCostMatrix) -> bool {
    &&& nodes.len() > 0
    &&& nodes[0].start == 0 && nodes[0].end == 0 && nodes[0].link is None
    &&& nodes[0].entry.right_id == BOUNDARY_CONTEXT
    &&& forall|k: int| 0 <= k < nodes.len() ==> node_ok(nodes, #[trigger] nodes[k], k, edges, n, m)
}

spec fn node_ok(nodes: Seq<Node>, nd: Node, k: int, edges: Seq<Vec<Edge>>, n: nat, m: ConnectionCostMatrix) -> bool {
    &&& nd.end <= n
    &&& nd.entry.right_id < m.forward_size
    &&& -(nd.end + 1) * COST_STEP <= nd.cost <= (nd.end + 1) * COST_STEP
    &&& (nd.link matches Some(j) ==> j < k && nodes[j as int].end == nd.end)
    &&& nd.cost == prefix_cost(m, chain(nodes, k))
    &&& last_right(chain(nodes, k)) == nd.entry.right_id
    &&& k > 0 ==> {
        &&& nd.prev < k
        &&& nodes[nd.prev as int].end == nd.start
        &&& nd.start < nd.end
        &&& nd.edge < edges[nd.start as int]@.len()
        &&& edges[nd.start as int]@[nd.edge as int] == (Edge {
            len: (nd.end - nd.start) as usize,
            entry: nd.entry,
        })
    }
}

spec fn heads_ok(heads: Seq<Option<usize>>, nodes: Seq<Node>, n: nat) -> bool {
    &&& heads.len() == n + 1
    &&& forall|p: int|
        0 <= p <= n ==> (#[trigger] heads[p] matches Some(k) ==> k < nodes.len() && nodes[k as int].end == p)
    &&& forall|k: int| 0 <= k < nodes.len() ==> #[trigger] heads[nodes[k].end as int] is Some
    &&& forall|k: int| 0 <= k < nodes.len() ==> in_list(nodes, (#[trigger] heads[nodes[k].end as int])->0 as int, k)
}

/// Whether node `x` is on the list that starts at node `c` and follows links.
spec fn in_list(nodes: Seq<Node>, c: int, x: int) -> bool
    decreases c,
{
    &&& 0 <= c < nodes.len()
    &&& (c == x || (nodes[c].link matches Some(l) && 0 <= l < c && in_list(nodes, l as int, x)))
}

proof fn lemma_in_list_push(nodes: Seq<Node>, nd: Node, c: int, x: int)
    requires
        0 <= c < nodes.len(),
    ensures
        in_list(nodes.push(nd), c, x) == in_list(nodes, c, x),
    decreases c,
{
    assert(nodes.push(nd)[c] == nodes[c]);
    if let Some(l) = nodes[c].link {
        if 0 <= l < c {
            lemma_in_list_push(nodes, nd, l as int, x);
        }
    }
}

/// The predecessor among the nodes on the list from `head` that gives the
/// lowest cost into a word with left context `left`; among equal costs the
/// earliest node (the lowest index) is kept.
fn best_predecessor(
    nodes: &Vec<Node>,
    head: usize,
    left: u16,
    Ghost(edges): Ghost<Seq<Vec<Edge>>>,
    Ghost(n): Ghost<nat>,
    m: &ConnectionCostMatrix,
) -> (r: (usize, i128))
    requires
        nodes_ok(nodes@, edges, n, *m),
        lattice_ok(edges, n, *m),
        head < nodes@.len(),
        left < m.backward_size,
    ensures
        r.0 < nodes@.len(),
        nodes@[r.0 as int].end == nodes@[head as int].end,
        r.1 == nodes@[r.0 as int].cost + conn(*m, nodes@[r.0 as int].entry.right_id, left),
        forall|x: int|
            in_list(nodes@, head as int, x) ==> r.1 <= nodes@[x].cost + conn(*m, nodes@[x].entry.right_id, left),
        forall|x: int|
            in_list(nodes@, head as int, x) && r.1 == nodes@[x].cost + conn(*m, nodes@[x].entry.right_id, left)
                ==> r.0 <= x,
{
    let mut best = head;
    let mut best_cost: i128 = nodes[head].cost + m.cost(nodes[head].entry.right_id, left) as i128;
    let mut cur = nodes[head].link;
    assert(node_ok(nodes@, nodes@[head as int], head as int, edges, n, *m));
    while cur.is_some()
        invariant
            nodes_ok(nodes@, edges, n, *m),
            lattice_ok(edges, n, *m),
            head < nodes@.len(),
            left < m.backward_size,
            best < nodes@.len(),
            nodes@[best as int].end == nodes@[head as int].end,
            best_cost == nodes@[best as int].cost + conn(*m, nodes@[best as int].entry.right_id, left),
            cur matches Some(c) ==> c < nodes@.len() && nodes@[c as int].end == nodes@[head as int].end,
            forall|x: int|
                in_list(nodes@, head as int, x) ==> (cur matches Some(c) && in_list(nodes@, c as int, x))
                    || best_cost <= nodes@[x].cost + conn(*m, nodes@[x].entry.right_id, left),
            forall|x: int|
                in_list(nodes@, head as int, x) ==> (cur matches Some(c) && in_list(nodes@, c as int, x))
                    || (best_cost == nodes@[x].cost + conn(*m, nodes@[x].entry.right_id, left) ==> best <= x),
            cur matches Some(c) ==> c < best,
        decreases
            match cur {
                Some(c) => c + 1,
                None => 0,
            },
    {
        let c = cur.unwrap();
        assert(node_ok(nodes@, nodes@[c as int], c as int, edges, n, *m));
        let cost = nodes[c].cost + m.cost(nodes[c].entry.right_id, left) as i128;
        if cost <= best_cost {
            best = c;
            best_cost = cost;
        }
        cur = nodes[c].link;
        assert forall|x: int| in_list(nodes@, head as int, x) implies (cur matches Some(c2) && in_list(nodes@, c2 as int, x))
            || best_cost <= nodes@[x].cost + conn(*m, nodes@[x].entry.right_id, left) by {
            if in_list(nodes@, c as int, x) && x != c {
                assert(nodes@[c as int].link is Some);
            }
        }
        assert forall|x: int| in_list(nodes@, head as int, x) implies (cur matches Some(c2) && in_list(nodes@, c2 as int, x))
            || (best_cost == nodes@[x].cost + conn(*m, nodes@[x].entry.right_id, left) ==> best <= x) by {
            if in_list(nodes@, c as int, x) && x != c {
                assert(nodes@[c as int].link is Some);
            }
        }
    }
    (best, best_cost)
}


spec fn closed_below(heads: Seq<Option<usize>>, edges: Seq<Vec<Edge>>, upto: int) -> bool {
    forall|q: int, j: int|
        0 <= q < upto && #[trigger] heads[q] is Some && 0 <= j < edges[q]@.len()
            ==> #[trigger] heads[q + edges[q]@[j].len] is Some
}

proof fn lemma_walk(
    heads: Seq<Option<usize>>,
    edges: Seq<Vec<Edge>>,
    s: Seq<bool>,
    n: nat,
    m: ConnectionCostMatrix,
    q: int,
)
    requires
        lattice_ok(edges, n, m),
        steps_through(edges, s, n),
        heads.len() == n + 1,
        closed_below(heads, edges, n as int),
        0 <= q <= n,
        s[q],
        heads[q] is Some,
    ensures
        heads[n as int] is Some,
    decreases n - q,
{
    if q < n {
        let e = edges[q]@[0];
        assert(edge_ok(q, e, n, m));
        assert(s[q + e.len]);
        lemma_walk(heads, edges, s, n, m, q + e.len);
    }
}

/// Adds the node of candidate `j` at offset `p`, reached from its best
/// predecessor on the list that starts at `h`.
#[verifier::rlimit(40)]
fn add_node(
    nodes: &mut Vec<Node>,
    heads: &mut Vec<Option<usize>>,
    edges: &Vec<Vec<Edge>>,
    n: usize,
    m: &ConnectionCostMatrix,
    p: usize,
    j: usize,
    h: usize,
)
    requires
        lattice_ok(edges@, n as nat, *m),
        nodes_ok(old(nodes)@, edges@, n as nat, *m),
        heads_ok(old(heads)@, old(nodes)@, n as nat),
        p < n,
        j < edges@[p as int]@.len(),
        h < old(nodes)@.len(),
        old(nodes)@[h as int].end == p,
    ensures
        nodes_ok(final(nodes)@, edges@, n as nat, *m),
        heads_ok(final(heads)@, final(nodes)@, n as nat),
        final(nodes)@.len() == old(nodes)@.len() + 1,
        forall|k: int| 0 <= k < old(nodes)@.len() ==> #[trigger] final(nodes)@[k] == old(nodes)@[k],
        forall|q: int| 0 <= q <= n && (#[trigger] old(heads)@[q]) is Some ==> final(heads)@[q] is Some,
        forall|q: int|
            0 <= q <= n && q != p + edges@[p as int]@[j as int].len ==> #[trigger] final(heads)@[q] == old(heads)@[q],
        final(heads)@[p + edges@[p as int]@[j as int].len] is Some,
        ({
            let nd = final(nodes)@.last();
            let e = edges@[p as int]@[j as int];
            &&& nd.start == p
            &&& nd.end == p + e.len
            &&& nd.entry == e.entry
            &&& forall|x: int|
                in_list(old(nodes)@, h as int, x) ==> nd.cost <= old(nodes)@[x].cost + conn(
                    *m,
                    old(nodes)@[x].entry.right_id,
                    e.entry.left_id,
                ) + e.entry.word_cost
        }),
{
    let ghost g = edges@;
    let ghost gn = n as nat;
    let e = edges[p][j];
    assert(edge_ok(p as int, e, gn, *m));
    let (prev, c) = best_predecessor(nodes, h, e.entry.left_id, Ghost(g), Ghost(gn), m);
    assert(node_ok(nodes@, nodes@[prev as int], prev as int, g, gn, *m));
    let cost = c + e.entry.word_cost as i128;
    let k = nodes.len();
    let t = p + e.len;
    let nd = Node { start: p, end: t, entry: e.entry, edge: j, cost, prev, link: heads[t] };
    let ghost old_nodes = nodes@;
    let ghost old_heads = heads@;
    nodes.push(nd);
    heads.set(t, Some(k));
    assert forall|kk: int| 0 <= kk < nodes@.len() implies node_ok(
        nodes@,
        #[trigger] nodes@[kk],
        kk,
        g,
        gn,
        *m,
    ) by {
        if kk < k {
            assert(nodes@[kk] == old_nodes[kk]);
            assert(node_ok(old_nodes, old_nodes[kk], kk, g, gn, *m));
            lemma_chain_push(old_nodes, nd, kk);
        } else {
            lemma_chain_push(old_nodes, nd, prev as int);
            reveal_with_fuel(chain, 1);
            reveal_with_fuel(prefix_cost, 1);
            assert(chain(nodes@, kk) == chain(old_nodes, prev as int).push(node_token(nd)));
            assert(chain(nodes@, kk).drop_last() =~= chain(old_nodes, prev as int));
        }
    }
    assert forall|kk: int| 0 <= kk < nodes@.len() implies #[trigger] heads@[nodes@[kk].end as int] is Some by {
        if kk < k {
            assert(old_heads[old_nodes[kk].end as int] is Some);
        }
    }
    assert forall|kk: int| 0 <= kk < nodes@.len() implies in_list(
        nodes@,
        (#[trigger] heads@[nodes@[kk].end as int])->0 as int,
        kk,
    ) by {
        if kk < k {
            assert(nodes@[kk] == old_nodes[kk]);
            let e = old_nodes[kk].end as int;
            assert(in_list(old_nodes, old_heads[e]->0 as int, kk));
            lemma_in_list_push(old_nodes, nd, old_heads[e]->0 as int, kk);
            if e == t {
                assert(nodes@[k as int].link == old_heads[e]);
            }
        }
    }
}

/// Adds the nodes of every candidate at offset `p`, if some node ends there.
#[verifier::rlimit(60)]
fn process_position(
    nodes: &mut Vec<Node>,
    heads: &mut Vec<Option<usize>>,
    edges: &Vec<Vec<Edge>>,
    n: usize,
    m: &ConnectionCostMatrix,
    p: usize,
)
    requires
        p < n,
        lattice_ok(edges@, n as nat, *m),
        nodes_ok(old(nodes)@, edges@, n as nat, *m),
        heads_ok(old(heads)@, old(nodes)@, n as nat),
        old(heads)@[0] is Some,
        closed_below(old(heads)@, edges@, p as int),
        dominated_below(old(nodes)@, edges@, *m, p as int),
    ensures
        nodes_ok(final(nodes)@, edges@, n as nat, *m),
        heads_ok(final(heads)@, final(nodes)@, n as nat),
        final(heads)@[0] is Some,
        closed_below(final(heads)@, edges@, p + 1),
        dominated_below(final(nodes)@, edges@, *m, p + 1),
{
    let ghost g = edges@;
    let ghost gn = n as nat;
    if let Some(h) = heads[p] {
        let mut j: usize = 0;
        while j < edges[p].len()
            invariant
                p < n,
                lattice_ok(g, gn, *m),
                g == edges@,
                gn == n,
                nodes_ok(nodes@, g, gn, *m),
                heads_ok(heads@, nodes@, gn),
                heads@[0] is Some,
                closed_below(heads@, g, p as int),
                heads@[p as int] is Some,
                h < nodes@.len(),
                nodes@[h as int].end == p,
                j <= edges@[p as int]@.len(),
                forall|jj: int| 0 <= jj < j ==> #[trigger] heads@[p + edges@[p as int]@[jj].len] is Some,
                heads@[p as int] == Some(h),
                dominated_below(nodes@, g, *m, p as int),
                forall|ts: Seq<Token>|
                    #[trigger] is_partial(g, ts) && ts.len() > 0 && ts.last().start == p && (exists|jj: int|
                        0 <= jj < j && g[p as int]@[jj] == edge_of(ts.last())) ==> dominated(nodes@, *m, ts),
            decreases edges@[p as int]@.len() - j,
        {
            let ghost old_heads = heads@;
            let ghost old_nodes = nodes@;
            add_node(nodes, heads, edges, n, m, p, j, h);
            assert(heads@[p as int] == Some(h)) by {
                assert(edge_ok(p as int, g[p as int]@[j as int], gn, *m));
            }
            assert forall|ts: Seq<Token>|
                #[trigger] is_partial(g, ts) && (ts.len() == 0 || ts.last().start < p) implies dominated(nodes@, *m, ts) by {
                lemma_dominated_grow(old_nodes, nodes@, *m, ts);
            }
            assert forall|ts: Seq<Token>|
                #[trigger] is_partial(g, ts) && ts.len() > 0 && ts.last().start == p && (exists|jj: int|
                    0 <= jj < j + 1 && g[p as int]@[jj] == edge_of(ts.last())) implies dominated(nodes@, *m, ts) by {
                let jj = choose|jj: int| 0 <= jj < j + 1 && g[p as int]@[jj] == edge_of(ts.last());
                if jj < j {
                    lemma_dominated_grow(old_nodes, nodes@, *m, ts);
                } else {
                    lemma_new_node_dominates(old_nodes, nodes@, old_heads, g, gn, *m, p as int, j as int, h, ts);
                }
            }
            assert forall|q: int, jj: int|
                0 <= q < p && #[trigger] heads@[q] is Some && 0 <= jj < g[q]@.len()
                implies #[trigger] heads@[q + g[q]@[jj].len] is Some by {
                assert(heads@[q] is Some);
                if old_heads[q] is Some {
                    assert(old_heads[q + g[q]@[jj].len] is Some);
                    assert(edge_ok(q, g[q]@[jj], gn, *m));
                }
            }
            assert forall|jj: int| 0 <= jj < j + 1 implies #[trigger] heads@[p + edges@[p as int]@[jj].len] is Some by {
                assert(edge_ok(p as int, g[p as int]@[jj], gn, *m));
                if jj < j {
                    assert(old_heads[p + edges@[p as int]@[jj].len] is Some);
                }
            }
            j += 1;
        }
        assert forall|q: int, jj: int|
            0 <= q < p + 1 && #[trigger] heads@[q] is Some && 0 <= jj < g[q]@.len()
            implies #[trigger] heads@[q + g[q]@[jj].len] is Some by {
        }
        assert forall|ts: Seq<Token>|
            #[trigger] is_partial(g, ts) && (ts.len() == 0 || ts.last().start < p + 1) implies dominated(nodes@, *m, ts) by {
            if ts.len() > 0 && ts.last().start == p {
                assert(ts[ts.len() - 1] == ts.last());
                assert(token_in(g, ts.last()));
                let jj = choose|jj: int|
                    0 <= jj < g[ts.last().start as int]@.len() && #[trigger] g[ts.last().start as int]@[jj] == (Edge {
                        len: (ts.last().end - ts.last().start) as usize,
                        entry: ts.last().entry,
                    });
                assert(g[p as int]@[jj] == edge_of(ts.last()));
            }
        }
    } else {
        assert forall|ts: Seq<Token>|
            #[trigger] is_partial(g, ts) && (ts.len() == 0 || ts.last().start < p + 1) implies dominated(nodes@, *m, ts) by {
            if ts.len() > 0 && ts.last().start == p {
                let d = ts.drop_last();
                lemma_partial_drop_last(g, ts);
                assert(is_partial(g, d));
                assert(dominated(nodes@, *m, d));
                let k = choose|k: int|
                    0 <= k < nodes@.len() && #[trigger] nodes@[k].end == path_end(d) && nodes@[k].entry.right_id
                        == last_right(d) && nodes@[k].cost <= prefix_cost(*m, d);
                assert(heads@[nodes@[k].end as int] is Some);
            }
        }
    }
}

/// The words of the path that leads to node `last`, in text order.
#[verifier::rlimit(40)]
fn backtrack(nodes: &Vec<Node>, last: usize, edges: &Vec<Vec<Edge>>, n: usize, m: &ConnectionCostMatrix) -> (out: Vec<Token>)
    requires
        lattice_ok(edges@, n as nat, *m),
        nodes_ok(nodes@, edges@, n as nat, *m),
        last < nodes@.len(),
        nodes@[last as int].end == n,
    ensures
        is_lattice_path(edges@, out@, n as nat),
        out@ == chain(nodes@, last as int),
{
    let ghost g = edges@;
    let ghost gn = n as nat;
    let mut rev: Vec<Token> = Vec::new();
    let mut k = last;
    while k != 0
        invariant
            nodes_ok(nodes@, g, gn, *m),
            lattice_ok(g, gn, *m),
            g == edges@,
            gn == n,
            k < nodes@.len(),
            last < nodes@.len(),
            chain(nodes@, last as int) == chain(nodes@, k as int) + Seq::new(rev@.len(), |i: int| rev@[rev@.len() - 1 - i]),
            rev@.len() == 0 ==> nodes@[k as int].end == n,
            rev@.len() > 0 ==> rev@[0].end == n && rev@.last().start == nodes@[k as int].end,
            forall|i: int| 0 <= i < rev@.len() - 1 ==> #[trigger] rev@[i].start == rev@[i + 1].end,
            forall|i: int| 0 <= i < rev@.len() ==> #[trigger] rev@[i].start < rev@[i].end,
            forall|i: int| 0 <= i < rev@.len() ==> token_in(g, #[trigger] rev@[i]),
        decreases k,
    {
        assert(node_ok(nodes@, nodes@[k as int], k as int, g, gn, *m));
        let nd = &nodes[k];
        let tok = Token { start: nd.start, end: nd.end, entry: nd.entry };
        assert(tok.start < g.len());
        assert(g[tok.start as int]@[nd.edge as int] == (Edge { len: (tok.end - tok.start) as usize, entry: tok.entry }));
        assert(token_in(g, tok));
        let ghost old_rev = rev@;
        rev.push(tok);
        proof {
            reveal_with_fuel(chain, 1);
            assert(chain(nodes@, k as int) == chain(nodes@, nd.prev as int).push(tok));
            assert(chain(nodes@, nd.prev as int) + Seq::new(rev@.len(), |i: int| rev@[rev@.len() - 1 - i])
                =~= chain(nodes@, k as int) + Seq::new(old_rev.len(), |i: int| old_rev[old_rev.len() - 1 - i]));
        }
        assert forall|i: int| 0 <= i < rev@.len() implies token_in(g, #[trigger] rev@[i]) by {
            if i < old_rev.len() {
                assert(rev@[i] == old_rev[i]);
            }
        }
        k = nd.prev;
    }
    let mut out: Vec<Token> = Vec::new();
    let len = rev.len();
    let mut i: usize = 0;
    while i < len
        invariant
            len == rev@.len(),
            i <= len,
            out@.len() == i,
            forall|x: int| 0 <= x < i ==> #[trigger] out@[x] == rev@[len - 1 - x],
        decreases len - i,
    {
        out.push(rev[len - 1 - i]);
        i += 1;
    }
    proof {
        let o = out@;
        let rv = rev@;
        reveal_with_fuel(chain, 1);
        assert(chain(nodes@, 0) =~= Seq::<Token>::empty());
        assert(o =~= chain(nodes@, last as int));
        assert forall|x: int| 0 <= x < o.len() - 1 implies #[trigger] o[x].end == o[x + 1].start by {
            assert(rv[len - 1 - (x + 1)].start == rv[len - 1 - (x + 1) + 1].end);
        }
        assert forall|x: int| 0 <= x < o.len() implies #[trigger] o[x].start < o[x].end by {
            assert(rv[len - 1 - x].start < rv[len - 1 - x].end);
        }
        assert forall|x: int| 0 <= x < o.len() implies token_in(g, #[trigger] o[x]) by {
            assert(token_in(g, rv[len - 1 - x]));
        }
        if o.len() > 0 {
            assert(o[0] == rv[len - 1]);
            assert(o[o.len() - 1] == rv[0]);
        }
    }
    out
}

proof fn lemma_path_reaches_end(
    nodes: Seq<Node>,
    heads: Seq<Option<usize>>,
    edges: Seq<Vec<Edge>>,
    n: nat,
    m: ConnectionCostMatrix,
    o: Seq<Token>,
)
    requires
        lattice_ok(edges, n, m),
        heads_ok(heads, nodes, n),
        dominated_below(nodes, edges, m, n as int),
        is_lattice_path(edges, o, n),
    ensures
        heads[n as int] is Some,
{
    assert(is_partial(edges, o)) by {
        assert forall|i: int| 0 <= i < o.len() implies #[trigger] o[i].start < o[i].end && token_in(edges, o[i]) by {
            assert(token_in(edges, o[i]));
        }
    }
    if o.len() > 0 {
        assert(o[o.len() - 1].start < o[o.len() - 1].end);
    }
    assert(dominated(nodes, m, o));
    let k = choose|k: int|
        0 <= k < nodes.len() && #[trigger] nodes[k].end == path_end(o) && nodes[k].entry.right_id
            == last_right(o) && nodes[k].cost <= prefix_cost(m, o);
    assert(heads[nodes[k].end as int] is Some);
}

proof fn lemma_optimal(
    nodes: Seq<Node>,
    heads: Seq<Option<usize>>,
    edges: Seq<Vec<Edge>>,
    n: nat,
    m: ConnectionCostMatrix,
    h: usize,
    last: int,
    c: i128,
    out: Seq<Token>,
)
    requires
        lattice_ok(edges, n, m),
        nodes_ok(nodes, edges, n, m),
        heads_ok(heads, nodes, n),
        dominated_below(nodes, edges, m, n as int),
        heads[n as int] == Some(h),
        0 <= last < nodes.len(),
        c == nodes[last].cost + conn(m, nodes[last].entry.right_id, BOUNDARY_CONTEXT),
        forall|x: int|
            in_list(nodes, h as int, x) ==> c <= nodes[x].cost + conn(m, nodes[x].entry.right_id, BOUNDARY_CONTEXT),
        out == chain(nodes, last),
    ensures
        path_cost(m, out) == c,
        forall|o: Seq<Token>| is_lattice_path(edges, o, n) ==> path_cost(m, out) <= path_cost(m, o),
{
    assert(node_ok(nodes, nodes[last], last, edges, n, m));
    assert forall|o: Seq<Token>| is_lattice_path(edges, o, n) implies path_cost(m, out) <= path_cost(m, o) by {
        assert(is_partial(edges, o)) by {
            assert forall|i: int| 0 <= i < o.len() implies #[trigger] o[i].start < o[i].end && token_in(edges, o[i]) by {
                assert(token_in(edges, o[i]));
            }
        }
        if o.len() > 0 {
            assert(o[o.len() - 1].start < o[o.len() - 1].end);
        }
        assert(dominated(nodes, m, o));
        let k = choose|k: int|
            0 <= k < nodes.len() && #[trigger] nodes[k].end == path_end(o) && nodes[k].entry.right_id
                == last_right(o) && nodes[k].cost <= prefix_cost(m, o);
        assert(nodes[k].end == n);
        assert(heads[nodes[k].end as int] is Some);
        assert(in_list(nodes, heads[nodes[k].end as int]->0 as int, k));
    }
}

/// Finds a minimum-cost path through the lattice: each candidate's cost is
/// its record's cost plus the transition cost from the best predecessor that
/// ends where it starts; among equal costs the earliest candidate wins.
/// Returns `None` exactly where no path from the start to the end exists.
pub fn best_path(edges: &Vec<Vec<Edge>>, n: usize, m: &ConnectionCostMatrix) -> (r: Option<Vec<Token>>)
    requires
        lattice_ok(edges@, n as nat, *m),
    ensures
        r matches Some(ts) ==> is_lattice_path(edges@, ts@, n as nat),
        r matches Some(ts) ==> forall|o: Seq<Token>|
            is_lattice_path(edges@, o, n as nat) ==> path_cost(*m, ts@) <= path_cost(*m, o),
        (exists|s: Seq<bool>| steps_through(edges@, s, n as nat)) ==> r is Some,
        (exists|o: Seq<Token>| is_lattice_path(edges@, o, n as nat)) ==> r is Some,
{
    let ghost g = edges@;
    let ghost gn = n as nat;
    let bos = Node {
        start: 0,
        end: 0,
        entry: WordEntry {
            word_id: WordId { id: 0, is_system: true },
            word_cost: 0,
            left_id: BOUNDARY_CONTEXT,
            right_id: BOUNDARY_CONTEXT,
        },
        edge: 0,
        cost: 0,
        prev: 0,
        link: None,
    };
    let mut nodes: Vec<Node> = Vec::new();
    nodes.push(bos);
    let mut heads: Vec<Option<usize>> = Vec::new();
    let total = edges.len();
    let mut i: usize = 0;
    while i < total
        invariant
            total == n + 1,
            i <= n + 1,
            heads@.len() == i,
            forall|q: int| 0 <= q < i ==> #[trigger] heads@[q] is None,
        decreases total - i,
    {
        heads.push(None);
        i += 1;
    }
    heads.set(0, Some(0));
    proof {
        reveal_with_fuel(chain, 1);
        reveal_with_fuel(prefix_cost, 1);
    }
    assert(node_ok(nodes@, nodes@[0], 0, g, gn, *m));
    assert forall|ts: Seq<Token>|
        #[trigger] is_partial(g, ts) && (ts.len() == 0 || ts.last().start < 0) implies dominated(nodes@, *m, ts) by {
        assert(nodes@[0].end == path_end(ts));
    }
    let mut p: usize = 0;
    while p < n
        invariant
            p <= n,
            lattice_ok(g, gn, *m),
            g == edges@,
            gn == n,
            nodes_ok(nodes@, g, gn, *m),
            heads_ok(heads@, nodes@, gn),
            heads@[0] is Some,
            closed_below(heads@, g, p as int),
            dominated_below(nodes@, g, *m, p as int),
        decreases n - p,
    {
        process_position(&mut nodes, &mut heads, edges, n, m, p);
        p += 1;
    }
    proof {
        if exists|s: Seq<bool>| steps_through(g, s, gn) {
            let s = choose|s: Seq<bool>| steps_through(g, s, gn);
            lemma_walk(heads@, g, s, gn, *m, 0);
        }
        if exists|o: Seq<Token>| is_lattice_path(g, o, gn) {
            let o = choose|o: Seq<Token>| is_lattice_path(g, o, gn);
            lemma_path_reaches_end(nodes@, heads@, g, gn, *m, o);
        }
    }
    let h = match heads[n] {
        None => {
            return None;
        },
        Some(h) => h,
    };
    let (last, c) = best_predecessor(&nodes, h, BOUNDARY_CONTEXT, Ghost(g), Ghost(gn), m);
    let out = backtrack(&nodes, last, edges, n, m);
    proof {
        lemma_optimal(nodes@, heads@, g, gn, *m, h, last as int, c, out@);
    }
    Some(out)
}

/// The cost of the path `ts` under `m`; `None` where a context id of some
/// word lies outside the matrix.
pub fn total_cost(m: &ConnectionCostMatrix, ts: &Vec<Token>) -> (r: Option<i128>)
    requires
        m.wf(),
        m.forward_size > BOUNDARY_CONTEXT,
        m.backward_size > BOUNDARY_CONTEXT,
    ensures
        r is Some <==> forall|i: int|
            0 <= i < ts@.len() ==> (#[trigger] ts@[i]).entry.left_id < m.backward_size
                && ts@[i].entry.right_id < m.forward_size,
        r matches Some(c) ==> c == path_cost(*m, ts@),
{
    let mut acc: i128 = 0;
    let mut right: u16 = BOUNDARY_CONTEXT;
    let mut i: usize = 0;
    proof {
        reveal_with_fuel(prefix_cost, 1);
        assert(ts@.take(0) =~= Seq::<Token>::empty());
    }
    while i < ts.len()
        invariant
            m.wf(),
            m.forward_size > BOUNDARY_CONTEXT,
            m.backward_size > BOUNDARY_CONTEXT,
            i <= ts@.len(),
            right == last_right(ts@.take(i as int)),
            right < m.forward_size,
            acc == prefix_cost(*m, ts@.take(i as int)),
            -(i as int) * COST_STEP <= acc <= (i as int) * COST_STEP,
            forall|x: int|
                0 <= x < i ==> (#[trigger] ts@[x]).entry.left_id < m.backward_size && ts@[x].entry.right_id
                    < m.forward_size,
        decreases ts@.len() - i,
    {
        let e = ts[i].entry;
        if e.left_id >= m.backward_size || e.right_id >= m.forward_size {
            return None;
        }
        proof {
            reveal_with_fuel(prefix_cost, 1);
            assert(ts@.take(i + 1).drop_last() =~= ts@.take(i as int));
            assert(ts@.take(i + 1).last().entry == e);
        }
        acc = acc + m.cost(right, e.left_id) as i128 + e.word_cost as i128;
        right = e.right_id;
        i += 1;
    }
    assert(ts@.take(i as int) =~= ts@);
    Some(acc + m.cost(right, BOUNDARY_CONTEXT) as i128)
}

} // verus!
