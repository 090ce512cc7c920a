//! Centrality scores over the co-occurrence graph.
//!
//! Degree centrality counts the distinct edges incident to a node.
//! Betweenness centrality follows Brandes' algorithm: repeated
//! breadth-first traversals over the unweighted topology, a reverse
//! dependency-accumulation pass, and a final normalization.

use vstd::prelude::*;
use crate::graph::EdgeModel;
use crate::graph::GenreGraph;
use crate::graph::GraphModel;

verus! {

/// How many edges of `edges` touch node `v`.
pub open spec fn incident_count(edges: Seq<EdgeModel>, v: int) -> int
    decreases edges.len(),
{
    if edges.len() == 0 {
        0
    } else {
        incident_count(edges.drop_last(), v) + if edges.last().a == v || edges.last().b == v {
            1int
        } else {
            0int
        }
    }
}

/// The degrees of the nodes `0 .. n`, summed.
pub open spec fn degree_sum(edges: Seq<EdgeModel>, n: int) -> int
    decreases n,
{
    if n <= 0 {
        0
    } else {
        degree_sum(edges, n - 1) + incident_count(edges, n - 1)
    }
}

/// Degree centrality: for every node, in node order, the number of
/// distinct edges incident to it. Edge weights do not inflate the
/// count, and every node appears in the result.
pub fn calculate_degree_centrality(graph: &GenreGraph) -> (r: Vec<(String, usize)>)
    requires
        graph.wf(),
    ensures
        r@.len() == graph.model().labels.len(),
        forall|i: int|
            0 <= i < r@.len() ==> r@[i].0@ == graph.model().labels[i] && r@[i].1 as int
                == incident_count(graph.model().edges, i),
{
    let n = graph.labels.len();
    let ne = graph.edges.len();
    let mut r: Vec<(String, usize)> = Vec::new();
    let mut v: usize = 0;
    while v < n
        invariant
            v <= n,
            n == graph.labels@.len(),
            ne == graph.edges@.len(),
            r@.len() == v as int,
            forall|i: int|
                0 <= i < v ==> r@[i].0@ == graph.model().labels[i] && r@[i].1 as int
                    == incident_count(graph.model().edges, i),
        decreases n - v,
    {
        let mut count: usize = 0;
        let mut e: usize = 0;
        proof {
            assert(graph.model().edges.subrange(0, 0) =~= Seq::<EdgeModel>::empty());
        }
        while e < ne
            invariant
                e <= ne,
                ne == graph.edges@.len(),
                v < n,
                n == graph.labels@.len(),
                count <= e,
                count as int == incident_count(
                    graph.model().edges.subrange(0, e as int),
                    v as int,
                ),
            decreases ne - e,
        {
            proof {
                let all = graph.model().edges;
                assert(all.subrange(0, e + 1 as int).drop_last() =~= all.subrange(0, e as int));
                assert(all.subrange(0, e + 1 as int).last() == all[e as int]);
            }
            if graph.edges[e].a == v || graph.edges[e].b == v {
                count = count + 1;
            }
            e = e + 1;
        }
        proof {
            assert(graph.model().edges.subrange(0, ne as int) =~= graph.model().edges);
        }
        let label = graph.labels[v].clone();
        r.push((label, count));
        v = v + 1;
    }
    r
}

/// A nonnegative rational score: `num / den`, with `den >= 1`.
#[derive(Clone, Copy, Debug)]
pub struct Score {
    pub num: u64,
    pub den: u64,
}

/// `a + b`, capped at the machine word.
fn add_cap(a: u64, b: u64) -> (r: u64)
    ensures
        a as int + b as int <= u64::MAX as int ==> r as int == a as int + b as int,
        a as int + b as int > u64::MAX as int ==> r == u64::MAX,
        r >= a,
        r >= b,
{
    if a <= u64::MAX - b {
        a + b
    } else {
        u64::MAX
    }
}

/// `a * b`, capped at the machine word.
fn mul_cap(a: u64, b: u64) -> (r: u64)
    ensures
        a as int * b as int <= u64::MAX as int ==> r as int == a as int * b as int,
        a as int * b as int > u64::MAX as int ==> r == u64::MAX,
        a >= 1 && b >= 1 ==> r >= 1,
        a == 0 || b == 0 ==> r == 0,
{
    proof {
        assert((a as int) * (b as int) <= (u64::MAX as int) * (u64::MAX as int))
            by (nonlinear_arith)
            requires
                a <= u64::MAX,
                b <= u64::MAX,
        ;
        assert(a >= 1 && b >= 1 ==> (a as int) * (b as int) >= 1) by (nonlinear_arith);
        assert(a == 0 || b == 0 ==> (a as int) * (b as int) == 0) by (nonlinear_arith);
    }
    let p: u128 = (a as u128) * (b as u128);
    if p > u64::MAX as u128 {
        u64::MAX
    } else {
        p as u64
    }
}

/// Euclid's recursion, the mathematical statement of `gcd64`.
pub open spec fn spec_gcd(a: int, b: int) -> int
    decreases b,
{
    if b <= 0 {
        a
    } else {
        spec_gcd(b, a % b)
    }
}

/// Greatest common divisor by Euclid's algorithm; positive whenever one
/// argument is.
fn gcd64(a0: u64, b0: u64) -> (g: u64)
    requires
        b0 >= 1,
    ensures
        g >= 1,
        g as int == spec_gcd(a0 as int, b0 as int),
{
    let mut a = a0;
    let mut b = b0;
    while b != 0
        invariant
            a >= 1 || b >= 1,
            spec_gcd(a as int, b as int) == spec_gcd(a0 as int, b0 as int),
        decreases b,
    {
        let t = a % b;
        a = b;
        b = t;
    }
    a
}

/// Put `num / den` into lowest terms where that is cheap to check; the
/// value of the fraction is kept exactly.
fn reduce(num: u64, den: u64) -> (r: Score)
    requires
        den >= 1,
    ensures
        r.den >= 1,
        r.num as int * den as int == num as int * r.den as int,
        num == 0 ==> r.num == 0,
{
    let g = gcd64(num, den);
    if num % g == 0 && den % g == 0 && den / g >= 1 {
        let rn = num / g;
        let rd = den / g;
        proof {
            assert(rn as int * g as int == num as int) by (nonlinear_arith)
                requires
                    g >= 1,
                    num % g == 0,
                    rn == num / g,
            ;
            assert(rd as int * g as int == den as int) by (nonlinear_arith)
                requires
                    g >= 1,
                    den % g == 0,
                    rd == den / g,
            ;
            assert(rn as int * den as int == num as int * rd as int) by (nonlinear_arith)
                requires
                    rn as int * g as int == num as int,
                    rd as int * g as int == den as int,
            ;
            assert(num == 0 ==> rn == 0) by (nonlinear_arith)
                requires
                    g >= 1,
                    rn as int * g as int == num as int,
            ;
        }
        Score { num: rn, den: rd }
    } else {
        Score { num, den }
    }
}

/// `x + y` over scores. While the cross products fit the machine
/// word, the result is exactly the rational sum, stated by
/// cross-multiplication.
fn score_add(x: Score, y: Score) -> (r: Score)
    requires
        x.den >= 1,
        y.den >= 1,
    ensures
        r.den >= 1,
        x.num == 0 && y.num == 0 ==> r.num == 0,
        (x.num as int * y.den as int + y.num as int * x.den as int <= u64::MAX as int && x.den as int
            * y.den as int <= u64::MAX as int) ==> r.num as int * (x.den as int * y.den as int) == (
        x.num as int * y.den as int + y.num as int * x.den as int) * r.den as int,
{
    proof {
        assert(x.num as int * y.den as int >= 0) by (nonlinear_arith);
        assert(y.num as int * x.den as int >= 0) by (nonlinear_arith);
    }
    let num = add_cap(mul_cap(x.num, y.den), mul_cap(y.num, x.den));
    let den = mul_cap(x.den, y.den);
    reduce(num, den)
}

/// One Brandes dependency step: `dv + (sv / sw) * (1 + dw)`. While
/// the intermediate sums and products fit the machine word, the
/// result is exactly that rational, stated by cross-multiplication
/// over the common denominator `dv.den * sw * dw.den`.
fn score_accumulate(dv: Score, dw: Score, sv: u64, sw: u64) -> (r: Score)
    requires
        dv.den >= 1,
        dw.den >= 1,
        sw >= 1,
    ensures
        r.den >= 1,
        (dw.den as int + dw.num as int <= u64::MAX as int && sw as int * dw.den as int
            <= u64::MAX as int && sv as int * (dw.den as int + dw.num as int) <= u64::MAX as int
            && dv.num as int * (sw as int * dw.den as int) + dv.den as int * (sv as int * (
        dw.den as int + dw.num as int)) <= u64::MAX as int && dv.den as int * (sw as int
            * dw.den as int) <= u64::MAX as int) ==> r.num as int * (dv.den as int * (sw as int
            * dw.den as int)) == (dv.num as int * (sw as int * dw.den as int) + dv.den as int * (
        sv as int * (dw.den as int + dw.num as int))) * r.den as int,
{
    proof {
        assert(dv.num as int * (sw as int * dw.den as int) >= 0) by (nonlinear_arith);
        assert(dv.den as int * (sv as int * (dw.den as int + dw.num as int)) >= 0)
            by (nonlinear_arith);
        assert(sw as int * dw.den as int >= 0) by (nonlinear_arith);
        assert(sv as int * (dw.den as int + dw.num as int) >= 0) by (nonlinear_arith);
    }
    let b = mul_cap(sw, dw.den);
    let t = mul_cap(sv, add_cap(dw.den, dw.num));
    let num = add_cap(mul_cap(dv.num, b), mul_cap(dv.den, t));
    let den = mul_cap(dv.den, b);
    reduce(num, den)
}

/// `x / d`. While the denominator product fits the machine word, the
/// result is exactly `x.num / (x.den * d)`, stated by
/// cross-multiplication.
fn score_div(x: Score, d: u64) -> (r: Score)
    requires
        x.den >= 1,
        d >= 1,
    ensures
        r.den >= 1,
        x.num == 0 ==> r.num == 0,
        x.den as int * d as int <= u64::MAX as int ==> r.num as int * (x.den as int * d as int)
            == x.num as int * r.den as int,
{
    reduce(x.num, mul_cap(x.den, d))
}

proof fn lemma_incident_nonneg(edges: Seq<EdgeModel>, v: int)
    ensures
        incident_count(edges, v) >= 0,
    decreases edges.len(),
{
    if edges.len() > 0 {
        lemma_incident_nonneg(edges.drop_last(), v);
    }
}

proof fn lemma_incident_pos(edges: Seq<EdgeModel>, k: int, v: int)
    requires
        0 <= k < edges.len(),
        edges[k].a == v || edges[k].b == v,
    ensures
        incident_count(edges, v) >= 1,
    decreases edges.len(),
{
    let d = edges.drop_last();
    if k == edges.len() - 1 {
        lemma_incident_nonneg(d, v);
    } else {
        lemma_incident_pos(d, k, v);
    }
}

/// How many entries of `dist` still carry the unvisited sentinel.
spec fn count_unvis(dist: Seq<u64>) -> int
    decreases dist.len(),
{
    if dist.len() == 0 {
        0
    } else {
        count_unvis(dist.drop_last()) + if dist.last() == u64::MAX {
            1int
        } else {
            0int
        }
    }
}

proof fn lemma_count_unvis_nonneg(dist: Seq<u64>)
    ensures
        count_unvis(dist) >= 0,
    decreases dist.len(),
{
    if dist.len() > 0 {
        lemma_count_unvis_nonneg(dist.drop_last());
    }
}

proof fn lemma_count_unvis_update(dist: Seq<u64>, w: int, x: u64)
    requires
        0 <= w < dist.len(),
        dist[w] == u64::MAX,
        x != u64::MAX,
    ensures
        count_unvis(dist.update(w, x)) == count_unvis(dist) - 1,
    decreases dist.len(),
{
    let u = dist.update(w, x);
    if w == dist.len() - 1 {
        assert(u.drop_last() =~= dist.drop_last());
        assert(u.last() == x);
    } else {
        assert(u.drop_last() =~= dist.drop_last().update(w, x));
        lemma_count_unvis_update(dist.drop_last(), w, x);
        assert(u.last() == dist.last());
    }
}

/// Betweenness centrality by Brandes' algorithm, ignoring edge weights:
/// for every source, a breadth-first (first-in-first-out) traversal
/// counts shortest paths, then a pass in reverse finish order
/// accumulates each node's dependency.
///
/// Normalization: the accumulated totals are divided by
/// `2 * (n-1) * (n-2)`. Brandes' accumulation sees every unordered
/// endpoint pair twice, once from each end, so the division by
/// `2 (n-1)(n-2)` counts each unordered pair once against the
/// `(n-1)(n-2)` pair slots; on the four-node diamond this puts the
/// cut vertex at exactly one third. With fewer than three nodes every
/// score is zero.
///
/// Every node appears in the result, in node order, with a rational
/// score inside the unit interval; an isolated node always scores
/// zero. Exact dependency values never leave the unit interval after
/// this normalization; the final clamp, like the saturation of path
/// counts, distances and products at the machine word, only rounds
/// states that no real dataset reaches.
pub fn calculate_betweenness_centrality(graph: &GenreGraph) -> (r: Vec<(String, Score)>)
    requires
        graph.wf(),
    ensures
        r@.len() == graph.model().labels.len(),
        forall|i: int|
            0 <= i < r@.len() ==> (#[trigger] r@[i]).0@ == graph.model().labels[i]
                && r@[i].1.den >= 1 && r@[i].1.num <= r@[i].1.den,
        graph.model().labels.len() < 3 ==> forall|i: int|
            0 <= i < r@.len() ==> (#[trigger] r@[i]).1.num == 0,
        forall|i: int|
            0 <= i < r@.len() && incident_count(graph.model().edges, i) == 0 ==> (
            #[trigger] r@[i]).1.num == 0,
{
    let ghost m = graph.model();
    let n = graph.labels.len();
    let ne = graph.edges.len();

    let mut adj: Vec<Vec<usize>> = Vec::new();
    while adj.len() < n
        invariant
            adj@.len() <= n,
            forall|v: int| 0 <= v < adj@.len() ==> (#[trigger] adj@[v])@.len() == 0,
        decreases n - adj@.len(),
    {
        adj.push(Vec::new());
    }
    let mut j: usize = 0;
    while j < ne
        invariant
            j <= ne,
            ne == m.edges.len(),
            n == m.labels.len(),
            m == graph.model(),
            graph.wf(),
            adj@.len() == n,
            forall|v: int, k: int|
                0 <= v < n && 0 <= k < adj@[v]@.len() ==> (#[trigger] adj@[v]@[k]) < n
                    && incident_count(m.edges, adj@[v]@[k] as int) >= 1 && incident_count(
                    m.edges,
                    v,
                ) >= 1,
        decreases ne - j,
    {
        let ea = graph.edges[j].a;
        let eb = graph.edges[j].b;
        proof {
            assert(m.edge_ok(j as int));
            lemma_incident_pos(m.edges, j as int, ea as int);
            lemma_incident_pos(m.edges, j as int, eb as int);
        }
        let ghost before = adj@;
        adj[ea].push(eb);
        proof {
            assert forall|v: int, k: int|
                0 <= v < n && 0 <= k < adj@[v]@.len() implies (#[trigger] adj@[v]@[k]) < n
                && incident_count(m.edges, adj@[v]@[k] as int) >= 1 && incident_count(m.edges, v)
                >= 1 by {
                if v == ea as int && k == before[v]@.len() {
                    assert(adj@[v]@[k] == eb);
                } else {
                    assert(adj@[v]@[k] == before[v]@[k]);
                }
            }
        }
        let ghost before2 = adj@;
        adj[eb].push(ea);
        proof {
            assert forall|v: int, k: int|
                0 <= v < n && 0 <= k < adj@[v]@.len() implies (#[trigger] adj@[v]@[k]) < n
                && incident_count(m.edges, adj@[v]@[k] as int) >= 1 && incident_count(m.edges, v)
                >= 1 by {
                if v == eb as int && k == before2[v]@.len() {
                    assert(adj@[v]@[k] == ea);
                } else {
                    assert(adj@[v]@[k] == before2[v]@[k]);
                }
            }
        }
        j = j + 1;
    }

    let mut bet: Vec<Score> = Vec::new();
    while bet.len() < n
        invariant
            bet@.len() <= n,
            forall|v: int|
                0 <= v < bet@.len() ==> (#[trigger] bet@[v]).den >= 1 && bet@[v].num == 0,
        decreases n - bet@.len(),
    {
        bet.push(Score { num: 0, den: 1 });
    }

    let mut s: usize = 0;
    while s < n
        invariant
            s <= n,
            n == m.labels.len(),
            ne == m.edges.len(),
            m == graph.model(),
            graph.wf(),
            adj@.len() == n,
            forall|v: int, k: int|
                0 <= v < n && 0 <= k < adj@[v]@.len() ==> (#[trigger] adj@[v]@[k]) < n
                    && incident_count(m.edges, adj@[v]@[k] as int) >= 1 && incident_count(
                    m.edges,
                    v,
                ) >= 1,
            bet@.len() == n,
            forall|v: int| 0 <= v < n ==> (#[trigger] bet@[v]).den >= 1,
            forall|v: int|
                0 <= v < n && incident_count(m.edges, v) == 0 ==> (#[trigger] bet@[v]).num == 0,
        decreases n - s,
    {
        let mut dist: Vec<u64> = Vec::new();
        while dist.len() < n
            invariant
                dist@.len() <= n,
                forall|v: int| 0 <= v < dist@.len() ==> (#[trigger] dist@[v]) == u64::MAX,
            decreases n - dist@.len(),
        {
            dist.push(u64::MAX);
        }
        let mut sigma: Vec<u64> = Vec::new();
        while sigma.len() < n
            invariant
                sigma@.len() <= n,
            decreases n - sigma@.len(),
        {
            sigma.push(0);
        }
        let mut preds: Vec<Vec<usize>> = Vec::new();
        while preds.len() < n
            invariant
                preds@.len() <= n,
                forall|v: int| 0 <= v < preds@.len() ==> (#[trigger] preds@[v])@.len() == 0,
            decreases n - preds@.len(),
        {
            preds.push(Vec::new());
        }
        dist[s] = 0;
        sigma[s] = 1;
        let mut queue: Vec<usize> = Vec::new();
        let mut stack_v: Vec<usize> = Vec::new();
        queue.push(s);
        let mut head: usize = 0;
        while head < queue.len()
            invariant
                n == m.labels.len(),
                m == graph.model(),
                graph.wf(),
                s < n,
                adj@.len() == n,
                forall|v: int, k: int|
                    0 <= v < n && 0 <= k < adj@[v]@.len() ==> (#[trigger] adj@[v]@[k]) < n
                        && incident_count(m.edges, adj@[v]@[k] as int) >= 1 && incident_count(
                        m.edges,
                        v,
                    ) >= 1,
                dist@.len() == n,
                sigma@.len() == n,
                preds@.len() == n,
                head <= queue@.len(),
                forall|q: int|
                    0 <= q < queue@.len() ==> (#[trigger] queue@[q]) < n && dist@[queue@[q] as int]
                        != u64::MAX && sigma@[queue@[q] as int] >= 1 && (queue@[q] == s
                        || incident_count(m.edges, queue@[q] as int) >= 1),
                stack_v@.len() == head as int,
                forall|q: int| 0 <= q < stack_v@.len() ==> (#[trigger] stack_v@[q]) == queue@[q],
                forall|w: int, k: int|
                    0 <= w < n && 0 <= k < preds@[w]@.len() ==> (#[trigger] preds@[w]@[k]) < n
                        && incident_count(m.edges, preds@[w]@[k] as int) >= 1,
            decreases count_unvis(dist@), queue@.len() - head,
        {
            proof {
                lemma_count_unvis_nonneg(dist@);
            }
            let v = queue[head];
            head = head + 1;
            stack_v.push(v);
            let dv = dist[v];
            let nd = if dv >= u64::MAX - 1 {
                u64::MAX - 1
            } else {
                dv + 1
            };
            let deg = adj[v].len();
            let ghost dist0 = dist@;
            let ghost qlen0 = queue@.len();
            let mut t: usize = 0;
            while t < deg
                invariant
                    n == m.labels.len(),
                    m == graph.model(),
                    graph.wf(),
                    s < n,
                    v < n,
                    adj@.len() == n,
                    forall|vv: int, k: int|
                        0 <= vv < n && 0 <= k < adj@[vv]@.len() ==> (#[trigger] adj@[vv]@[k]) < n
                            && incident_count(m.edges, adj@[vv]@[k] as int) >= 1 && incident_count(
                            m.edges,
                            vv,
                        ) >= 1,
                    dist@.len() == n,
                    sigma@.len() == n,
                    preds@.len() == n,
                    t <= deg,
                    deg == adj@[v as int]@.len(),
                    nd != u64::MAX,
                    sigma@[v as int] >= 1,
                    head <= queue@.len(),
                    forall|q: int|
                        0 <= q < queue@.len() ==> (#[trigger] queue@[q]) < n && dist@[queue@[q] as int] != u64::MAX && sigma@[queue@[q] as int] >= 1 && (queue@[q] == s
                            || incident_count(m.edges, queue@[q] as int) >= 1),
                    stack_v@.len() == head as int,
                    forall|q: int|
                        0 <= q < stack_v@.len() ==> (#[trigger] stack_v@[q]) == queue@[q],
                    forall|w: int, k: int|
                        0 <= w < n && 0 <= k < preds@[w]@.len() ==> (#[trigger] preds@[w]@[k]) < n
                            && incident_count(m.edges, preds@[w]@[k] as int) >= 1,
                    count_unvis(dist@) <= count_unvis(dist0),
                    queue@.len() >= qlen0,
                    queue@.len() > qlen0 ==> count_unvis(dist@) < count_unvis(dist0),
                decreases deg - t,
            {
                let w = adj[v][t];
                proof {
                    assert(adj@[v as int]@[t as int] == w);
                }
                if dist[w] == u64::MAX {
                    queue.push(w);
                    let ghost dbefore = dist@;
                    dist[w] = nd;
                    proof {
                        lemma_count_unvis_update(dbefore, w as int, nd);
                    }
                }
                if dist[w] == nd {
                    let sw = add_cap(sigma[w], sigma[v]);
                    sigma[w] = sw;
                    let ghost pbefore = preds@;
                    preds[w].push(v);
                    proof {
                        assert forall|ww: int, k: int|
                            0 <= ww < n && 0 <= k < preds@[ww]@.len() implies (#[trigger] preds@[ww]@[k]) < n && incident_count(m.edges, preds@[ww]@[k] as int) >= 1 by {
                            if ww == w as int && k == pbefore[ww]@.len() {
                                assert(preds@[ww]@[k] == v);
                            } else {
                                assert(preds@[ww]@[k] == pbefore[ww]@[k]);
                            }
                        }
                    }
                }
                t = t + 1;
            }
            proof {
                lemma_count_unvis_nonneg(dist@);
            }
        }

        let mut delta: Vec<Score> = Vec::new();
        while delta.len() < n
            invariant
                delta@.len() <= n,
                forall|v: int| 0 <= v < delta@.len() ==> (#[trigger] delta@[v]).den >= 1,
            decreases n - delta@.len(),
        {
            delta.push(Score { num: 0, den: 1 });
        }
        while stack_v.len() > 0
            invariant
                n == m.labels.len(),
                m == graph.model(),
                graph.wf(),
                s < n,
                dist@.len() == n,
                sigma@.len() == n,
                preds@.len() == n,
                delta@.len() == n,
                bet@.len() == n,
                forall|q: int|
                    0 <= q < stack_v@.len() ==> (#[trigger] stack_v@[q]) < n && sigma@[stack_v@[q] as int] >= 1 && (stack_v@[q] == s || incident_count(
                        m.edges,
                        stack_v@[q] as int,
                    ) >= 1),
                forall|w: int, k: int|
                    0 <= w < n && 0 <= k < preds@[w]@.len() ==> (#[trigger] preds@[w]@[k]) < n
                        && incident_count(m.edges, preds@[w]@[k] as int) >= 1,
                forall|v: int| 0 <= v < n ==> (#[trigger] delta@[v]).den >= 1,
                forall|v: int| 0 <= v < n ==> (#[trigger] bet@[v]).den >= 1,
                forall|v: int|
                    0 <= v < n && incident_count(m.edges, v) == 0 ==> (#[trigger] bet@[v]).num
                        == 0,
            decreases stack_v@.len(),
        {
            let w = stack_v.pop().unwrap();
            let sw = sigma[w];
            let degp = preds[w].len();
            let mut t: usize = 0;
            while t < degp
                invariant
                    t <= degp,
                    w < n,
                    n == m.labels.len(),
                    degp == preds@[w as int]@.len(),
                    sw == sigma@[w as int],
                    sw >= 1,
                    sigma@.len() == n,
                    preds@.len() == n,
                    delta@.len() == n,
                    forall|ww: int, k: int|
                        0 <= ww < n && 0 <= k < preds@[ww]@.len() ==> (#[trigger] preds@[ww]@[k])
                            < n && incident_count(m.edges, preds@[ww]@[k] as int) >= 1,
                    forall|v: int| 0 <= v < n ==> (#[trigger] delta@[v]).den >= 1,
                decreases degp - t,
            {
                let p = preds[w][t];
                proof {
                    assert(preds@[w as int]@[t as int] == p);
                }
                let dp = delta[p];
                let dw = delta[w];
                let nv = score_accumulate(dp, dw, sigma[p], sw);
                let ghost dl0 = delta@;
                delta[p] = nv;
                proof {
                    assert forall|v: int| 0 <= v < n implies (#[trigger] delta@[v]).den >= 1 by {
                        if v != p as int {
                            assert(delta@[v] == dl0[v]);
                        }
                    }
                }
                t = t + 1;
            }
            if w != s {
                let bw = bet[w];
                let dw = delta[w];
                let nb = score_add(bw, dw);
                let ghost b0 = bet@;
                bet[w] = nb;
                proof {
                    assert forall|v: int|
                        0 <= v < n && incident_count(m.edges, v) == 0 implies (#[trigger] bet@[v]).num == 0 by {
                        if v != w as int {
                            assert(bet@[v] == b0[v]);
                        }
                    }
                }
            }
        }
        s = s + 1;
    }

    let norm: u64 = if n >= 3 {
        mul_cap(mul_cap(2, (n - 1) as u64), (n - 2) as u64)
    } else {
        1
    };
    let mut r: Vec<(String, Score)> = Vec::new();
    let mut v: usize = 0;
    while v < n
        invariant
            v <= n,
            n == m.labels.len(),
            m == graph.model(),
            graph.wf(),
            bet@.len() == n,
            norm >= 1,
            forall|i: int| 0 <= i < n ==> (#[trigger] bet@[i]).den >= 1,
            forall|i: int|
                0 <= i < n && incident_count(m.edges, i) == 0 ==> (#[trigger] bet@[i]).num == 0,
            r@.len() == v as int,
            forall|i: int|
                0 <= i < v ==> (#[trigger] r@[i]).0@ == m.labels[i] && r@[i].1.den >= 1
                    && r@[i].1.num <= r@[i].1.den,
            n < 3 ==> forall|i: int| 0 <= i < v ==> (#[trigger] r@[i]).1.num == 0,
            forall|i: int|
                0 <= i < v && incident_count(m.edges, i) == 0 ==> (#[trigger] r@[i]).1.num == 0,
        decreases n - v,
    {
        let sc = if n < 3 {
            Score { num: 0, den: 1 }
        } else {
            let d = score_div(bet[v], norm);
            if d.num > d.den {
                Score { num: d.den, den: d.den }
            } else {
                d
            }
        };
        let label = graph.labels[v].clone();
        r.push((label, sc));
        v = v + 1;
    }
    r
}

proof fn lemma_incident_push(edges: Seq<EdgeModel>, e: EdgeModel, v: int)
    ensures
        incident_count(edges.push(e), v) == incident_count(edges, v) + if e.a == v || e.b == v {
            1int
        } else {
            0int
        },
{
    assert(edges.push(e).drop_last() =~= edges);
    assert(edges.push(e).last() == e);
}

proof fn lemma_degree_sum_push(edges: Seq<EdgeModel>, e: EdgeModel, n: int)
    ensures
        degree_sum(edges.push(e), n) == degree_sum(edges, n) + (if 0 <= e.a < n {
            1int
        } else {
            0int
        }) + (if 0 <= e.b < n && e.b != e.a {
            1int
        } else {
            0int
        }),
    decreases n,
{
    if n > 0 {
        lemma_degree_sum_push(edges, e, n - 1);
        lemma_incident_push(edges, e, n - 1);
    }
}

proof fn lemma_degree_sum_empty(n: int)
    ensures
        degree_sum(Seq::<EdgeModel>::empty(), n) == 0,
    decreases n,
{
    if n > 0 {
        lemma_degree_sum_empty(n - 1);
    }
}

/// Handshake law: over any well-formed graph, the degrees of all nodes
/// sum to exactly twice the number of distinct edges, because every
/// edge joins exactly two distinct nodes.
pub proof fn lemma_degree_handshake(g: GraphModel)
    requires
        g.wf(),
    ensures
        degree_sum(g.edges, g.labels.len() as int) == 2 * g.edges.len(),
{
    assert forall|k: int| 0 <= k < g.edges.len() implies 0 <= #[trigger] g.edges[k].a
        < g.edges[k].b < g.labels.len() by {
        assert(g.edge_ok(k));
    }
    lemma_handshake_edges(g.edges, g.labels.len() as int);
}

/// The degree entries of a result sequence, summed.
pub open spec fn result_degree_sum(r: Seq<(String, usize)>) -> int
    decreases r.len(),
{
    if r.len() == 0 {
        0
    } else {
        result_degree_sum(r.drop_last()) + r.last().1
    }
}

proof fn lemma_result_sum_eq(edges: Seq<EdgeModel>, r: Seq<(String, usize)>, n: int)
    requires
        0 <= n <= r.len(),
        forall|i: int| 0 <= i < r.len() ==> (#[trigger] r[i]).1 as int == incident_count(edges, i),
    ensures
        result_degree_sum(r.subrange(0, n)) == degree_sum(edges, n),
    decreases n,
{
    if n == 0 {
        assert(r.subrange(0, 0) =~= Seq::<(String, usize)>::empty());
    } else {
        lemma_result_sum_eq(edges, r, n - 1);
        assert(r.subrange(0, n).drop_last() =~= r.subrange(0, n - 1));
        assert(r.subrange(0, n).last() == r[n - 1]);
    }
}

/// Handshake law at the interface: the degrees that
/// `calculate_degree_centrality` hands back sum to exactly twice the
/// number of distinct edges of the well-formed graph they were
/// computed from.
pub proof fn lemma_result_degree_handshake(g: GraphModel, r: Seq<(String, usize)>)
    requires
        g.wf(),
        r.len() == g.labels.len(),
        forall|i: int| 0 <= i < r.len() ==> (#[trigger] r[i]).1 as int == incident_count(g.edges, i),
    ensures
        result_degree_sum(r) == 2 * g.edges.len(),
{
    lemma_degree_handshake(g);
    lemma_result_sum_eq(g.edges, r, r.len() as int);
    assert(r.subrange(0, r.len() as int) =~= r);
}

proof fn lemma_handshake_edges(edges: Seq<EdgeModel>, n: int)
    requires
        forall|k: int| 0 <= k < edges.len() ==> 0 <= #[trigger] edges[k].a < edges[k].b < n,
    ensures
        degree_sum(edges, n) == 2 * edges.len(),
    decreases edges.len(),
{
    if edges.len() == 0 {
        assert(edges =~= Seq::<EdgeModel>::empty());
        lemma_degree_sum_empty(n);
    } else {
        let d = edges.drop_last();
        let e = edges.last();
        assert(forall|k: int| 0 <= k < d.len() ==> 0 <= #[trigger] d[k].a < d[k].b < n);
        lemma_handshake_edges(d, n);
        lemma_degree_sum_push(d, e, n);
        assert(edges =~= d.push(e));
    }
}

} // verus!
