//! The undirected weighted co-occurrence graph.
//!
//! Nodes are distinct labels, stored in first-occurrence order and
//! addressed by their index. Edges are unordered pairs of distinct node
//! indices, stored in canonical form (smaller index first), each with a
//! weight counting how often the two labels co-occurred.

use vstd::prelude::*;
use crate::labels::clean_labels;
use crate::labels::split_genre_labels;

verus! {

/// One undirected edge: canonical endpoints `a < b` and a weight.
pub struct GenreEdge {
    pub a: usize,
    pub b: usize,
    pub weight: u64,
}

/// Mathematical image of one edge.
#[verifier::ext_equal]
pub ghost struct EdgeModel {
    pub a: int,
    pub b: int,
    pub weight: int,
}

/// Mathematical image of a graph: label sequence plus edge sequence.
#[verifier::ext_equal]
pub ghost struct GraphModel {
    pub labels: Seq<Seq<char>>,
    pub edges: Seq<EdgeModel>,
}

/// The co-occurrence graph: labels in first-occurrence order, edges as
/// canonical index pairs with accumulated weights.
pub struct GenreGraph {
    pub labels: Vec<String>,
    pub edges: Vec<GenreEdge>,
}

impl GenreEdge {
    pub open spec fn model(&self) -> EdgeModel {
        EdgeModel { a: self.a as int, b: self.b as int, weight: self.weight as int }
    }
}

impl GenreGraph {
    pub open spec fn model(&self) -> GraphModel {
        GraphModel {
            labels: self.labels@.map_values(|s: String| s@),
            edges: self.edges@.map_values(|e: GenreEdge| e.model()),
        }
    }

    /// Well-formedness: distinct labels; every edge joins two distinct
    /// existing nodes in canonical order, carries a positive weight,
    /// and no unordered pair is stored twice.
    pub open spec fn wf(&self) -> bool {
        self.model().wf()
    }

    pub fn new() -> (g: GenreGraph)
        ensures
            g.wf(),
            g.model().labels.len() == 0,
            g.model().edges.len() == 0,
    {
        let g = GenreGraph { labels: Vec::new(), edges: Vec::new() };
        proof {
            assert(g.model().labels =~= Seq::<Seq<char>>::empty());
            assert(g.model().edges =~= Seq::<EdgeModel>::empty());
        }
        g
    }

    pub fn node_count(&self) -> (n: usize)
        ensures
            n == self.model().labels.len(),
    {
        self.labels.len()
    }

    pub fn edge_count(&self) -> (n: usize)
        ensures
            n == self.model().edges.len(),
    {
        self.edges.len()
    }

    /// The node carrying `label`, if that label has been seen.
    pub fn find_node(&self, label: &String) -> (r: Option<usize>)
        ensures
            match r {
                Some(i) => i < self.labels@.len() && i as int == index_of_label(
                    self.model().labels,
                    label@,
                ) && contains_label(self.model().labels, label@),
                None => !contains_label(self.model().labels, label@),
            },
    {
        let n = self.labels.len();
        let mut k: usize = 0;
        while k < n
            invariant
                k <= n,
                n == self.labels@.len(),
                forall|j: int| 0 <= j < k ==> self.model().labels[j] != label@,
            decreases n - k,
        {
            if self.labels[k] == *label {
                proof {
                    lemma_index_of_at(self.model().labels, label@, k as int);
                }
                return Some(k);
            }
            k = k + 1;
        }
        proof {
            lemma_index_of_at(self.model().labels, label@, n as int);
        }
        None
    }

    /// Look up or create the node for `label`; the result is its index.
    pub fn add_node(&mut self, label: String) -> (i: usize)
        requires
            old(self).wf(),
        ensures
            final(self).wf(),
            final(self).model().labels == model_add_label(old(self).model().labels, label@),
            final(self).model().edges == old(self).model().edges,
            i < final(self).labels@.len(),
            i as int == index_of_label(final(self).model().labels, label@),
            contains_label(final(self).model().labels, label@),
    {
        match self.find_node(&label) {
            Some(i) => i,
            None => {
                let i = self.labels.len();
                let ghost oldm = self.model().labels;
                self.labels.push(label);
                proof {
                    assert(self.model().labels =~= oldm.push(label@));
                    assert(self.model().edges =~= old(self).model().edges);
                    assert(forall|j: int| 0 <= j < i ==> self.model().labels[j] != label@);
                    lemma_index_of_at(self.model().labels, label@, i as int);
                    lemma_wf_push_label(old(self).model(), label@);
                    assert(self.model() =~= GraphModel {
                        labels: oldm.push(label@),
                        edges: old(self).model().edges,
                    });
                }
                i
            },
        }
    }

    /// Record one co-occurrence of the nodes `x` and `y`. A self-pair
    /// is skipped; otherwise the unordered pair's edge weight grows by
    /// one, the edge being created at weight one if absent.
    pub fn add_edge(&mut self, x: usize, y: usize)
        requires
            old(self).wf(),
            x < old(self).labels@.len(),
            y < old(self).labels@.len(),
        ensures
            final(self).wf(),
            final(self).model().labels == old(self).model().labels,
            final(self).model().edges == model_bump_pair(
                old(self).model().edges,
                x as int,
                y as int,
            ),
    {
        if x == y {
            return ;
        }
        let a = if x < y {
            x
        } else {
            y
        };
        let b = if x < y {
            y
        } else {
            x
        };
        let n = self.edges.len();
        let mut k: usize = 0;
        while k < n
            invariant
                k <= n,
                n == self.edges@.len(),
                self == old(self),
                old(self).wf(),
                a == canon_a(x as int, y as int),
                b == canon_b(x as int, y as int),
                a < b < self.labels@.len(),
                forall|m: int|
                    0 <= m < k ==> !(self.model().edges[m].a == a as int
                        && self.model().edges[m].b == b as int),
            decreases n - k,
        {
            if self.edges[k].a == a && self.edges[k].b == b {
                let w = self.edges[k].weight;
                let neww = if w == u64::MAX {
                    w
                } else {
                    w + 1
                };
                let ghost oldedges = self.model().edges;
                self.edges[k] = GenreEdge { a, b, weight: neww };
                proof {
                    lemma_edge_index_at(oldedges, a as int, b as int, k as int);
                    assert(self.model().edges =~= oldedges.update(
                        k as int,
                        EdgeModel {
                            a: a as int,
                            b: b as int,
                            weight: bump_weight(oldedges[k as int].weight),
                        },
                    ));
                    assert(self.model().labels =~= old(self).model().labels);
                    lemma_wf_update_edge(
                        old(self).model(),
                        k as int,
                        bump_weight(oldedges[k as int].weight),
                    );
                    assert(self.model() =~= GraphModel {
                        labels: old(self).model().labels,
                        edges: self.model().edges,
                    });
                }
                return ;
            }
            k = k + 1;
        }
        let ghost oldedges = self.model().edges;
        self.edges.push(GenreEdge { a, b, weight: 1 });
        proof {
            lemma_edge_index_at(oldedges, a as int, b as int, n as int);
            assert(self.model().edges =~= oldedges.push(
                EdgeModel { a: a as int, b: b as int, weight: 1 },
            ));
            assert(self.model().labels =~= old(self).model().labels);
            lemma_wf_push_edge(old(self).model(), a as int, b as int);
            assert(self.model() =~= GraphModel {
                labels: old(self).model().labels,
                edges: self.model().edges,
            });
        }
    }
}

impl GraphModel {
    pub open spec fn labels_distinct(self) -> bool {
        forall|i: int, j: int|
            0 <= i < j < self.labels.len() ==> self.labels[i] != self.labels[j]
    }

    pub open spec fn edge_ok(self, k: int) -> bool {
        &&& 0 <= self.edges[k].a < self.edges[k].b < self.labels.len()
        &&& self.edges[k].weight >= 1
    }

    pub open spec fn edges_unique(self) -> bool {
        forall|k: int, l: int|
            0 <= k < l < self.edges.len() ==> !(self.edges[k].a == self.edges[l].a
                && self.edges[k].b == self.edges[l].b)
    }

    pub open spec fn wf(self) -> bool {
        &&& self.labels_distinct()
        &&& (forall|k: int| 0 <= k < self.edges.len() ==> self.edge_ok(k))
        &&& self.edges_unique()
    }
}

/// Does some label of `labels` equal `l`?
pub open spec fn contains_label(labels: Seq<Seq<char>>, l: Seq<char>) -> bool {
    exists|i: int| 0 <= i < labels.len() && labels[i] == l
}

/// First index of `l` in `labels`, or `labels.len()` when absent.
pub open spec fn index_of_label(labels: Seq<Seq<char>>, l: Seq<char>) -> int
    decreases labels.len(),
{
    if labels.len() == 0 {
        0
    } else if labels[0] == l {
        0
    } else {
        1 + index_of_label(labels.drop_first(), l)
    }
}

/// First index of the canonical pair `(a, b)` among the edges, or
/// `edges.len()` when absent.
pub open spec fn edge_index(edges: Seq<EdgeModel>, a: int, b: int) -> int
    decreases edges.len(),
{
    if edges.len() == 0 {
        0
    } else if edges[0].a == a && edges[0].b == b {
        0
    } else {
        1 + edge_index(edges.drop_first(), a, b)
    }
}

/// A weight grows by one co-occurrence, staying within the machine word.
pub open spec fn bump_weight(w: int) -> int {
    if w >= u64::MAX as int {
        w
    } else {
        w + 1
    }
}

pub open spec fn canon_a(x: int, y: int) -> int {
    if x < y {
        x
    } else {
        y
    }
}

pub open spec fn canon_b(x: int, y: int) -> int {
    if x < y {
        y
    } else {
        x
    }
}

/// Record one co-occurrence of the distinct nodes `a < b`: increment
/// the existing edge, or append a fresh edge of weight one.
pub open spec fn model_bump_edge(edges: Seq<EdgeModel>, a: int, b: int) -> Seq<EdgeModel> {
    let k = edge_index(edges, a, b);
    if k < edges.len() {
        edges.update(k, EdgeModel { a, b, weight: bump_weight(edges[k].weight) })
    } else {
        edges.push(EdgeModel { a, b, weight: 1 })
    }
}

/// Record one co-occurrence of nodes `x` and `y`; a self-pair is a
/// no-op.
pub open spec fn model_bump_pair(edges: Seq<EdgeModel>, x: int, y: int) -> Seq<EdgeModel> {
    if x == y {
        edges
    } else {
        model_bump_edge(edges, canon_a(x, y), canon_b(x, y))
    }
}

/// Append `l` unless it is already a node label.
pub open spec fn model_add_label(labels: Seq<Seq<char>>, l: Seq<char>) -> Seq<Seq<char>> {
    if contains_label(labels, l) {
        labels
    } else {
        labels.push(l)
    }
}

/// Add every label of `ls` in order.
pub open spec fn model_add_labels(labels: Seq<Seq<char>>, ls: Seq<Seq<char>>) -> Seq<Seq<char>>
    decreases ls.len(),
{
    if ls.len() == 0 {
        labels
    } else {
        model_add_labels(model_add_label(labels, ls[0]), ls.drop_first())
    }
}

/// Bump the pairs `(idxs[i], idxs[j])` for `j` running from `j0` to the
/// end of `idxs`.
pub open spec fn model_bump_row(edges: Seq<EdgeModel>, idxs: Seq<int>, i: int, j0: int) -> Seq<
    EdgeModel,
>
    decreases idxs.len() - j0,
{
    if j0 < 0 || j0 >= idxs.len() {
        edges
    } else {
        model_bump_row(model_bump_pair(edges, idxs[i], idxs[j0]), idxs, i, j0 + 1)
    }
}

/// Bump every pair of positions `i < j` of `idxs`, for `i` running from
/// `i0` to the end.
pub open spec fn model_bump_all(edges: Seq<EdgeModel>, idxs: Seq<int>, i0: int) -> Seq<EdgeModel>
    decreases idxs.len() - i0,
{
    if i0 < 0 || i0 >= idxs.len() {
        edges
    } else {
        model_bump_all(model_bump_row(edges, idxs, i0, i0 + 1), idxs, i0 + 1)
    }
}

/// What one record does to the graph: its clean labels become nodes
/// (first occurrence wins), then every unordered pair of label
/// positions bumps an edge.
pub open spec fn record_model(g: GraphModel, rec: Seq<char>) -> GraphModel {
    let ls = clean_labels(rec);
    let labels2 = model_add_labels(g.labels, ls);
    let idxs = ls.map_values(|l: Seq<char>| index_of_label(labels2, l));
    GraphModel { labels: labels2, edges: model_bump_all(g.edges, idxs, 0) }
}

/// Fold the records from index `t` onward over the graph `g`.
pub open spec fn build_from(g: GraphModel, records: Seq<Seq<char>>, t: int) -> GraphModel
    decreases records.len() - t,
{
    if t < 0 || t >= records.len() {
        g
    } else {
        build_from(record_model(g, records[t]), records, t + 1)
    }
}

/// The graph that a sequence of raw record strings builds, starting
/// from the empty graph.
pub open spec fn build_model(records: Seq<Seq<char>>) -> GraphModel {
    build_from(GraphModel { labels: Seq::empty(), edges: Seq::empty() }, records, 0)
}

pub proof fn lemma_wf_push_label(m: GraphModel, l: Seq<char>)
    requires
        m.wf(),
        !contains_label(m.labels, l),
    ensures
        (GraphModel { labels: m.labels.push(l), edges: m.edges }).wf(),
{
    let m2 = GraphModel { labels: m.labels.push(l), edges: m.edges };
    assert forall|i: int, j: int| 0 <= i < j < m2.labels.len() implies m2.labels[i]
        != m2.labels[j] by {
        if j < m.labels.len() {
            assert(m.labels[i] != m.labels[j]);
        } else {
            assert(m2.labels[j] == l);
            assert(m2.labels[i] == m.labels[i]);
        }
    }
    assert forall|k: int| 0 <= k < m2.edges.len() implies m2.edge_ok(k) by {
        assert(m.edge_ok(k));
    }
}

pub proof fn lemma_wf_update_edge(m: GraphModel, k: int, neww: int)
    requires
        m.wf(),
        0 <= k < m.edges.len(),
        neww >= 1,
    ensures
        (GraphModel {
            labels: m.labels,
            edges: m.edges.update(
                k,
                EdgeModel { a: m.edges[k].a, b: m.edges[k].b, weight: neww },
            ),
        }).wf(),
{
    let m2 = GraphModel {
        labels: m.labels,
        edges: m.edges.update(k, EdgeModel { a: m.edges[k].a, b: m.edges[k].b, weight: neww }),
    };
    assert forall|q: int| 0 <= q < m2.edges.len() implies m2.edge_ok(q) by {
        assert(m.edge_ok(q));
    }
    assert forall|p: int, q: int| 0 <= p < q < m2.edges.len() implies !(m2.edges[p].a
        == m2.edges[q].a && m2.edges[p].b == m2.edges[q].b) by {
        assert(!(m.edges[p].a == m.edges[q].a && m.edges[p].b == m.edges[q].b));
        assert(m2.edges[p].a == m.edges[p].a && m2.edges[p].b == m.edges[p].b);
        assert(m2.edges[q].a == m.edges[q].a && m2.edges[q].b == m.edges[q].b);
    }
}

pub proof fn lemma_wf_push_edge(m: GraphModel, a: int, b: int)
    requires
        m.wf(),
        0 <= a < b < m.labels.len(),
        forall|q: int| 0 <= q < m.edges.len() ==> !(m.edges[q].a == a && m.edges[q].b == b),
    ensures
        (GraphModel { labels: m.labels, edges: m.edges.push(EdgeModel { a, b, weight: 1 }) }).wf(),
{
    let m2 = GraphModel { labels: m.labels, edges: m.edges.push(EdgeModel { a, b, weight: 1 }) };
    assert forall|q: int| 0 <= q < m2.edges.len() implies m2.edge_ok(q) by {
        if q < m.edges.len() {
            assert(m.edge_ok(q));
        } else {
            assert(m2.edges[q] == EdgeModel { a, b, weight: 1 });
        }
    }
    assert forall|p: int, q: int| 0 <= p < q < m2.edges.len() implies !(m2.edges[p].a
        == m2.edges[q].a && m2.edges[p].b == m2.edges[q].b) by {
        if q < m.edges.len() {
            assert(!(m.edges[p].a == m.edges[q].a && m.edges[p].b == m.edges[q].b));
        } else {
            assert(m2.edges[p] == m.edges[p]);
        }
    }
}

pub proof fn lemma_index_of_at(labels: Seq<Seq<char>>, l: Seq<char>, i: int)
    requires
        0 <= i <= labels.len(),
        forall|j: int| 0 <= j < i ==> labels[j] != l,
        i < labels.len() ==> labels[i] == l,
    ensures
        index_of_label(labels, l) == i,
        i < labels.len() ==> contains_label(labels, l),
        i == labels.len() ==> !contains_label(labels, l),
    decreases i,
{
    if i == 0 {
        if labels.len() > 0 && labels[0] != l {
            assert(false);
        }
    } else {
        let d = labels.drop_first();
        assert(forall|j: int| 0 <= j < i - 1 ==> d[j] != l);
        lemma_index_of_at(d, l, i - 1);
        if i == labels.len() && contains_label(labels, l) {
            let w = choose|w: int| 0 <= w < labels.len() && labels[w] == l;
            assert(w > 0 && d[w - 1] == l);
            assert(false);
        }
    }
}

pub proof fn lemma_edge_index_at(edges: Seq<EdgeModel>, a: int, b: int, k: int)
    requires
        0 <= k <= edges.len(),
        forall|m: int| 0 <= m < k ==> !(edges[m].a == a && edges[m].b == b),
        k < edges.len() ==> edges[k].a == a && edges[k].b == b,
    ensures
        edge_index(edges, a, b) == k,
    decreases k,
{
    if k == 0 {
        if edges.len() > 0 && !(edges[0].a == a && edges[0].b == b) {
            assert(false);
        }
    } else {
        let d = edges.drop_first();
        assert(forall|m: int| 0 <= m < k - 1 ==> !(d[m].a == a && d[m].b == b));
        lemma_edge_index_at(d, a, b, k - 1);
    }
}

/// `labels` is a prefix of what adding more labels gives.
pub open spec fn label_prefix(short: Seq<Seq<char>>, long: Seq<Seq<char>>) -> bool {
    short.len() <= long.len() && short == long.subrange(0, short.len() as int)
}

pub proof fn lemma_add_labels_prefix(labels: Seq<Seq<char>>, ls: Seq<Seq<char>>)
    ensures
        label_prefix(labels, model_add_labels(labels, ls)),
    decreases ls.len(),
{
    assert(labels.subrange(0, labels.len() as int) =~= labels);
    if ls.len() > 0 {
        let step = model_add_label(labels, ls[0]);
        lemma_add_labels_prefix(step, ls.drop_first());
        let full = model_add_labels(labels, ls);
        if !contains_label(labels, ls[0]) {
            assert(labels.push(ls[0]).subrange(0, labels.len() as int) =~= labels);
        }
        assert(full.subrange(0, step.len() as int).subrange(0, labels.len() as int) =~= full
            .subrange(0, labels.len() as int));
        assert(labels =~= full.subrange(0, labels.len() as int));
    }
}

pub proof fn lemma_index_of_prefix_stable(short: Seq<Seq<char>>, long: Seq<Seq<char>>, l: Seq<char>)
    requires
        label_prefix(short, long),
        contains_label(short, l),
    ensures
        contains_label(long, l),
        index_of_label(long, l) == index_of_label(short, l),
    decreases short.len(),
{
    let w = choose|w: int| 0 <= w < short.len() && short[w] == l;
    assert(long.subrange(0, short.len() as int)[w] == long[w]);
    assert(long[w] == l);
    if short[0] == l {
        assert(long[0] == l);
    } else {
        let ds = short.drop_first();
        let dl = long.drop_first();
        assert(ds[w - 1] == l);
        assert(ds =~= dl.subrange(0, ds.len() as int));
        lemma_index_of_prefix_stable(ds, dl, l);
        assert(long[0] == short[0]);
    }
}

/// Build the co-occurrence graph of a sequence of records, each a raw
/// comma-delimited label string: every record's clean labels become
/// nodes in first-occurrence order, and every unordered pair of label
/// positions within one record bumps that pair's edge weight.
pub fn create_genre_graph(records: &Vec<String>) -> (g: GenreGraph)
    ensures
        g.wf(),
        g.model() == build_model(records@.map_values(|r: String| r@)),
{
    let ghost recs = records@.map_values(|r: String| r@);
    let mut g = GenreGraph::new();
    proof {
        assert(g.model() =~= GraphModel { labels: Seq::empty(), edges: Seq::empty() });
    }
    let mut t: usize = 0;
    while t < records.len()
        invariant
            t <= records.len(),
            recs == records@.map_values(|r: String| r@),
            g.wf(),
            build_from(g.model(), recs, t as int) == build_model(recs),
        decreases records.len() - t,
    {
        let ghost g0 = g.model();
        let ls = split_genre_labels(records[t].as_str());
        let ghost lspec = clean_labels(recs[t as int]);
        proof {
            assert(recs[t as int] == records@[t as int]@);
            assert(ls@.map_values(|x: String| x@) == lspec);
        }
        let ghost labels2 = model_add_labels(g0.labels, lspec);
        let nl = ls.len();
        let mut idxs: Vec<usize> = Vec::new();
        let mut k: usize = 0;
        proof {
            assert(lspec.subrange(0, lspec.len() as int) =~= lspec);
        }
        while k < nl
            invariant
                k <= nl,
                nl == ls@.len(),
                idxs@.len() == k as int,
                g.wf(),
                ls@.map_values(|x: String| x@) == lspec,
                lspec.len() == nl,
                g.model().edges == g0.edges,
                model_add_labels(g.model().labels, lspec.subrange(k as int, lspec.len() as int))
                    == labels2,
                forall|m: int| 0 <= m < k ==> idxs@[m] < g.model().labels.len(),
                forall|m: int|
                    0 <= m < k ==> idxs@[m] as int == index_of_label(labels2, lspec[m]),
            decreases nl - k,
        {
            let ghost labels_before = g.model().labels;
            let lab = ls[k].clone();
            proof {
                assert(lab@ == lspec[k as int]);
                let rest = lspec.subrange(k as int, lspec.len() as int);
                assert(rest[0] == lspec[k as int]);
                assert(rest.drop_first() =~= lspec.subrange(k + 1 as int, lspec.len() as int));
                assert(model_add_labels(labels_before, rest) == model_add_labels(
                    model_add_label(labels_before, lspec[k as int]),
                    lspec.subrange(k + 1 as int, lspec.len() as int),
                ));
            }
            let i = g.add_node(lab);
            proof {
                lemma_add_labels_prefix(
                    g.model().labels,
                    lspec.subrange(k + 1 as int, lspec.len() as int),
                );
                lemma_index_of_prefix_stable(g.model().labels, labels2, lspec[k as int]);
                assert(labels2.len() >= g.model().labels.len());
            }
            idxs.push(i);
            k = k + 1;
        }
        proof {
            assert(lspec.subrange(k as int, lspec.len() as int) =~= Seq::<Seq<char>>::empty());
            assert(g.model().labels == labels2);
        }
        let ghost idxspec = lspec.map_values(|l: Seq<char>| index_of_label(labels2, l));
        proof {
            assert(idxspec =~= idxs@.map_values(|u: usize| u as int));
        }
        let ghost edges2 = model_bump_all(g0.edges, idxspec, 0);
        let m = idxs.len();
        let mut i: usize = 0;
        while i < m
            invariant
                i <= m,
                m == idxs@.len(),
                m == idxspec.len(),
                g.wf(),
                g.model().labels == labels2,
                idxspec == idxs@.map_values(|u: usize| u as int),
                forall|mm: int| 0 <= mm < m ==> idxs@[mm] < labels2.len(),
                model_bump_all(g.model().edges, idxspec, i as int) == edges2,
            decreases m - i,
        {
            let mut j = i + 1;
            proof {
                assert(model_bump_all(g.model().edges, idxspec, i as int)
                    == model_bump_all(
                    model_bump_row(g.model().edges, idxspec, i as int, i + 1 as int),
                    idxspec,
                    i + 1 as int,
                ));
            }
            while j < m
                invariant
                    i < m,
                    i + 1 <= j <= m,
                    m == idxs@.len(),
                    m == idxspec.len(),
                    g.wf(),
                    g.model().labels == labels2,
                    idxspec == idxs@.map_values(|u: usize| u as int),
                    forall|mm: int| 0 <= mm < m ==> idxs@[mm] < labels2.len(),
                    model_bump_all(
                        model_bump_row(g.model().edges, idxspec, i as int, j as int),
                        idxspec,
                        i + 1 as int,
                    ) == edges2,
                decreases m - j,
            {
                let ghost ebefore = g.model().edges;
                g.add_edge(idxs[i], idxs[j]);
                proof {
                    assert(g.model().edges == model_bump_pair(
                        ebefore,
                        idxspec[i as int],
                        idxspec[j as int],
                    ));
                    assert(model_bump_row(ebefore, idxspec, i as int, j as int)
                        == model_bump_row(g.model().edges, idxspec, i as int, j + 1 as int));
                }
                j = j + 1;
            }
            i = i + 1;
        }
        proof {
            assert(g.model().edges == edges2);
            assert(record_model(g0, recs[t as int]) =~= g.model());
            assert(build_from(g0, recs, t as int) == build_from(
                g.model(),
                recs,
                t + 1 as int,
            ));
        }
        t = t + 1;
    }
    proof {
        assert(build_from(g.model(), recs, recs.len() as int) == g.model());
    }
    g
}

proof fn lemma_index_of_contains(labels: Seq<Seq<char>>, l: Seq<char>)
    requires
        contains_label(labels, l),
    ensures
        0 <= index_of_label(labels, l) < labels.len(),
        labels[index_of_label(labels, l)] == l,
        forall|j: int| 0 <= j < index_of_label(labels, l) ==> labels[j] != l,
    decreases labels.len(),
{
    if labels[0] == l {
    } else {
        let d = labels.drop_first();
        let w = choose|w: int| 0 <= w < labels.len() && labels[w] == l;
        assert(d[w - 1] == l);
        lemma_index_of_contains(d, l);
        assert forall|j: int| 0 <= j < index_of_label(labels, l) implies labels[j] != l by {
            if j > 0 {
                assert(d[j - 1] != l);
            }
        }
    }
}

proof fn lemma_index_of_absent(labels: Seq<Seq<char>>, l: Seq<char>)
    requires
        !contains_label(labels, l),
    ensures
        index_of_label(labels, l) == labels.len(),
{
    assert forall|j: int| 0 <= j < labels.len() implies labels[j] != l by {
        if labels[j] == l {
            assert(contains_label(labels, l));
        }
    }
    lemma_index_of_at(labels, l, labels.len() as int);
}

proof fn lemma_add_labels_contains(labels: Seq<Seq<char>>, ls: Seq<Seq<char>>, m: int)
    requires
        0 <= m < ls.len(),
    ensures
        contains_label(model_add_labels(labels, ls), ls[m]),
    decreases ls.len(),
{
    let step = model_add_label(labels, ls[0]);
    if m == 0 {
        if contains_label(labels, ls[0]) {
            lemma_index_of_contains(labels, ls[0]);
            let i = index_of_label(labels, ls[0]);
            assert(step[i] == ls[0]);
        } else {
            assert(step[labels.len() as int] == ls[0]);
        }
        assert(contains_label(step, ls[0]));
        lemma_add_labels_prefix(step, ls.drop_first());
        lemma_index_of_prefix_stable(step, model_add_labels(labels, ls), ls[0]);
    } else {
        lemma_add_labels_contains(step, ls.drop_first(), m - 1);
        assert(ls.drop_first()[m - 1] == ls[m]);
    }
}

proof fn lemma_add_labels_distinct(labels: Seq<Seq<char>>, ls: Seq<Seq<char>>)
    requires
        forall|i: int, j: int| 0 <= i < j < labels.len() ==> labels[i] != labels[j],
    ensures
        forall|i: int, j: int|
            0 <= i < j < model_add_labels(labels, ls).len() ==> model_add_labels(labels, ls)[i]
                != model_add_labels(labels, ls)[j],
    decreases ls.len(),
{
    let out = model_add_labels(labels, ls);
    if ls.len() == 0 {
        assert forall|i: int, j: int| 0 <= i < j < out.len() implies out[i] != out[j] by {
            assert(out[i] == labels[i]);
            assert(out[j] == labels[j]);
        }
    } else {
        let step = model_add_label(labels, ls[0]);
        if !contains_label(labels, ls[0]) {
            assert forall|i: int, j: int| 0 <= i < j < step.len() implies step[i] != step[j] by {
                if j < labels.len() {
                    assert(labels[i] != labels[j]);
                } else {
                    assert(step[j] == ls[0]);
                    assert(step[i] == labels[i]);
                }
            }
        }
        lemma_add_labels_distinct(step, ls.drop_first());
        let rest = model_add_labels(step, ls.drop_first());
        assert(out == rest);
        assert forall|i: int, j: int| 0 <= i < j < out.len() implies out[i] != out[j] by {
            assert(out[i] == rest[i]);
            assert(out[j] == rest[j]);
        }
    }
}

proof fn lemma_edge_index_props(edges: Seq<EdgeModel>, a: int, b: int)
    ensures
        0 <= edge_index(edges, a, b) <= edges.len(),
        edge_index(edges, a, b) < edges.len() ==> edges[edge_index(edges, a, b)].a == a
            && edges[edge_index(edges, a, b)].b == b,
        forall|m: int|
            0 <= m < edge_index(edges, a, b) ==> !((#[trigger] edges[m]).a == a && edges[m].b
                == b),
        edge_index(edges, a, b) == edges.len() ==> forall|m: int|
            0 <= m < edges.len() ==> !((#[trigger] edges[m]).a == a && edges[m].b == b),
    decreases edges.len(),
{
    if edges.len() > 0 && !(edges[0].a == a && edges[0].b == b) {
        let d = edges.drop_first();
        lemma_edge_index_props(d, a, b);
        assert forall|m: int| 0 <= m < edge_index(edges, a, b) implies !((#[trigger] edges[m]).a
            == a && edges[m].b == b) by {
            if m > 0 {
                assert(edges[m] == d[m - 1]);
            }
        }
        if edge_index(edges, a, b) == edges.len() {
            assert forall|m: int| 0 <= m < edges.len() implies !((#[trigger] edges[m]).a == a
                && edges[m].b == b) by {
                if m > 0 {
                    assert(edges[m] == d[m - 1]);
                }
            }
        }
    }
}

proof fn lemma_bump_pair_wf(m: GraphModel, x: int, y: int)
    requires
        m.wf(),
        0 <= x < m.labels.len(),
        0 <= y < m.labels.len(),
    ensures
        (GraphModel { labels: m.labels, edges: model_bump_pair(m.edges, x, y) }).wf(),
{
    if x != y {
        let a = canon_a(x, y);
        let b = canon_b(x, y);
        lemma_edge_index_props(m.edges, a, b);
        let k = edge_index(m.edges, a, b);
        if k < m.edges.len() {
            assert(m.edge_ok(k));
            lemma_wf_update_edge(m, k, bump_weight(m.edges[k].weight));
            assert(model_bump_edge(m.edges, a, b) =~= m.edges.update(
                k,
                EdgeModel { a: m.edges[k].a, b: m.edges[k].b, weight: bump_weight(m.edges[k].weight) },
            ));
        } else {
            lemma_wf_push_edge(m, a, b);
        }
    }
}

proof fn lemma_bump_row_wf(m: GraphModel, idxs: Seq<int>, i: int, j0: int)
    requires
        m.wf(),
        forall|q: int| 0 <= q < idxs.len() ==> 0 <= #[trigger] idxs[q] < m.labels.len(),
        0 <= i < idxs.len(),
    ensures
        (GraphModel { labels: m.labels, edges: model_bump_row(m.edges, idxs, i, j0) }).wf(),
    decreases idxs.len() - j0,
{
    if 0 <= j0 < idxs.len() {
        lemma_bump_pair_wf(m, idxs[i], idxs[j0]);
        let m2 = GraphModel { labels: m.labels, edges: model_bump_pair(m.edges, idxs[i], idxs[j0]) };
        lemma_bump_row_wf(m2, idxs, i, j0 + 1);
    }
}

proof fn lemma_bump_all_wf(m: GraphModel, idxs: Seq<int>, i0: int)
    requires
        m.wf(),
        forall|q: int| 0 <= q < idxs.len() ==> 0 <= #[trigger] idxs[q] < m.labels.len(),
    ensures
        (GraphModel { labels: m.labels, edges: model_bump_all(m.edges, idxs, i0) }).wf(),
    decreases idxs.len() - i0,
{
    if 0 <= i0 < idxs.len() {
        lemma_bump_row_wf(m, idxs, i0, i0 + 1);
        let m2 = GraphModel { labels: m.labels, edges: model_bump_row(m.edges, idxs, i0, i0 + 1) };
        lemma_bump_all_wf(m2, idxs, i0 + 1);
    }
}

/// The weight the graph carries for the pair `(a, b)`: the sum over
/// stored edges with exactly those endpoints (at most one such edge
/// exists in a well-formed graph).
pub open spec fn edge_weight(edges: Seq<EdgeModel>, a: int, b: int) -> int
    decreases edges.len(),
{
    if edges.len() == 0 {
        0
    } else {
        edge_weight(edges.drop_last(), a, b) + if edges.last().a == a && edges.last().b == b {
            edges.last().weight
        } else {
            0int
        }
    }
}

/// Did positions holding nodes `p` and `q` form the unordered pair
/// `{a, b}` of distinct nodes?
pub open spec fn pair_match(p: int, q: int, a: int, b: int) -> int {
    if p != q && ((p == a && q == b) || (p == b && q == a)) {
        1int
    } else {
        0int
    }
}

proof fn lemma_edge_weight_update(edges: Seq<EdgeModel>, k: int, e2: EdgeModel, a: int, b: int)
    requires
        0 <= k < edges.len(),
    ensures
        edge_weight(edges.update(k, e2), a, b) == edge_weight(edges, a, b) - (if edges[k].a == a
            && edges[k].b == b {
            edges[k].weight
        } else {
            0int
        }) + (if e2.a == a && e2.b == b {
            e2.weight
        } else {
            0int
        }),
    decreases edges.len(),
{
    let u = edges.update(k, e2);
    if k == edges.len() - 1 {
        assert(u.drop_last() =~= edges.drop_last());
        assert(u.last() == e2);
    } else {
        assert(u.drop_last() =~= edges.drop_last().update(k, e2));
        lemma_edge_weight_update(edges.drop_last(), k, e2, a, b);
        assert(u.last() == edges.last());
        assert(edges.drop_last()[k] == edges[k]);
    }
}

proof fn lemma_edge_weight_push(edges: Seq<EdgeModel>, e2: EdgeModel, a: int, b: int)
    ensures
        edge_weight(edges.push(e2), a, b) == edge_weight(edges, a, b) + (if e2.a == a && e2.b == b {
            e2.weight
        } else {
            0int
        }),
{
    assert(edges.push(e2).drop_last() =~= edges);
    assert(edges.push(e2).last() == e2);
}

proof fn lemma_edge_weight_no_match(edges: Seq<EdgeModel>, a: int, b: int)
    requires
        forall|m: int| 0 <= m < edges.len() ==> !((#[trigger] edges[m]).a == a && edges[m].b == b),
    ensures
        edge_weight(edges, a, b) == 0,
    decreases edges.len(),
{
    if edges.len() > 0 {
        let d = edges.drop_last();
        assert(forall|m: int| 0 <= m < d.len() ==> #[trigger] d[m] == edges[m]);
        lemma_edge_weight_no_match(d, a, b);
        assert(edges.last() == edges[edges.len() - 1]);
    }
}

proof fn lemma_edge_weight_unique(edges: Seq<EdgeModel>, k: int, a: int, b: int)
    requires
        forall|p: int, q: int|
            0 <= p < q < edges.len() ==> !((#[trigger] edges[p]).a == (#[trigger] edges[q]).a
                && edges[p].b == edges[q].b),
        0 <= k < edges.len(),
        edges[k].a == a,
        edges[k].b == b,
    ensures
        edge_weight(edges, a, b) == edges[k].weight,
    decreases edges.len(),
{
    let d = edges.drop_last();
    assert(forall|m: int| 0 <= m < d.len() ==> #[trigger] d[m] == edges[m]);
    if k == edges.len() - 1 {
        assert forall|m: int| 0 <= m < d.len() implies !((#[trigger] d[m]).a == a && d[m].b
            == b) by {
            assert(!(edges[m].a == edges[k].a && edges[m].b == edges[k].b));
        }
        lemma_edge_weight_no_match(d, a, b);
        assert(edges.last() == edges[k]);
    } else {
        lemma_edge_weight_unique(d, k, a, b);
        let last = edges.len() - 1;
        assert(!(edges[k].a == edges[last].a && edges[k].b == edges[last].b));
        assert(edges.last() == edges[last]);
    }
}

proof fn lemma_bump_weight_effect(m: GraphModel, p: int, q: int, a: int, b: int)
    requires
        m.wf(),
        a <= b,
        edge_weight(m.edges, a, b) + pair_match(p, q, a, b) <= u64::MAX as int,
    ensures
        edge_weight(model_bump_pair(m.edges, p, q), a, b) == edge_weight(m.edges, a, b)
            + pair_match(p, q, a, b),
{
    if p != q {
        let ca = canon_a(p, q);
        let cb = canon_b(p, q);
        lemma_edge_index_props(m.edges, ca, cb);
        let k = edge_index(m.edges, ca, cb);
        if k < m.edges.len() {
            let e2 = EdgeModel { a: ca, b: cb, weight: bump_weight(m.edges[k].weight) };
            lemma_edge_weight_update(m.edges, k, e2, a, b);
            if ca == a && cb == b {
                lemma_edge_weight_unique(m.edges, k, a, b);
                assert(m.edge_ok(k));
                assert(pair_match(p, q, a, b) == 1);
                assert(m.edges[k].weight < u64::MAX as int);
            } else {
                assert(pair_match(p, q, a, b) == 0);
            }
        } else {
            let e2 = EdgeModel { a: ca, b: cb, weight: 1 };
            lemma_edge_weight_push(m.edges, e2, a, b);
            if ca == a && cb == b {
                assert(pair_match(p, q, a, b) == 1);
            } else {
                assert(pair_match(p, q, a, b) == 0);
            }
        }
    }
}

/// Did positions holding labels `p` and `q` form the unordered pair
/// `{la, lb}` of distinct labels?
pub open spec fn label_pair_match(p: Seq<char>, q: Seq<char>, la: Seq<char>, lb: Seq<char>) -> int {
    if p != q && ((p == la && q == lb) || (p == lb && q == la)) {
        1int
    } else {
        0int
    }
}

pub open spec fn row_pairs(ls: Seq<Seq<char>>, i: int, j0: int, la: Seq<char>, lb: Seq<char>) -> int
    decreases ls.len() - j0,
{
    if j0 < 0 || j0 >= ls.len() {
        0
    } else {
        label_pair_match(ls[i], ls[j0], la, lb) + row_pairs(ls, i, j0 + 1, la, lb)
    }
}

pub open spec fn record_pairs_from(
    ls: Seq<Seq<char>>,
    i0: int,
    la: Seq<char>,
    lb: Seq<char>,
) -> int
    decreases ls.len() - i0,
{
    if i0 < 0 || i0 >= ls.len() {
        0
    } else {
        row_pairs(ls, i0, i0 + 1, la, lb) + record_pairs_from(ls, i0 + 1, la, lb)
    }
}

/// How many unordered pairs of positions within one record's label
/// list carry the two distinct labels `la` and `lb`.
pub open spec fn record_pairs(ls: Seq<Seq<char>>, la: Seq<char>, lb: Seq<char>) -> int {
    record_pairs_from(ls, 0, la, lb)
}

pub open spec fn total_pairs_from(
    records: Seq<Seq<char>>,
    t: int,
    la: Seq<char>,
    lb: Seq<char>,
) -> int
    decreases records.len() - t,
{
    if t < 0 || t >= records.len() {
        0
    } else {
        record_pairs(clean_labels(records[t]), la, lb) + total_pairs_from(records, t + 1, la, lb)
    }
}

/// How often the distinct labels `la` and `lb` co-occur over the whole
/// input, counting position pairs within each record.
pub open spec fn total_pairs(records: Seq<Seq<char>>, la: Seq<char>, lb: Seq<char>) -> int {
    total_pairs_from(records, 0, la, lb)
}

spec fn row_occ(idxs: Seq<int>, i: int, j0: int, a: int, b: int) -> int
    decreases idxs.len() - j0,
{
    if j0 < 0 || j0 >= idxs.len() {
        0
    } else {
        pair_match(idxs[i], idxs[j0], a, b) + row_occ(idxs, i, j0 + 1, a, b)
    }
}

spec fn all_occ(idxs: Seq<int>, i0: int, a: int, b: int) -> int
    decreases idxs.len() - i0,
{
    if i0 < 0 || i0 >= idxs.len() {
        0
    } else {
        row_occ(idxs, i0, i0 + 1, a, b) + all_occ(idxs, i0 + 1, a, b)
    }
}

proof fn lemma_row_occ_nonneg(idxs: Seq<int>, i: int, j0: int, a: int, b: int)
    ensures
        row_occ(idxs, i, j0, a, b) >= 0,
    decreases idxs.len() - j0,
{
    if 0 <= j0 < idxs.len() {
        lemma_row_occ_nonneg(idxs, i, j0 + 1, a, b);
    }
}

proof fn lemma_all_occ_nonneg(idxs: Seq<int>, i0: int, a: int, b: int)
    ensures
        all_occ(idxs, i0, a, b) >= 0,
    decreases idxs.len() - i0,
{
    if 0 <= i0 < idxs.len() {
        lemma_row_occ_nonneg(idxs, i0, i0 + 1, a, b);
        lemma_all_occ_nonneg(idxs, i0 + 1, a, b);
    }
}

proof fn lemma_total_pairs_nonneg(records: Seq<Seq<char>>, t: int, la: Seq<char>, lb: Seq<char>)
    ensures
        total_pairs_from(records, t, la, lb) >= 0,
        0 <= t < records.len() ==> record_pairs(clean_labels(records[t]), la, lb) >= 0,
    decreases records.len() - t + 1,
{
    if 0 <= t < records.len() {
        lemma_record_pairs_nonneg(clean_labels(records[t]), 0, la, lb);
        lemma_total_pairs_nonneg(records, t + 1, la, lb);
    }
}

proof fn lemma_record_pairs_nonneg(ls: Seq<Seq<char>>, i0: int, la: Seq<char>, lb: Seq<char>)
    ensures
        record_pairs_from(ls, i0, la, lb) >= 0,
    decreases ls.len() - i0,
{
    if 0 <= i0 < ls.len() {
        lemma_row_pairs_nonneg(ls, i0, i0 + 1, la, lb);
        lemma_record_pairs_nonneg(ls, i0 + 1, la, lb);
    }
}

proof fn lemma_row_pairs_nonneg(ls: Seq<Seq<char>>, i: int, j0: int, la: Seq<char>, lb: Seq<char>)
    ensures
        row_pairs(ls, i, j0, la, lb) >= 0,
    decreases ls.len() - j0,
{
    if 0 <= j0 < ls.len() {
        lemma_row_pairs_nonneg(ls, i, j0 + 1, la, lb);
    }
}

proof fn lemma_pair_match_bridge(
    labels: Seq<Seq<char>>,
    p: Seq<char>,
    q: Seq<char>,
    la: Seq<char>,
    lb: Seq<char>,
)
    requires
        contains_label(labels, p),
        contains_label(labels, q),
        la != lb,
    ensures
        pair_match(
            index_of_label(labels, p),
            index_of_label(labels, q),
            index_of_label(labels, la),
            index_of_label(labels, lb),
        ) == label_pair_match(p, q, la, lb),
{
    let ip = index_of_label(labels, p);
    let iq = index_of_label(labels, q);
    let x = index_of_label(labels, la);
    let y = index_of_label(labels, lb);
    lemma_index_of_contains(labels, p);
    lemma_index_of_contains(labels, q);
    if label_pair_match(p, q, la, lb) == 1 {
        assert(ip != iq);
    } else {
        if pair_match(ip, iq, x, y) == 1 {
            if ip == x {
                if !contains_label(labels, la) {
                    lemma_index_of_absent(labels, la);
                    assert(false);
                }
                lemma_index_of_contains(labels, la);
                assert(p == la);
                assert(iq == y);
                if !contains_label(labels, lb) {
                    lemma_index_of_absent(labels, lb);
                    assert(false);
                }
                lemma_index_of_contains(labels, lb);
                assert(q == lb);
                assert(false);
            } else {
                if !contains_label(labels, la) {
                    lemma_index_of_absent(labels, la);
                    assert(false);
                }
                lemma_index_of_contains(labels, la);
                assert(q == la);
                if !contains_label(labels, lb) {
                    lemma_index_of_absent(labels, lb);
                    assert(false);
                }
                lemma_index_of_contains(labels, lb);
                assert(p == lb);
                assert(false);
            }
        }
    }
}

proof fn lemma_row_bridge(
    labels: Seq<Seq<char>>,
    ls: Seq<Seq<char>>,
    idxs: Seq<int>,
    i: int,
    j0: int,
    la: Seq<char>,
    lb: Seq<char>,
)
    requires
        idxs.len() == ls.len(),
        forall|m: int| 0 <= m < ls.len() ==> #[trigger] idxs[m] == index_of_label(labels, ls[m]),
        forall|m: int| 0 <= m < ls.len() ==> contains_label(labels, #[trigger] ls[m]),
        0 <= i < ls.len(),
        la != lb,
    ensures
        row_occ(idxs, i, j0, index_of_label(labels, la), index_of_label(labels, lb)) == row_pairs(
            ls,
            i,
            j0,
            la,
            lb,
        ),
    decreases ls.len() - j0,
{
    if 0 <= j0 < ls.len() {
        lemma_pair_match_bridge(labels, ls[i], ls[j0], la, lb);
        lemma_row_bridge(labels, ls, idxs, i, j0 + 1, la, lb);
    }
}

proof fn lemma_all_bridge(
    labels: Seq<Seq<char>>,
    ls: Seq<Seq<char>>,
    idxs: Seq<int>,
    i0: int,
    la: Seq<char>,
    lb: Seq<char>,
)
    requires
        idxs.len() == ls.len(),
        forall|m: int| 0 <= m < ls.len() ==> #[trigger] idxs[m] == index_of_label(labels, ls[m]),
        forall|m: int| 0 <= m < ls.len() ==> contains_label(labels, #[trigger] ls[m]),
        la != lb,
    ensures
        all_occ(idxs, i0, index_of_label(labels, la), index_of_label(labels, lb))
            == record_pairs_from(ls, i0, la, lb),
    decreases ls.len() - i0,
{
    if 0 <= i0 < ls.len() {
        lemma_row_bridge(labels, ls, idxs, i0, i0 + 1, la, lb);
        lemma_all_bridge(labels, ls, idxs, i0 + 1, la, lb);
    }
}

proof fn lemma_bump_row_weight(m: GraphModel, idxs: Seq<int>, i: int, j0: int, a: int, b: int)
    requires
        m.wf(),
        forall|q: int| 0 <= q < idxs.len() ==> 0 <= #[trigger] idxs[q] < m.labels.len(),
        0 <= i < idxs.len(),
        a <= b,
        edge_weight(m.edges, a, b) + row_occ(idxs, i, j0, a, b) <= u64::MAX as int,
    ensures
        edge_weight(model_bump_row(m.edges, idxs, i, j0), a, b) == edge_weight(m.edges, a, b)
            + row_occ(idxs, i, j0, a, b),
    decreases idxs.len() - j0,
{
    if 0 <= j0 < idxs.len() {
        lemma_row_occ_nonneg(idxs, i, j0 + 1, a, b);
        lemma_bump_weight_effect(m, idxs[i], idxs[j0], a, b);
        lemma_bump_pair_wf(m, idxs[i], idxs[j0]);
        let m2 = GraphModel {
            labels: m.labels,
            edges: model_bump_pair(m.edges, idxs[i], idxs[j0]),
        };
        lemma_bump_row_weight(m2, idxs, i, j0 + 1, a, b);
    }
}

proof fn lemma_bump_all_weight(m: GraphModel, idxs: Seq<int>, i0: int, a: int, b: int)
    requires
        m.wf(),
        forall|q: int| 0 <= q < idxs.len() ==> 0 <= #[trigger] idxs[q] < m.labels.len(),
        a <= b,
        edge_weight(m.edges, a, b) + all_occ(idxs, i0, a, b) <= u64::MAX as int,
    ensures
        edge_weight(model_bump_all(m.edges, idxs, i0), a, b) == edge_weight(m.edges, a, b)
            + all_occ(idxs, i0, a, b),
    decreases idxs.len() - i0,
{
    if 0 <= i0 < idxs.len() {
        lemma_all_occ_nonneg(idxs, i0 + 1, a, b);
        lemma_row_occ_nonneg(idxs, i0, i0 + 1, a, b);
        lemma_bump_row_weight(m, idxs, i0, i0 + 1, a, b);
        lemma_bump_row_wf(m, idxs, i0, i0 + 1);
        let m2 = GraphModel {
            labels: m.labels,
            edges: model_bump_row(m.edges, idxs, i0, i0 + 1),
        };
        lemma_bump_all_weight(m2, idxs, i0 + 1, a, b);
    }
}

proof fn lemma_row_occ_sym(idxs: Seq<int>, i: int, j0: int, a: int, b: int)
    ensures
        row_occ(idxs, i, j0, a, b) == row_occ(idxs, i, j0, b, a),
    decreases idxs.len() - j0,
{
    if 0 <= j0 < idxs.len() {
        lemma_row_occ_sym(idxs, i, j0 + 1, a, b);
    }
}

proof fn lemma_all_occ_sym(idxs: Seq<int>, i0: int, a: int, b: int)
    ensures
        all_occ(idxs, i0, a, b) == all_occ(idxs, i0, b, a),
    decreases idxs.len() - i0,
{
    if 0 <= i0 < idxs.len() {
        lemma_row_occ_sym(idxs, i0, i0 + 1, a, b);
        lemma_all_occ_sym(idxs, i0 + 1, a, b);
    }
}

proof fn lemma_row_occ_oob(idxs: Seq<int>, i: int, j0: int, bound: int, a: int, b: int)
    requires
        0 <= i < idxs.len(),
        forall|m: int| 0 <= m < idxs.len() ==> #[trigger] idxs[m] < bound,
        a >= bound || b >= bound,
    ensures
        row_occ(idxs, i, j0, a, b) == 0,
    decreases idxs.len() - j0,
{
    if 0 <= j0 < idxs.len() {
        lemma_row_occ_oob(idxs, i, j0 + 1, bound, a, b);
    }
}

proof fn lemma_all_occ_oob(idxs: Seq<int>, i0: int, bound: int, a: int, b: int)
    requires
        forall|m: int| 0 <= m < idxs.len() ==> #[trigger] idxs[m] < bound,
        a >= bound || b >= bound,
    ensures
        all_occ(idxs, i0, a, b) == 0,
    decreases idxs.len() - i0,
{
    if 0 <= i0 < idxs.len() {
        lemma_row_occ_oob(idxs, i0, i0 + 1, bound, a, b);
        lemma_all_occ_oob(idxs, i0 + 1, bound, a, b);
    }
}

proof fn lemma_row_pairs_no_label(ls: Seq<Seq<char>>, i: int, j0: int, la: Seq<char>, lb: Seq<char>)
    requires
        0 <= i < ls.len(),
        (forall|m: int| 0 <= m < ls.len() ==> #[trigger] ls[m] != la) || (forall|m: int|
            0 <= m < ls.len() ==> #[trigger] ls[m] != lb),
    ensures
        row_pairs(ls, i, j0, la, lb) == 0,
    decreases ls.len() - j0,
{
    if 0 <= j0 < ls.len() {
        lemma_row_pairs_no_label(ls, i, j0 + 1, la, lb);
    }
}

proof fn lemma_record_pairs_no_label(ls: Seq<Seq<char>>, i0: int, la: Seq<char>, lb: Seq<char>)
    requires
        (forall|m: int| 0 <= m < ls.len() ==> #[trigger] ls[m] != la) || (forall|m: int|
            0 <= m < ls.len() ==> #[trigger] ls[m] != lb),
    ensures
        record_pairs_from(ls, i0, la, lb) == 0,
    decreases ls.len() - i0,
{
    if 0 <= i0 < ls.len() {
        lemma_row_pairs_no_label(ls, i0, i0 + 1, la, lb);
        lemma_record_pairs_no_label(ls, i0 + 1, la, lb);
    }
}

proof fn lemma_index_absent_prefix(short: Seq<Seq<char>>, long: Seq<Seq<char>>, l: Seq<char>)
    requires
        label_prefix(short, long),
        !contains_label(short, l),
    ensures
        index_of_label(long, l) >= short.len(),
{
    assert forall|j: int| 0 <= j < short.len() implies long[j] != l by {
        assert(long.subrange(0, short.len() as int)[j] == long[j]);
        assert(short[j] == long[j]);
        if short[j] == l {
            assert(contains_label(short, l));
        }
    }
    if contains_label(long, l) {
        lemma_index_of_contains(long, l);
    } else {
        lemma_index_of_absent(long, l);
    }
}

proof fn lemma_record_wf_prefix(g: GraphModel, rec: Seq<char>)
    requires
        g.wf(),
    ensures
        record_model(g, rec).wf(),
        label_prefix(g.labels, record_model(g, rec).labels),
{
    let ls = clean_labels(rec);
    let labels2 = model_add_labels(g.labels, ls);
    let idxs = ls.map_values(|l: Seq<char>| index_of_label(labels2, l));
    lemma_add_labels_prefix(g.labels, ls);
    lemma_add_labels_distinct(g.labels, ls);
    let g1 = GraphModel { labels: labels2, edges: g.edges };
    assert forall|k: int| 0 <= k < g1.edges.len() implies g1.edge_ok(k) by {
        assert(g.edge_ok(k));
    }
    assert(g1.wf());
    assert forall|q: int| 0 <= q < idxs.len() implies 0 <= #[trigger] idxs[q]
        < labels2.len() by {
        lemma_add_labels_contains(g.labels, ls, q);
        lemma_index_of_contains(labels2, ls[q]);
        assert(idxs[q] == index_of_label(labels2, ls[q]));
    }
    lemma_bump_all_wf(g1, idxs, 0);
    assert(record_model(g, rec) =~= GraphModel {
        labels: labels2,
        edges: model_bump_all(g1.edges, idxs, 0),
    });
}

proof fn lemma_build_wf_prefix(g: GraphModel, records: Seq<Seq<char>>, t: int)
    requires
        g.wf(),
    ensures
        build_from(g, records, t).wf(),
        label_prefix(g.labels, build_from(g, records, t).labels),
    decreases records.len() - t,
{
    assert(g.labels.subrange(0, g.labels.len() as int) =~= g.labels);
    if 0 <= t < records.len() {
        lemma_record_wf_prefix(g, records[t]);
        let g2 = record_model(g, records[t]);
        lemma_build_wf_prefix(g2, records, t + 1);
        let full = build_from(g, records, t).labels;
        assert(full.subrange(0, g2.labels.len() as int).subrange(0, g.labels.len() as int)
            =~= full.subrange(0, g.labels.len() as int));
        assert(g.labels =~= full.subrange(0, g.labels.len() as int));
    }
}

proof fn lemma_weight_from(
    g: GraphModel,
    records: Seq<Seq<char>>,
    t: int,
    la: Seq<char>,
    lb: Seq<char>,
)
    requires
        g.wf(),
        la != lb,
        ({
            let big = build_from(g, records, t);
            let x = index_of_label(big.labels, la);
            let y = index_of_label(big.labels, lb);
            edge_weight(g.edges, canon_a(x, y), canon_b(x, y)) + total_pairs_from(
                records,
                t,
                la,
                lb,
            ) <= u64::MAX as int
        }),
    ensures
        ({
            let big = build_from(g, records, t);
            let x = index_of_label(big.labels, la);
            let y = index_of_label(big.labels, lb);
            edge_weight(big.edges, canon_a(x, y), canon_b(x, y)) == edge_weight(
                g.edges,
                canon_a(x, y),
                canon_b(x, y),
            ) + total_pairs_from(records, t, la, lb)
        }),
    decreases records.len() - t,
{
    let big = build_from(g, records, t);
    let x = index_of_label(big.labels, la);
    let y = index_of_label(big.labels, lb);
    let aa = canon_a(x, y);
    let bb = canon_b(x, y);
    if 0 <= t < records.len() {
        let rec = records[t];
        let ls = clean_labels(rec);
        let labels2 = model_add_labels(g.labels, ls);
        let idxs = ls.map_values(|l: Seq<char>| index_of_label(labels2, l));
        let g2 = record_model(g, rec);
        lemma_record_wf_prefix(g, rec);
        assert(g2.labels == labels2);
        assert(g2.edges == model_bump_all(g.edges, idxs, 0));
        assert(build_from(g2, records, t + 1) == big);
        lemma_build_wf_prefix(g2, records, t + 1);
        assert(label_prefix(labels2, big.labels));

        // The labels of this record are nodes of `labels2`, so the
        // stored pair indices are their indices there and in the
        // final graph alike.
        assert forall|q: int| 0 <= q < idxs.len() implies 0 <= #[trigger] idxs[q]
            < labels2.len() by {
            lemma_add_labels_contains(g.labels, ls, q);
            lemma_index_of_contains(labels2, ls[q]);
            assert(idxs[q] == index_of_label(labels2, ls[q]));
        }
        assert(forall|m: int|
            0 <= m < ls.len() ==> #[trigger] idxs[m] == index_of_label(labels2, ls[m]));
        assert forall|m: int| 0 <= m < ls.len() implies contains_label(
            labels2,
            #[trigger] ls[m],
        ) by {
            lemma_add_labels_contains(g.labels, ls, m);
        }

        // The intermediate graph that carries the grown label list
        // over the old edges is well formed.
        let g1 = GraphModel { labels: labels2, edges: g.edges };
        lemma_add_labels_distinct(g.labels, ls);
        lemma_add_labels_prefix(g.labels, ls);
        assert forall|k: int| 0 <= k < g1.edges.len() implies g1.edge_ok(k) by {
            assert(g.edge_ok(k));
        }
        assert(g1.wf());

        // This record's bumps add exactly its pair count for the two
        // labels.
        lemma_total_pairs_nonneg(records, t + 1, la, lb);
        lemma_record_pairs_nonneg(ls, 0, la, lb);
        if contains_label(labels2, la) && contains_label(labels2, lb) {
            lemma_index_of_prefix_stable(labels2, big.labels, la);
            lemma_index_of_prefix_stable(labels2, big.labels, lb);
            let x2 = index_of_label(labels2, la);
            let y2 = index_of_label(labels2, lb);
            assert(x2 == x && y2 == y);
            lemma_all_bridge(labels2, ls, idxs, 0, la, lb);
            lemma_all_occ_sym(idxs, 0, x, y);
            assert(all_occ(idxs, 0, aa, bb) == record_pairs(ls, la, lb));
        } else {
            if !contains_label(labels2, la) {
                lemma_index_absent_prefix(labels2, big.labels, la);
                assert(bb >= labels2.len());
                assert forall|m: int| 0 <= m < ls.len() implies #[trigger] ls[m] != la by {
                    if ls[m] == la {
                        assert(contains_label(labels2, ls[m]));
                    }
                }
            } else {
                lemma_index_absent_prefix(labels2, big.labels, lb);
                assert(bb >= labels2.len());
                assert forall|m: int| 0 <= m < ls.len() implies #[trigger] ls[m] != lb by {
                    if ls[m] == lb {
                        assert(contains_label(labels2, ls[m]));
                    }
                }
            }
            lemma_all_occ_oob(idxs, 0, labels2.len() as int, aa, bb);
            lemma_record_pairs_no_label(ls, 0, la, lb);
            assert(all_occ(idxs, 0, aa, bb) == record_pairs(ls, la, lb));
        }
        lemma_all_occ_nonneg(idxs, 0, aa, bb);
        lemma_bump_all_weight(g1, idxs, 0, aa, bb);
        assert(edge_weight(g2.edges, aa, bb) == edge_weight(g.edges, aa, bb) + record_pairs(
            ls,
            la,
            lb,
        ));
        lemma_weight_from(g2, records, t + 1, la, lb);
    }
}

pub open spec fn count_label_from(ls: Seq<Seq<char>>, j0: int, l: Seq<char>) -> int
    decreases ls.len() - j0,
{
    if j0 < 0 || j0 >= ls.len() {
        0
    } else {
        (if ls[j0] == l {
            1int
        } else {
            0int
        }) + count_label_from(ls, j0 + 1, l)
    }
}

/// How often the label `l` occurs in one record's label list.
pub open spec fn count_label(ls: Seq<Seq<char>>, l: Seq<char>) -> int {
    count_label_from(ls, 0, l)
}

proof fn lemma_row_pairs_count(ls: Seq<Seq<char>>, i: int, j0: int, la: Seq<char>, lb: Seq<char>)
    requires
        0 <= i < ls.len(),
        la != lb,
    ensures
        row_pairs(ls, i, j0, la, lb) == (if ls[i] == la {
            count_label_from(ls, j0, lb)
        } else {
            0int
        }) + (if ls[i] == lb {
            count_label_from(ls, j0, la)
        } else {
            0int
        }),
    decreases ls.len() - j0,
{
    if 0 <= j0 < ls.len() {
        lemma_row_pairs_count(ls, i, j0 + 1, la, lb);
    }
}

proof fn lemma_record_pairs_product_from(
    ls: Seq<Seq<char>>,
    i0: int,
    la: Seq<char>,
    lb: Seq<char>,
)
    requires
        la != lb,
    ensures
        record_pairs_from(ls, i0, la, lb) == count_label_from(ls, i0, la) * count_label_from(
            ls,
            i0,
            lb,
        ),
    decreases ls.len() - i0,
{
    if 0 <= i0 < ls.len() {
        lemma_row_pairs_count(ls, i0, i0 + 1, la, lb);
        lemma_record_pairs_product_from(ls, i0 + 1, la, lb);
        let arest = count_label_from(ls, i0 + 1, la);
        let brest = count_label_from(ls, i0 + 1, lb);
        if ls[i0] == la {
            assert((1 + arest) * brest == brest + arest * brest) by (nonlinear_arith);
        } else if ls[i0] == lb {
            assert(arest * (1 + brest) == arest + arest * brest) by (nonlinear_arith);
        }
    } else {
        assert(record_pairs_from(ls, i0, la, lb) == 0);
    }
}

/// With distinct labels, one record's pair count factors into the
/// product of the two labels' occurrence counts: a record listing each
/// label exactly once contributes exactly one co-occurrence, and a
/// record missing either label contributes none.
pub proof fn lemma_record_pairs_product(ls: Seq<Seq<char>>, la: Seq<char>, lb: Seq<char>)
    requires
        la != lb,
    ensures
        record_pairs(ls, la, lb) == count_label(ls, la) * count_label(ls, lb),
{
    lemma_record_pairs_product_from(ls, 0, la, lb);
}

/// Edge accumulation: over the whole input, the weight the built
/// graph carries for the nodes of two distinct labels equals the
/// number of position pairs holding those two labels, summed over all
/// records. In particular, two labels listed once each in `k` records
/// and co-occurring nowhere else get an edge of weight exactly `k`.
/// The total must fit the weight's machine word.
pub proof fn lemma_edge_weight_counts_cooccurrences(
    records: Seq<Seq<char>>,
    la: Seq<char>,
    lb: Seq<char>,
)
    requires
        la != lb,
        total_pairs(records, la, lb) <= u64::MAX as int,
    ensures
        ({
            let g = build_model(records);
            let x = index_of_label(g.labels, la);
            let y = index_of_label(g.labels, lb);
            edge_weight(g.edges, canon_a(x, y), canon_b(x, y)) == total_pairs(records, la, lb)
        }),
{
    let g0 = GraphModel { labels: Seq::empty(), edges: Seq::empty() };
    assert(g0.wf());
    lemma_weight_from(g0, records, 0, la, lb);
}

proof fn lemma_build_from_blank(g: GraphModel, records: Seq<Seq<char>>, t: int)
    requires
        forall|u: int| 0 <= u < records.len() ==> clean_labels(#[trigger] records[u]).len() == 0,
    ensures
        build_from(g, records, t) == g,
    decreases records.len() - t,
{
    if 0 <= t < records.len() {
        let ls = clean_labels(records[t]);
        assert(ls.map_values(|l: Seq<char>| index_of_label(g.labels, l)) =~= Seq::<int>::empty());
        assert(record_model(g, records[t]) =~= g);
        lemma_build_from_blank(g, records, t + 1);
    }
}

/// Blank input builds nothing: when every record's label string yields
/// no clean labels — empty or whitespace-only pieces throughout — the
/// graph has no nodes and no edges.
pub proof fn lemma_blank_records_build_nothing(records: Seq<Seq<char>>)
    requires
        forall|u: int| 0 <= u < records.len() ==> clean_labels(#[trigger] records[u]).len() == 0,
    ensures
        build_model(records).labels.len() == 0,
        build_model(records).edges.len() == 0,
{
    lemma_build_from_blank(GraphModel { labels: Seq::empty(), edges: Seq::empty() }, records, 0);
}

} // verus!
