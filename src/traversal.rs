use vstd::prelude::*;

use crate::graph::{record_spec, GraphModel, LinkGraph};

verus! {

/// A document scheduled for link extraction, with its distance from the start.
pub struct Node {
    pub filepath: String,
    pub distance: u32,
}

/// What the extraction of one document contributes: the document itself, every
/// document it reached (forward links, then backward links), and the documents
/// that link to it.
pub struct ProcessResult {
    pub target: String,
    pub new_nodes: Vec<Node>,
    pub backward_links: Vec<String>,
}

pub open spec fn paths(v: Seq<String>) -> Seq<Seq<char>> {
    v.map_values(|s: String| s@)
}

pub open spec fn node_paths(v: Seq<Node>) -> Seq<Seq<char>> {
    v.map_values(|n: Node| n.filepath@)
}

/// Builds the result of extracting `node`: its forward and backward links become
/// candidates one hop further from the start, and its backward links are the
/// sources of the edges into it.
pub fn process_node(node: &Node, forward: Vec<String>, backward: Vec<String>) -> (r: ProcessResult)
    requires
        node.distance < u32::MAX,
    ensures
        r.target@ == node.filepath@,
        node_paths(r.new_nodes@) == paths(forward@) + paths(backward@),
        forall|k: int|
            0 <= k < r.new_nodes@.len() ==> #[trigger] r.new_nodes@[k].distance == node.distance
                + 1,
        paths(r.backward_links@) == paths(backward@),
{
    let mut new_nodes: Vec<Node> = Vec::new();
    let mut i: usize = 0;
    while i < forward.len()
        invariant
            i <= forward@.len(),
            node.distance < u32::MAX,
            new_nodes@.len() == i,
            forall|k: int| 0 <= k < i ==> #[trigger] new_nodes@[k].filepath@ == forward@[k]@,
            forall|k: int|
                0 <= k < new_nodes@.len() ==> #[trigger] new_nodes@[k].distance == node.distance
                    + 1,
        decreases forward@.len() - i,
    {
        new_nodes.push(Node { filepath: forward[i].clone(), distance: node.distance + 1 });
        i += 1;
    }
    let mut j: usize = 0;
    while j < backward.len()
        invariant
            j <= backward@.len(),
            node.distance < u32::MAX,
            new_nodes@.len() == forward@.len() + j,
            forall|k: int|
                0 <= k < forward@.len() ==> #[trigger] new_nodes@[k].filepath@ == forward@[k]@,
            forall|k: int|
                0 <= k < j ==> #[trigger] new_nodes@[forward@.len() + k].filepath@
                    == backward@[k]@,
            forall|k: int|
                0 <= k < new_nodes@.len() ==> #[trigger] new_nodes@[k].distance == node.distance
                    + 1,
        decreases backward@.len() - j,
    {
        new_nodes.push(Node { filepath: backward[j].clone(), distance: node.distance + 1 });
        j += 1;
    }
    assert forall|k: int| 0 <= k < new_nodes@.len() implies #[trigger] node_paths(new_nodes@)[k]
        == (paths(forward@) + paths(backward@))[k] by {
        if k >= forward@.len() {
            assert(new_nodes@[forward@.len() + (k - forward@.len())].filepath@ == backward@[k
                - forward@.len()]@);
        }
    }
    assert(node_paths(new_nodes@) =~= paths(forward@) + paths(backward@));
    ProcessResult { target: node.filepath.clone(), new_nodes, backward_links: backward }
}

/// The state of a traversal run, as mathematics.
pub struct RunModel {
    /// The start document.
    pub start: Seq<char>,
    /// Every document claimed so far, with the distance it was claimed at.
    pub visited: Map<Seq<char>, nat>,
    /// The recorded edges.
    pub graph: GraphModel,
    /// Every (document, candidate) pair offered by a folded extraction.
    pub offers: Set<(Seq<char>, Seq<char>)>,
    /// The layer being processed.
    pub depth: nat,
    pub max_depth: nat,
}

/// `d` belongs to the layer being processed.
pub open spec fn in_layer(m: RunModel, d: Seq<char>) -> bool {
    m.visited.contains_key(d) && m.visited[d] == m.depth
}

/// A result for `t` is folded only while layers remain and `t` is in the current one.
pub open spec fn accepts(m: RunModel, t: Seq<char>) -> bool {
    m.depth < m.max_depth && in_layer(m, t)
}

/// First claim wins: each candidate not yet visited is claimed one layer further on.
pub open spec fn claims(visited: Map<Seq<char>, nat>, depth: nat, cands: Seq<Seq<char>>) -> Map<
    Seq<char>,
    nat,
> {
    Map::new(
        |d: Seq<char>| visited.contains_key(d) || cands.contains(d),
        |d: Seq<char>|
            if visited.contains_key(d) {
                visited[d]
            } else {
                depth + 1
            },
    )
}

/// The edges from each of `sources` into `t` recorded in `g`, each at the source's
/// distance in `v`, a pair already present keeping the smaller distance.
pub open spec fn merge_edges(
    g: GraphModel,
    t: Seq<char>,
    sources: Seq<Seq<char>>,
    v: Map<Seq<char>, nat>,
) -> GraphModel {
    Map::new(
        |p: (Seq<char>, Seq<char>)| g.contains_key(p) || (p.0 == t && sources.contains(p.1)),
        |p: (Seq<char>, Seq<char>)|
            if g.contains_key(p) && !(p.0 == t && sources.contains(p.1) && v[p.1] < g[p]) {
                g[p]
            } else {
                v[p.1]
            },
    )
}

pub open spec fn add_offers(
    offers: Set<(Seq<char>, Seq<char>)>,
    t: Seq<char>,
    cands: Seq<Seq<char>>,
) -> Set<(Seq<char>, Seq<char>)> {
    offers.union(Set::new(|o: (Seq<char>, Seq<char>)| o.0 == t && cands.contains(o.1)))
}

/// Folding the extraction of `t`, which reached `cands` and is linked to from
/// `sources`, into the run.
pub open spec fn fold_spec(
    m: RunModel,
    t: Seq<char>,
    cands: Seq<Seq<char>>,
    sources: Seq<Seq<char>>,
) -> RunModel {
    if accepts(m, t) {
        let all = cands + sources;
        let v = claims(m.visited, m.depth, all);
        RunModel {
            start: m.start,
            visited: v,
            graph: merge_edges(m.graph, t, sources, v),
            offers: add_offers(m.offers, t, all),
            depth: m.depth,
            max_depth: m.max_depth,
        }
    } else {
        m
    }
}

/// Moving on to the next layer.
pub open spec fn advance_spec(m: RunModel) -> RunModel {
    RunModel { depth: m.depth + 1, ..m }
}

/// What holds of every state of a run.
pub open spec fn model_wf(m: RunModel) -> bool {
    &&& m.visited.contains_key(m.start)
    &&& m.visited[m.start] == 0
    &&& m.depth <= m.max_depth
    &&& forall|d: Seq<char>| #[trigger]
        m.visited.contains_key(d) ==> m.visited[d] <= m.depth + 1 && m.visited[d] <= m.max_depth
    &&& forall|d: Seq<char>| #[trigger]
        m.visited.contains_key(d) && d != m.start ==> exists|u: Seq<char>|
            #[trigger] m.offers.contains((u, d)) && m.visited[u] + 1 == m.visited[d]
    &&& forall|o: (Seq<char>, Seq<char>)| #[trigger]
        m.offers.contains(o) ==> {
            &&& m.visited.contains_key(o.0)
            &&& m.visited.contains_key(o.1)
            &&& m.visited[o.1] <= m.visited[o.0] + 1
            &&& m.visited[o.0] <= m.depth
            &&& m.visited[o.0] < m.max_depth
        }
    &&& forall|p: (Seq<char>, Seq<char>)| #[trigger]
        m.graph.contains_key(p) ==> m.offers.contains(p) && m.graph[p] == m.visited[p.1]
}

/// There is a chain of offers of length `n` from `start` to `d`: `d` is `n` links
/// away from the start, through links that extraction reported.
pub open spec fn linked_path(
    offers: Set<(Seq<char>, Seq<char>)>,
    start: Seq<char>,
    d: Seq<char>,
    n: nat,
) -> bool
    decreases n,
{
    if n == 0 {
        d == start
    } else {
        exists|u: Seq<char>| #[trigger]
            offers.contains((u, d)) && linked_path(offers, start, u, (n - 1) as nat)
    }
}

proof fn lemma_fold_wf(m: RunModel, t: Seq<char>, cands: Seq<Seq<char>>, sources: Seq<Seq<char>>)
    requires
        model_wf(m),
    ensures
        model_wf(fold_spec(m, t, cands, sources)),
{
    if accepts(m, t) {
        let all = cands + sources;
        let r = fold_spec(m, t, cands, sources);
        let v = r.visited;
        assert forall|s: Seq<char>| sources.contains(s) implies all.contains(s) by {
            let k = choose|k: int| 0 <= k < sources.len() && sources[k] == s;
            assert(all[cands.len() + k] == s);
        }
        assert forall|d: Seq<char>| #[trigger]
            v.contains_key(d) && d != r.start implies exists|u: Seq<char>|
            #[trigger] r.offers.contains((u, d)) && v[u] + 1 == v[d] by {
            if !m.visited.contains_key(d) {
                assert(r.offers.contains((t, d)));
            } else {
                let u = choose|u: Seq<char>|
                    #[trigger] m.offers.contains((u, d)) && m.visited[u] + 1 == m.visited[d];
                assert(r.offers.contains((u, d)));
            }
        }
        assert forall|o: (Seq<char>, Seq<char>)| #[trigger] r.offers.contains(o) implies {
            &&& v.contains_key(o.0)
            &&& v.contains_key(o.1)
            &&& v[o.1] <= v[o.0] + 1
            &&& v[o.0] <= r.depth
            &&& v[o.0] < r.max_depth
        } by {
            if !m.offers.contains(o) {
                assert(o.0 == t && all.contains(o.1));
            }
        }
        assert forall|p: (Seq<char>, Seq<char>)| #[trigger]
            r.graph.contains_key(p) implies r.offers.contains(p) && r.graph[p] == v[p.1] by {
            if !m.graph.contains_key(p) {
                assert(p.0 == t && sources.contains(p.1));
                assert(all.contains(p.1));
            } else {
                assert(m.offers.contains(p));
            }
        }
    }
}

/// Every document a run has claimed is as many links away from the start as the
/// distance it was claimed at, and that is within the depth bound: a document whose
/// shortest distance over the reported links exceeds the bound is never claimed, and
/// every edge of the graph joins two claimed documents, the target short of the bound.
pub proof fn lemma_depth_bound(m: RunModel, d: Seq<char>)
    requires
        model_wf(m),
        m.visited.contains_key(d),
    ensures
        m.visited[d] <= m.max_depth,
        linked_path(m.offers, m.start, d, m.visited[d]),
        forall|s: Seq<char>| #[trigger]
            m.graph.contains_key((d, s)) ==> m.visited[d] < m.max_depth
                && m.visited.contains_key(s) && m.visited[s] <= m.max_depth,
    decreases m.visited[d],
{
    if d != m.start {
        let u = choose|u: Seq<char>|
            #[trigger] m.offers.contains((u, d)) && m.visited[u] + 1 == m.visited[d];
        lemma_depth_bound(m, u);
    }
    assert forall|s: Seq<char>| #[trigger] m.graph.contains_key((d, s)) implies m.visited[d]
        < m.max_depth && m.visited.contains_key(s) && m.visited[s] <= m.max_depth by {
        assert(m.offers.contains((d, s)));
    }
}

/// No chain of reported links reaches a document in fewer hops than the distance it
/// was claimed at: with `lemma_depth_bound`, that distance is its shortest distance
/// from the start over those links.
pub proof fn lemma_claimed_distance_is_shortest(m: RunModel, d: Seq<char>, n: nat)
    requires
        model_wf(m),
        linked_path(m.offers, m.start, d, n),
    ensures
        m.visited.contains_key(d),
        m.visited[d] <= n,
    decreases n,
{
    if n > 0 {
        let u = choose|u: Seq<char>| #[trigger]
            m.offers.contains((u, d)) && linked_path(m.offers, m.start, u, (n - 1) as nat);
        lemma_claimed_distance_is_shortest(m, u, (n - 1) as nat);
    }
}

/// The distance recorded for a (target, source) pair is the least distance at which
/// the source was ever offered: the start's is 0, any other's is one more than the
/// distance of some document that offered it, and no offer was made at less.
pub proof fn lemma_least_distance(m: RunModel, t: Seq<char>, s: Seq<char>)
    requires
        model_wf(m),
        m.graph.contains_key((t, s)),
    ensures
        m.graph[(t, s)] == m.visited[s],
        s == m.start ==> m.graph[(t, s)] == 0,
        s != m.start ==> exists|u: Seq<char>|
            #[trigger] m.offers.contains((u, s)) && m.graph[(t, s)] == m.visited[u] + 1,
        forall|u: Seq<char>| #[trigger]
            m.offers.contains((u, s)) ==> m.graph[(t, s)] <= m.visited[u] + 1,
{
    assert(m.offers.contains((t, s)));
}

/// The start document appears as a source of an edge into itself only at distance 0.
pub proof fn lemma_start_self_edge(m: RunModel)
    requires
        model_wf(m),
        m.graph.contains_key((m.start, m.start)),
    ensures
        m.graph[(m.start, m.start)] == 0,
{
}

/// An extraction that found nothing (a missing or unreadable document) leaves the
/// run as it was.
pub proof fn lemma_empty_extraction(m: RunModel, t: Seq<char>)
    ensures
        fold_spec(m, t, Seq::empty(), Seq::empty()) == m,
{
    if accepts(m, t) {
        let r = fold_spec(m, t, Seq::empty(), Seq::empty());
        assert(r.visited =~= m.visited);
        assert(r.graph =~= m.graph);
        assert(r.offers =~= m.offers);
    }
}

/// The results of one layer may be folded in any order: folding two of them one way
/// round gives the same run as folding them the other way round.
pub proof fn lemma_fold_order_independent(
    m: RunModel,
    t1: Seq<char>,
    c1: Seq<Seq<char>>,
    s1: Seq<Seq<char>>,
    t2: Seq<char>,
    c2: Seq<Seq<char>>,
    s2: Seq<Seq<char>>,
)
    ensures
        fold_spec(fold_spec(m, t1, c1, s1), t2, c2, s2) == fold_spec(
            fold_spec(m, t2, c2, s2),
            t1,
            c1,
            s1,
        ),
{
    let m1 = fold_spec(m, t1, c1, s1);
    let m2 = fold_spec(m, t2, c2, s2);
    let a = fold_spec(m1, t2, c2, s2);
    let b = fold_spec(m2, t1, c1, s1);
    assert(accepts(m1, t2) == accepts(m, t2));
    assert(accepts(m2, t1) == accepts(m, t1));
    if accepts(m, t1) && accepts(m, t2) {
        let all1 = c1 + s1;
        let all2 = c2 + s2;
        assert forall|s: Seq<char>| s1.contains(s) implies all1.contains(s) by {
            let k = choose|k: int| 0 <= k < s1.len() && s1[k] == s;
            assert(all1[c1.len() + k] == s);
        }
        assert forall|s: Seq<char>| s2.contains(s) implies all2.contains(s) by {
            let k = choose|k: int| 0 <= k < s2.len() && s2[k] == s;
            assert(all2[c2.len() + k] == s);
        }
        assert(a.visited =~= b.visited);
        assert(a.offers =~= b.offers);
        assert forall|p: (Seq<char>, Seq<char>)| #[trigger]
            a.graph.contains_key(p) implies b.graph.contains_key(p) && a.graph[p] == b.graph[p] by {
            if s1.contains(p.1) {
                assert(m1.visited[p.1] == a.visited[p.1]);
            }
            if s2.contains(p.1) {
                assert(m2.visited[p.1] == b.visited[p.1]);
            }
        }
        assert(a.graph =~= b.graph);
    } else if accepts(m, t1) {
        assert(a == m1);
        assert(b == m1);
    } else if accepts(m, t2) {
        assert(a == m2);
        assert(b == m2);
    }
}

/// One extraction result as the model sees it: the document, the candidates it
/// reached and its backward links.
pub type Extracted = (Seq<char>, Seq<Seq<char>>, Seq<Seq<char>>);

/// Folding `rs` into the run, in order.
pub open spec fn fold_all(m: RunModel, rs: Seq<Extracted>) -> RunModel
    decreases rs.len(),
{
    if rs.len() == 0 {
        m
    } else {
        let x = rs.last();
        fold_spec(fold_all(m, rs.drop_last()), x.0, x.1, x.2)
    }
}

/// A result may arrive at any point of its layer: folding it at position `k` among
/// the others gives the same run as folding it after all of them. Moving results one
/// at a time, every arrival order of a layer's results gives the same run.
pub proof fn lemma_arrival_order_independent(m: RunModel, rs: Seq<Extracted>, x: Extracted, k: int)
    requires
        0 <= k <= rs.len(),
    ensures
        fold_all(m, rs.insert(k, x)) == fold_all(m, rs.push(x)),
    decreases rs.len(),
{
    if k < rs.len() {
        let rest = rs.drop_last();
        let y = rs.last();
        assert(rs.insert(k, x).drop_last() =~= rest.insert(k, x));
        assert(rs.insert(k, x).last() == y);
        lemma_arrival_order_independent(m, rest, x, k);
        assert(rest.push(x).drop_last() =~= rest);
        assert(rs.push(x).drop_last() =~= rs);
        assert(rs =~= rest.push(y));
        let before = fold_all(m, rest);
        lemma_fold_order_independent(before, x.0, x.1, x.2, y.0, y.1, y.2);
        assert(fold_all(m, rest.push(x)) == fold_spec(before, x.0, x.1, x.2));
        assert(fold_all(m, rs.insert(k, x)) == fold_spec(
            fold_all(m, rest.insert(k, x)),
            y.0,
            y.1,
            y.2,
        ));
        assert(fold_all(m, rs) == fold_spec(before, y.0, y.1, y.2));
        assert(fold_all(m, rs.push(x)) == fold_spec(fold_all(m, rs), x.0, x.1, x.2));
    } else {
        assert(rs.insert(k, x) =~= rs.push(x));
    }
}

proof fn lemma_seq_push_contains(p: Seq<Seq<char>>, c: Seq<char>, d: Seq<char>)
    ensures
        p.push(c).contains(d) == (p.contains(d) || d == c),
{
    if p.contains(d) {
        let k = choose|k: int| 0 <= k < p.len() && p[k] == d;
        assert(p.push(c)[k] == d);
    }
    if d == c {
        assert(p.push(c)[p.len() as int] == d);
    }
    if p.push(c).contains(d) && d != c {
        let k = choose|k: int| 0 <= k < p.push(c).len() && p.push(c)[k] == d;
        assert(p[k] == d);
    }
}

proof fn lemma_claim_step(
    vis: Map<Seq<char>, nat>,
    offers: Set<(Seq<char>, Seq<char>)>,
    depth: nat,
    t: Seq<char>,
    p: Seq<Seq<char>>,
    c: Seq<char>,
)
    ensures
        claims(claims(vis, depth, p), depth, seq![c]) == claims(vis, depth, p.push(c)),
        add_offers(add_offers(offers, t, p), t, seq![c]) == add_offers(offers, t, p.push(c)),
{
    assert forall|d: Seq<char>| #[trigger] p.push(c).contains(d) == (p.contains(d) || d == c) by {
        lemma_seq_push_contains(p, c, d);
    }
    assert forall|d: Seq<char>| #[trigger] seq![c].contains(d) == (d == c) by {
        if d == c {
            assert(seq![c][0] == d);
        }
    }
    assert(claims(claims(vis, depth, p), depth, seq![c]) =~= claims(vis, depth, p.push(c)));
    assert(add_offers(add_offers(offers, t, p), t, seq![c]) =~= add_offers(offers, t, p.push(c)));
}

proof fn lemma_merge_step(
    g: GraphModel,
    t: Seq<char>,
    p: Seq<Seq<char>>,
    s: Seq<char>,
    v: Map<Seq<char>, nat>,
)
    ensures
        record_spec(merge_edges(g, t, p, v), t, s, v[s]) == merge_edges(g, t, p.push(s), v),
{
    assert forall|d: Seq<char>| #[trigger] p.push(s).contains(d) == (p.contains(d) || d == s) by {
        lemma_seq_push_contains(p, s, d);
    }
    assert(record_spec(merge_edges(g, t, p, v), t, s, v[s]) =~= merge_edges(g, t, p.push(s), v));
}

proof fn lemma_advance_wf(m: RunModel)
    requires
        model_wf(m),
        m.depth < m.max_depth,
    ensures
        model_wf(advance_spec(m)),
{
    let r = advance_spec(m);
    assert forall|d: Seq<char>| #[trigger]
        r.visited.contains_key(d) && d != r.start implies exists|u: Seq<char>|
        #[trigger] r.offers.contains((u, d)) && r.visited[u] + 1 == r.visited[d] by {
        let u = choose|u: Seq<char>|
            #[trigger] m.offers.contains((u, d)) && m.visited[u] + 1 == m.visited[d];
        assert(r.offers.contains((u, d)));
    }
}

/// One traversal run: the documents claimed so far, each with the layer it was
/// claimed in (the visited set), the layer being processed, and the graph.
///
/// The run is driven from outside: take `current_layer`, extract the links of each
/// of its documents (concurrently, in any order), `fold` each result in as it
/// arrives, then `advance`; stop once `is_done`.
pub struct TraversalRun {
    start: String,
    start_found: bool,
    docs: Vec<String>,
    dists: Vec<u32>,
    layer_start: usize,
    layer_end: usize,
    depth: u32,
    max_depth: u32,
    graph: LinkGraph,
    visited: Ghost<Map<Seq<char>, nat>>,
    offers: Ghost<Set<(Seq<char>, Seq<char>)>>,
}

impl View for TraversalRun {
    type V = RunModel;

    closed spec fn view(&self) -> RunModel {
        RunModel {
            start: self.start@,
            visited: self.visited@,
            graph: self.graph@,
            offers: self.offers@,
            depth: self.depth as nat,
            max_depth: self.max_depth as nat,
        }
    }
}

impl TraversalRun {
    closed spec fn repr_ok(&self) -> bool {
        &&& self.docs@.len() == self.dists@.len()
        &&& forall|a: int, b: int|
            0 <= a < b < self.docs@.len() ==> (#[trigger] self.docs@[a])@ != (
            #[trigger] self.docs@[b])@
        &&& forall|a: int|
            0 <= a < self.docs@.len() ==> self.visited@.contains_key((#[trigger] self.docs@[a])@)
                && self.visited@[self.docs@[a]@] == self.dists@[a] as nat
        &&& forall|d: Seq<char>| #[trigger]
            self.visited@.contains_key(d) ==> exists|a: int|
                0 <= a < self.docs@.len() && self.docs@[a]@ == d
        &&& self.layer_start <= self.layer_end <= self.docs@.len()
        &&& forall|a: int| 0 <= a < self.layer_start ==> #[trigger] self.dists@[a] < self.depth
        &&& forall|a: int|
            self.layer_start <= a < self.layer_end ==> #[trigger] self.dists@[a] == self.depth
        &&& forall|a: int|
            self.layer_end <= a < self.docs@.len() ==> #[trigger] self.dists@[a] == self.depth
                + 1
        &&& self.graph.wf()
        &&& !self.start_found ==> self.max_depth == 0
    }

    /// The run is in a consistent state.
    pub closed spec fn wf(&self) -> bool {
        self.repr_ok() && model_wf(self@)
    }

    /// The start document could be read when the run began.
    pub closed spec fn has_start(&self) -> bool {
        self.start_found
    }

    /// A run from `start` over at most `max_depth` layers. Where the start document
    /// could not be read (`start_found` false) the run has nothing to do.
    pub fn new(start: String, max_depth: u32, start_found: bool) -> (r: TraversalRun)
        ensures
            r.wf(),
            r.has_start() == start_found,
            r@.start == start@,
            r@.visited == Map::<Seq<char>, nat>::empty().insert(start@, 0nat),
            r@.graph == GraphModel::empty(),
            r@.offers == Set::<(Seq<char>, Seq<char>)>::empty(),
            r@.depth == 0,
            r@.max_depth == (if start_found {
                max_depth
            } else {
                0
            }),
    {
        let ghost sv = start@;
        let mut docs: Vec<String> = Vec::new();
        docs.push(start.clone());
        let mut dists: Vec<u32> = Vec::new();
        dists.push(0);
        let r = TraversalRun {
            start,
            start_found,
            docs,
            dists,
            layer_start: 0,
            layer_end: 1,
            depth: 0,
            max_depth: if start_found {
                max_depth
            } else {
                0
            },
            graph: LinkGraph::new(),
            visited: Ghost(Map::empty().insert(sv, 0nat)),
            offers: Ghost(Set::empty()),
        };
        assert forall|d: Seq<char>| #[trigger] r.visited@.contains_key(d) implies exists|a: int|
            0 <= a < r.docs@.len() && r.docs@[a]@ == d by {
            assert(r.docs@[0]@ == d);
        }
        r
    }

    fn index_of(&self, d: &String) -> (r: Option<usize>)
        requires
            self.repr_ok(),
        ensures
            r matches Some(k) ==> k < self.docs@.len() && self.docs@[k as int]@ == d@,
            r is None ==> !self.visited@.contains_key(d@),
    {
        let mut k: usize = 0;
        while k < self.docs.len()
            invariant
                self.repr_ok(),
                k <= self.docs@.len(),
                forall|a: int| 0 <= a < k ==> (#[trigger] self.docs@[a])@ != d@,
            decreases self.docs@.len() - k,
        {
            if self.docs[k] == *d {
                return Some(k);
            }
            k += 1;
        }
        None
    }

    fn claim(&mut self, t: &String, c: &String)
        requires
            old(self).repr_ok(),
            old(self).depth < old(self).max_depth,
        ensures
            final(self).repr_ok(),
            final(self).visited@ == claims(old(self).visited@, old(self).depth as nat, seq![c@]),
            final(self).offers@ == add_offers(old(self).offers@, t@, seq![c@]),
            final(self).start == old(self).start,
            final(self).start_found == old(self).start_found,
            final(self).graph == old(self).graph,
            final(self).depth == old(self).depth,
            final(self).max_depth == old(self).max_depth,
    {
        let ghost vis = self.visited@;
        assert forall|d: Seq<char>| #[trigger] seq![c@].contains(d) == (d == c@) by {
            if d == c@ {
                assert(seq![c@][0] == d);
            }
        }
        match self.index_of(c) {
            Some(_) => {
                assert(claims(vis, self.depth as nat, seq![c@]) =~= vis);
            },
            None => {
                let ghost n = self.docs@.len();
                self.docs.push(c.clone());
                self.dists.push(self.depth + 1);
                self.visited = Ghost(vis.insert(c@, (self.depth + 1) as nat));
                assert(claims(vis, self.depth as nat, seq![c@]) =~= self.visited@);
                assert forall|d: Seq<char>| #[trigger]
                    self.visited@.contains_key(d) implies exists|a: int|
                    0 <= a < self.docs@.len() && self.docs@[a]@ == d by {
                    if d == c@ {
                        assert(self.docs@[n as int]@ == d);
                    } else {
                        let a = choose|a: int| 0 <= a < n && old(self).docs@[a]@ == d;
                        assert(self.docs@[a]@ == d);
                    }
                }
            },
        }
        self.offers = Ghost(add_offers(self.offers@, t@, seq![c@]));
    }

    /// Folds the extraction result of one document of the current layer into the run:
    /// each candidate not yet visited is claimed at the next distance, and an edge from
    /// each backward link into the document is recorded at that source's distance.
    /// A result for a document outside the current layer, or one arriving after the
    /// last layer, is not folded and `false` is returned.
    #[verifier::spinoff_prover]
    pub fn fold(&mut self, result: &ProcessResult) -> (accepted: bool)
        requires
            old(self).wf(),
        ensures
            final(self).wf(),
            final(self).has_start() == old(self).has_start(),
            accepted == accepts(old(self)@, result.target@),
            final(self)@ == fold_spec(
                old(self)@,
                result.target@,
                node_paths(result.new_nodes@),
                paths(result.backward_links@),
            ),
    {
        let ghost m = self@;
        let t = &result.target;
        if self.depth >= self.max_depth {
            return false;
        }
        match self.index_of(t) {
            None => {
                return false;
            },
            Some(k) => {
                if self.dists[k] != self.depth {
                    return false;
                }
            },
        }
        let ghost cands = node_paths(result.new_nodes@);
        let ghost srcs = paths(result.backward_links@);
        let ghost all = cands + srcs;
        assert(all.subrange(0, 0) =~= Seq::<Seq<char>>::empty());
        assert(claims(m.visited, m.depth, Seq::empty()) =~= m.visited);
        assert(add_offers(m.offers, t@, Seq::empty()) =~= m.offers);
        let mut i: usize = 0;
        while i < result.new_nodes.len()
            invariant
                self.repr_ok(),
                i <= cands.len(),
                cands == node_paths(result.new_nodes@),
                all == cands + srcs,
                self.start@ == m.start,
                self.start_found == old(self).start_found,
                self.graph@ == m.graph,
                self.depth == m.depth,
                self.max_depth == m.max_depth,
                self.depth < self.max_depth,
                self.visited@ == claims(m.visited, m.depth, all.subrange(0, i as int)),
                self.offers@ == add_offers(m.offers, t@, all.subrange(0, i as int)),
            decreases cands.len() - i,
        {
            self.claim(t, &result.new_nodes[i].filepath);
            proof {
                lemma_claim_step(
                    m.visited,
                    m.offers,
                    m.depth,
                    t@,
                    all.subrange(0, i as int),
                    all[i as int],
                );
                assert(all.subrange(0, i as int).push(all[i as int]) =~= all.subrange(0, i + 1));
            }
            i += 1;
        }
        let mut j: usize = 0;
        while j < result.backward_links.len()
            invariant
                self.repr_ok(),
                j <= srcs.len(),
                srcs == paths(result.backward_links@),
                all == cands + srcs,
                self.start@ == m.start,
                self.start_found == old(self).start_found,
                self.graph@ == m.graph,
                self.depth == m.depth,
                self.max_depth == m.max_depth,
                self.depth < self.max_depth,
                self.visited@ == claims(m.visited, m.depth, all.subrange(0, cands.len() + j)),
                self.offers@ == add_offers(m.offers, t@, all.subrange(0, cands.len() + j)),
            decreases srcs.len() - j,
        {
            self.claim(t, &result.backward_links[j]);
            proof {
                lemma_claim_step(
                    m.visited,
                    m.offers,
                    m.depth,
                    t@,
                    all.subrange(0, cands.len() + j),
                    all[cands.len() + j],
                );
                assert(all.subrange(0, cands.len() + j).push(all[cands.len() + j])
                    =~= all.subrange(0, cands.len() + j + 1));
            }
            j += 1;
        }
        assert(all.subrange(0, cands.len() + j) =~= all);
        let ghost v = self.visited@;
        assert(srcs.subrange(0, 0) =~= Seq::<Seq<char>>::empty());
        assert(merge_edges(m.graph, t@, Seq::empty(), v) =~= m.graph);
        let mut q: usize = 0;
        while q < result.backward_links.len()
            invariant
                self.repr_ok(),
                q <= srcs.len(),
                srcs == paths(result.backward_links@),
                all == cands + srcs,
                v == claims(m.visited, m.depth, all),
                self.start@ == m.start,
                self.start_found == old(self).start_found,
                self.depth == m.depth,
                self.max_depth == m.max_depth,
                self.visited@ == v,
                self.offers@ == add_offers(m.offers, t@, all),
                self.graph@ == merge_edges(m.graph, t@, srcs.subrange(0, q as int), v),
            decreases srcs.len() - q,
        {
            let s = &result.backward_links[q];
            assert(all[cands.len() + q] == s@);
            assert(v.contains_key(s@));
            let d = match self.index_of(s) {
                Some(k) => self.dists[k],
                None => {
                    assert(false);
                    0
                },
            };
            self.graph.record(t, s, d);
            proof {
                lemma_merge_step(m.graph, t@, srcs.subrange(0, q as int), s@, v);
                assert(srcs.subrange(0, q as int).push(s@) =~= srcs.subrange(0, q + 1));
            }
            q += 1;
        }
        assert(srcs.subrange(0, q as int) =~= srcs);
        proof {
            lemma_fold_wf(m, t@, cands, srcs);
        }
        true
    }

    /// Moves on to the next layer: the documents claimed while folding the current
    /// one.
    #[verifier::spinoff_prover]
    pub fn advance(&mut self)
        requires
            old(self).wf(),
            old(self)@.depth < old(self)@.max_depth,
        ensures
            final(self).wf(),
            final(self).has_start() == old(self).has_start(),
            final(self)@ == advance_spec(old(self)@),
    {
        proof {
            lemma_advance_wf(self@);
        }
        let ghost before = self.dists@;
        self.layer_start = self.layer_end;
        self.layer_end = self.docs.len();
        self.depth = self.depth + 1;
        assert forall|a: int| 0 <= a < self.layer_start implies #[trigger] self.dists@[a]
            < self.depth by {
            assert(before[a] == self.dists@[a]);
        }
        assert(self@ =~= advance_spec(old(self)@));
    }

    /// Whether the run is over: every layer up to the bound has been processed, or
    /// the current layer is empty.
    pub fn is_done(&self) -> (r: bool)
        requires
            self.wf(),
        ensures
            r == (self@.depth >= self@.max_depth || !exists|d: Seq<char>| in_layer(self@, d)),
    {
        if self.layer_start < self.layer_end {
            assert(in_layer(self@, self.docs@[self.layer_start as int]@));
        } else {
            assert forall|d: Seq<char>| !in_layer(self@, d) by {
                if in_layer(self@, d) {
                    let a = choose|a: int| 0 <= a < self.docs@.len() && self.docs@[a]@ == d;
                    assert(self.dists@[a] == self.depth);
                }
            }
        }
        self.depth >= self.max_depth || self.layer_start == self.layer_end
    }

    /// The documents of the current layer, each once, with their distance.
    pub fn current_layer(&self) -> (r: Vec<Node>)
        requires
            self.wf(),
        ensures
            forall|d: Seq<char>| node_paths(r@).contains(d) <==> in_layer(self@, d),
            node_paths(r@).no_duplicates(),
            forall|k: int| 0 <= k < r@.len() ==> #[trigger] r@[k].distance == self@.depth,
    {
        let mut out: Vec<Node> = Vec::new();
        let mut a: usize = self.layer_start;
        while a < self.layer_end
            invariant
                self.wf(),
                self.layer_start <= a <= self.layer_end,
                out@.len() == a - self.layer_start,
                forall|q: int|
                    0 <= q < out@.len() ==> (#[trigger] out@[q]).filepath@ == self.docs@[self.layer_start
                        + q]@ && out@[q].distance == self.depth,
            decreases self.layer_end - a,
        {
            out.push(Node { filepath: self.docs[a].clone(), distance: self.depth });
            a += 1;
        }
        let ghost ps = node_paths(out@);
        assert forall|d: Seq<char>| ps.contains(d) <==> in_layer(self@, d) by {
            if ps.contains(d) {
                let q = choose|q: int| 0 <= q < ps.len() && ps[q] == d;
                assert(out@[q].filepath@ == d);
                assert(self.dists@[self.layer_start + q] == self.depth);
            }
            if in_layer(self@, d) {
                let b = choose|b: int| 0 <= b < self.docs@.len() && self.docs@[b]@ == d;
                assert(self.dists@[b] == self.depth);
                assert(self.layer_start <= b < self.layer_end);
                assert(ps[b - self.layer_start] == d);
            }
        }
        assert forall|x: int, y: int| 0 <= x < y < ps.len() implies ps[x] != ps[y] by {
            assert(ps[x] == self.docs@[self.layer_start + x]@);
            assert(ps[y] == self.docs@[self.layer_start + y]@);
        }
        out
    }

    /// The graph accumulated so far; after a cancellation between layers it is a
    /// consistent partial result.
    pub fn graph(&self) -> (r: &LinkGraph)
        requires
            self.wf(),
        ensures
            r.wf(),
            r@ == self@.graph,
    {
        &self.graph
    }

    /// Ends the run: the graph, or `None` where the start document could not be
    /// read, which tells "nothing discovered" apart from "no links".
    pub fn finish(self) -> (r: Option<LinkGraph>)
        requires
            self.wf(),
        ensures
            r is None <==> !self.has_start(),
            r matches Some(g) ==> g.wf() && g@ == self@.graph,
    {
        if self.start_found {
            Some(self.graph)
        } else {
            None
        }
    }
}

} // verus!
