use vstd::prelude::*;

verus! {

/// Recorded distances, keyed by (target, source): the source links to the target,
/// and the value is the source's distance from the start document.
pub type GraphModel = Map<(Seq<char>, Seq<char>), nat>;

/// The distance kept for a (target, source) pair after `d` is offered for it:
/// the first offer is kept, later ones only lower it.
pub open spec fn record_spec(g: GraphModel, t: Seq<char>, s: Seq<char>, d: nat) -> GraphModel {
    if g.contains_key((t, s)) && g[(t, s)] <= d {
        g
    } else {
        g.insert((t, s), d)
    }
}

/// One edge of the graph: `source` links to `target`, and `distance` is the
/// source's distance from the start document.
pub struct Edge {
    pub target: String,
    pub source: String,
    pub distance: u32,
}

pub open spec fn edge_key(e: Edge) -> (Seq<char>, Seq<char>) {
    (e.target@, e.source@)
}

/// The adjacency/distance map: each (target, source) pair once, in the order in
/// which the pairs were first recorded.
pub struct LinkGraph {
    edges: Vec<Edge>,
    model: Ghost<GraphModel>,
}

impl View for LinkGraph {
    type V = GraphModel;

    closed spec fn view(&self) -> GraphModel {
        self.model@
    }
}

/// `edges` lists exactly the pairs of `g`, each once, with its distance.
pub open spec fn lists_graph(edges: Seq<Edge>, g: GraphModel) -> bool {
    &&& forall|a: int, b: int|
        0 <= a < b < edges.len() ==> edge_key(#[trigger] edges[a]) != edge_key(
            #[trigger] edges[b],
        )
    &&& forall|a: int|
        0 <= a < edges.len() ==> g.contains_key(edge_key(#[trigger] edges[a])) && g[edge_key(
            edges[a],
        )] == edges[a].distance as nat
    &&& forall|p: (Seq<char>, Seq<char>)|
        #[trigger] g.contains_key(p) ==> exists|a: int| 0 <= a < edges.len() && edge_key(edges[a]) == p
}

impl LinkGraph {
    pub closed spec fn wf(&self) -> bool {
        lists_graph(self.edges@, self.model@)
    }

    /// A graph with no edges.
    pub fn new() -> (r: LinkGraph)
        ensures
            r.wf(),
            r@ == GraphModel::empty(),
    {
        LinkGraph { edges: Vec::new(), model: Ghost(Map::empty()) }
    }

    /// The edges, each (target, source) pair once, in the order first recorded.
    pub fn edges(&self) -> (r: &Vec<Edge>)
        requires
            self.wf(),
        ensures
            lists_graph(r@, self@),
    {
        &self.edges
    }

    /// Number of edges.
    pub fn len(&self) -> (r: usize)
        requires
            self.wf(),
        ensures
            r == self@.len(),
    {
        proof {
            self.lemma_len();
        }
        self.edges.len()
    }

    proof fn lemma_len(&self)
        requires
            self.wf(),
        ensures
            self.edges@.len() == self@.len(),
    {
        let keys = self.edges@.map_values(|e: Edge| edge_key(e));
        assert forall|a: int, b: int| 0 <= a < b < keys.len() implies keys[a] != keys[b] by {
            assert(edge_key(self.edges@[a]) != edge_key(self.edges@[b]));
        }
        assert(keys.no_duplicates());
        assert(keys.to_set() =~= self.model@.dom()) by {
            assert forall|p| self.model@.dom().contains(p) implies keys.to_set().contains(p) by {
                let a = choose|a: int| 0 <= a < self.edges@.len() && edge_key(self.edges@[a]) == p;
                assert(keys[a] == p);
            }
            assert forall|p| keys.to_set().contains(p) implies self.model@.dom().contains(p) by {
                let a = choose|a: int| 0 <= a < keys.len() && keys[a] == p;
                assert(self.model@.contains_key(edge_key(self.edges@[a])));
            }
        }
        keys.unique_seq_to_set();
    }

    /// The distance recorded for `source` under `target`, if that pair is present.
    pub fn distance(&self, target: &String, source: &String) -> (r: Option<u32>)
        requires
            self.wf(),
        ensures
            r is Some <==> self@.contains_key((target@, source@)),
            r matches Some(d) ==> self@[(target@, source@)] == d as nat,
    {
        match self.find(target, source) {
            Some(k) => Some(self.edges[k].distance),
            None => None,
        }
    }

    fn find(&self, target: &String, source: &String) -> (r: Option<usize>)
        requires
            self.wf(),
        ensures
            r matches Some(k) ==> k < self.edges@.len() && edge_key(self.edges@[k as int]) == (
                target@,
                source@,
            ),
            r is None ==> !self@.contains_key((target@, source@)),
    {
        let mut k: usize = 0;
        while k < self.edges.len()
            invariant
                self.wf(),
                k <= self.edges@.len(),
                forall|a: int|
                    0 <= a < k ==> edge_key(#[trigger] self.edges@[a]) != (target@, source@),
            decreases self.edges@.len() - k,
        {
            let e = &self.edges[k];
            if e.target == *target && e.source == *source {
                return Some(k);
            }
            k += 1;
        }
        None
    }

    /// Offers `distance` for the edge from `source` to `target`: a new pair is added
    /// at the end with that distance; a present one keeps the smaller of the two.
    pub fn record(&mut self, target: &String, source: &String, distance: u32)
        requires
            old(self).wf(),
        ensures
            final(self).wf(),
            final(self)@ == record_spec(old(self)@, target@, source@, distance as nat),
    {
        let ghost g = self.model@;
        match self.find(target, source) {
            Some(k) => {
                if distance < self.edges[k].distance {
                    let e = Edge { target: target.clone(), source: source.clone(), distance };
                    self.edges.set(k, e);
                    self.model = Ghost(g.insert((target@, source@), distance as nat));
                    assert forall|p: (Seq<char>, Seq<char>)| #[trigger]
                        self.model@.contains_key(p) implies exists|a: int|
                        0 <= a < self.edges@.len() && edge_key(self.edges@[a]) == p by {
                        if p != (target@, source@) {
                            let a = choose|a: int|
                                0 <= a < old(self).edges@.len() && edge_key(old(self).edges@[a])
                                    == p;
                            assert(edge_key(self.edges@[a]) == p);
                        } else {
                            assert(edge_key(self.edges@[k as int]) == p);
                        }
                    }
                }
            },
            None => {
                let e = Edge { target: target.clone(), source: source.clone(), distance };
                self.edges.push(e);
                self.model = Ghost(g.insert((target@, source@), distance as nat));
                assert forall|p: (Seq<char>, Seq<char>)| #[trigger]
                    self.model@.contains_key(p) implies exists|a: int|
                    0 <= a < self.edges@.len() && edge_key(self.edges@[a]) == p by {
                    if p != (target@, source@) {
                        let a = choose|a: int|
                            0 <= a < old(self).edges@.len() && edge_key(old(self).edges@[a]) == p;
                        assert(edge_key(self.edges@[a]) == p);
                    } else {
                        assert(edge_key(self.edges@[old(self).edges@.len() as int]) == p);
                    }
                }
            },
        }
    }
}

/// Offers for one pair are kept at their minimum, whatever order they arrive in:
/// recording `d1` then `d2` gives the graph that recording `d2` then `d1` gives,
/// and the pair ends at the smaller of the two (or an earlier, smaller value).
pub proof fn lemma_record_order_independent(
    g: GraphModel,
    t1: Seq<char>,
    s1: Seq<char>,
    d1: nat,
    t2: Seq<char>,
    s2: Seq<char>,
    d2: nat,
)
    ensures
        record_spec(record_spec(g, t1, s1, d1), t2, s2, d2) == record_spec(
            record_spec(g, t2, s2, d2),
            t1,
            s1,
            d1,
        ),
        record_spec(g, t1, s1, d1).contains_key((t1, s1)),
        record_spec(g, t1, s1, d1)[(t1, s1)] <= d1,
        g.contains_key((t1, s1)) ==> record_spec(g, t1, s1, d1)[(t1, s1)] <= g[(t1, s1)],
        g.contains_key((t1, s1)) ==> (record_spec(g, t1, s1, d1)[(t1, s1)] == g[(t1, s1)]
            || record_spec(g, t1, s1, d1)[(t1, s1)] == d1),
{
    let a = record_spec(record_spec(g, t1, s1, d1), t2, s2, d2);
    let b = record_spec(record_spec(g, t2, s2, d2), t1, s1, d1);
    assert(a =~= b);
}

} // verus!
