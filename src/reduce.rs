use vstd::prelude::*;

use crate::graph::{edge_key, lists_graph, Edge, GraphModel, LinkGraph};

verus! {

/// `d` is the start or an end of some edge of `g`.
pub open spec fn appears(g: GraphModel, start: Seq<char>, d: Seq<char>) -> bool {
    d == start || exists|p: (Seq<char>, Seq<char>)| #[trigger]
        g.contains_key(p) && (p.0 == d || p.1 == d)
}

/// `n` is the least distance recorded for `d` as a source anywhere in `g`.
pub open spec fn is_least_recorded(g: GraphModel, d: Seq<char>, n: nat) -> bool {
    &&& exists|t: Seq<char>| #[trigger] g.contains_key((t, d)) && g[(t, d)] == n
    &&& forall|t: Seq<char>| #[trigger] g.contains_key((t, d)) ==> n <= g[(t, d)]
}

/// `d` is recorded as a source somewhere in `g`.
pub open spec fn has_recorded(g: GraphModel, d: Seq<char>) -> bool {
    exists|t: Seq<char>| #[trigger] g.contains_key((t, d))
}

spec fn least_upto(es: Seq<Edge>, i: int, d: Seq<char>, n: nat) -> bool {
    &&& exists|a: int| 0 <= a < i && (#[trigger] es[a]).source@ == d && es[a].distance == n
    &&& forall|a: int| 0 <= a < i && (#[trigger] es[a]).source@ == d ==> n <= es[a].distance
}

spec fn seen_upto(es: Seq<Edge>, i: int, start: Seq<char>, d: Seq<char>) -> bool {
    d == start || exists|a: int|
        0 <= a < i && ((#[trigger] es[a]).target@ == d || es[a].source@ == d)
}

fn slot_of(docs: &mut Vec<String>, dists: &mut Vec<Option<u32>>, d: &String) -> (k: usize)
    requires
        old(docs)@.len() == old(dists)@.len(),
    ensures
        final(docs)@.len() == final(dists)@.len(),
        k < final(docs)@.len(),
        final(docs)@[k as int]@ == d@,
        forall|a: int| 0 <= a < old(docs)@.len() ==> #[trigger] final(docs)@[a] == old(docs)@[a],
        forall|a: int| 0 <= a < old(dists)@.len() ==> #[trigger] final(dists)@[a] == old(dists)@[a],
        (exists|a: int| 0 <= a < old(docs)@.len() && old(docs)@[a]@ == d@) ==> final(docs)@
            == old(docs)@ && final(dists)@ == old(dists)@,
        !(exists|a: int| 0 <= a < old(docs)@.len() && old(docs)@[a]@ == d@) ==> final(docs)@.len()
            == old(docs)@.len() + 1 && final(dists)@[k as int] is None && k == old(docs)@.len(),
{
    let mut k: usize = 0;
    while k < docs.len()
        invariant
            docs@ == old(docs)@,
            dists@ == old(dists)@,
            docs@.len() == dists@.len(),
            k <= docs@.len(),
            forall|a: int| 0 <= a < k ==> (#[trigger] docs@[a])@ != d@,
        decreases docs@.len() - k,
    {
        if docs[k] == *d {
            return k;
        }
        k += 1;
    }
    docs.push(d.clone());
    dists.push(None);
    k
}

/// Every document of the graph with its shortest distance from `start`: the start
/// at 0, any other document at the least distance recorded for it as a source, and
/// `None` for a document recorded only as a target. Each document once.
pub fn build_shortest_paths_data(start: &String, links: &LinkGraph) -> (r: Vec<
    (String, Option<u32>),
>)
    requires
        links.wf(),
    ensures
        forall|d: Seq<char>|
            (exists|k: int| 0 <= k < r@.len() && (#[trigger] r@[k]).0@ == d) <==> appears(
                links@,
                start@,
                d,
            ),
        forall|x: int, y: int|
            0 <= x < y < r@.len() ==> (#[trigger] r@[x]).0@ != (#[trigger] r@[y]).0@,
        forall|k: int|
            0 <= k < r@.len() ==> (#[trigger] r@[k]).0@ == start@ ==> r@[k].1 == Some(0u32),
        forall|k: int|
            0 <= k < r@.len() && (#[trigger] r@[k]).0@ != start@ ==> (r@[k].1 matches Some(n)
                ==> is_least_recorded(links@, r@[k].0@, n as nat)),
        forall|k: int|
            0 <= k < r@.len() && (#[trigger] r@[k]).0@ != start@ ==> (r@[k].1 is None
                <==> !has_recorded(links@, r@[k].0@)),
{
    let es = links.edges();
    let ghost g = links@;
    let ghost s = start@;
    let mut docs: Vec<String> = Vec::new();
    let mut dists: Vec<Option<u32>> = Vec::new();
    docs.push(start.clone());
    dists.push(Some(0));
    assert forall|d: Seq<char>|
        (exists|k: int| 0 <= k < docs@.len() && (#[trigger] docs@[k])@ == d) <==> seen_upto(
            es@,
            0,
            s,
            d,
        ) by {
        if d == s {
            assert(docs@[0]@ == d);
        }
    }
    let mut i: usize = 0;
    while i < es.len()
        invariant
            lists_graph(es@, g),
            s == start@,
            g == links@,
            i <= es@.len(),
            docs@.len() == dists@.len(),
            docs@.len() >= 1,
            docs@[0]@ == s,
            forall|x: int, y: int|
                0 <= x < y < docs@.len() ==> (#[trigger] docs@[x])@ != (#[trigger] docs@[y])@,
            forall|d: Seq<char>|
                (exists|k: int| 0 <= k < docs@.len() && (#[trigger] docs@[k])@ == d)
                    <==> seen_upto(es@, i as int, s, d),
            forall|k: int| 0 <= k < docs@.len() && (#[trigger] docs@[k])@ == s ==> dists@[k] == Some(0u32),
            forall|k: int|
                0 <= k < docs@.len() && (#[trigger] docs@[k])@ != s ==> (dists@[k] matches Some(n)
                    ==> least_upto(es@, i as int, docs@[k]@, n as nat)),
            forall|k: int|
                0 <= k < docs@.len() && (#[trigger] docs@[k])@ != s ==> (dists@[k] is None
                    <==> !exists|a: int|
                    0 <= a < i && (#[trigger] es@[a]).source@ == docs@[k]@),
        decreases es@.len() - i,
    {
        let e = &es[i];
        let ghost docs0 = docs@;
        let ghost dists0 = dists@;
        let kt = slot_of(&mut docs, &mut dists, &e.target);
        let ghost docsT = docs@;
        let ghost distsT = dists@;
        let ks = slot_of(&mut docs, &mut dists, &e.source);
        let ghost docs1 = docs@;
        let ghost dists1 = dists@;
        if !(e.source == *start) {
            let nd = match dists[ks] {
                Some(old) => if e.distance < old {
                    e.distance
                } else {
                    old
                },
                None => e.distance,
            };
            proof {
                let d = e.source@;
                assert(docs@[ks as int]@ == d);
                if ks < docs0.len() {
                    assert(distsT[ks as int] == dists0[ks as int]);
                    assert(docs0[ks as int] == docs@[ks as int]);
                    assert(docs0[ks as int]@ != s);
                    if dists0[ks as int] is Some {
                        let old = dists0[ks as int]->0;
                        assert(least_upto(es@, i as int, d, old as nat));
                    } else {
                        assert(forall|a: int| 0 <= a < i ==> (#[trigger] es@[a]).source@ != d);
                    }
                } else {
                    let d = docs@[ks as int]@;
                    if seen_upto(es@, i as int, s, d) {
                        let k0 = choose|k0: int|
                            0 <= k0 < docs0.len() && (#[trigger] docs0[k0])@ == d;
                        assert(docsT[k0] == docs0[k0]);
                        assert(docs@[k0] == docs0[k0]);
                    }
                    if ks < docsT.len() {
                        assert(ks == kt);
                    }
                    assert(dists1[ks as int] is None);
                    assert forall|a: int| 0 <= a < i implies (#[trigger] es@[a]).source@ != d by {
                        assert(!(0 <= a < i && (es@[a].target@ == d || es@[a].source@ == d)));
                    }
                }
                assert(es@[i as int].source@ == d);
                assert(least_upto(es@, i + 1, d, nd as nat));
            }
            dists.set(ks, Some(nd));
        }
        assert(e.source@ != s ==> dists@[ks as int] is Some && least_upto(
            es@,
            i + 1,
            e.source@,
            dists@[ks as int]->0 as nat,
        ));
        proof {
            let i1 = i + 1;
            assert forall|x: int, y: int|
                0 <= x < y < docs@.len() implies (#[trigger] docs@[x])@ != (
                #[trigger] docs@[y])@ by {
                if y >= docs0.len() && x < docs0.len() {
                    if y == kt as int {
                        assert(docs@[x] == docs0[x]);
                    } else {
                        assert(docs@[x] == docs1[x]);
                    }
                }
            }
            assert forall|d: Seq<char>|
                (exists|k: int| 0 <= k < docs@.len() && (#[trigger] docs@[k])@ == d)
                    <==> #[trigger] seen_upto(es@, i1, s, d) by {
                if seen_upto(es@, i1, s, d) {
                    if d == e.target@ {
                        assert(docs@[kt as int]@ == d);
                    } else if d == e.source@ {
                        assert(docs@[ks as int]@ == d);
                    } else {
                        assert(seen_upto(es@, i as int, s, d));
                        let k = choose|k: int| 0 <= k < docs0.len() && (#[trigger] docs0[k])@ == d;
                        assert(docs@[k]@ == d);
                    }
                }
                if exists|k: int| 0 <= k < docs@.len() && (#[trigger] docs@[k])@ == d {
                    let k = choose|k: int| 0 <= k < docs@.len() && (#[trigger] docs@[k])@ == d;
                    if k < docs0.len() {
                        assert(docs0[k]@ == d);
                        assert(seen_upto(es@, i as int, s, d));
                        if d != s {
                            let a = choose|a: int|
                                0 <= a < i && ((#[trigger] es@[a]).target@ == d || es@[a].source@
                                    == d);
                            assert(0 <= a < i + 1);
                        }
                    } else {
                        assert(es@[i as int].target@ == d || es@[i as int].source@ == d);
                    }
                }
            }
            assert forall|k: int| docs0.len() <= k < docs@.len() implies !seen_upto(
                es@,
                i as int,
                s,
                (#[trigger] docs@[k])@,
            ) by {
                let d = docs@[k]@;
                if seen_upto(es@, i as int, s, d) {
                    let k0 = choose|k0: int| 0 <= k0 < docs0.len() && (#[trigger] docs0[k0])@ == d;
                    assert(docsT[k0] == docs0[k0]);
                    assert(docs@[k0] == docs0[k0]);
                }
            }
            assert forall|k: int|
                0 <= k < docs@.len() && (#[trigger] docs@[k])@ != s implies (dists@[k] matches Some(
                n,
            ) ==> least_upto(es@, i1, docs@[k]@, n as nat)) && (dists@[k] is None
                <==> !exists|a: int| 0 <= a < i1 && (#[trigger] es@[a]).source@ == docs@[k]@) by {
                let d = docs@[k]@;
                if d != e.source@ {
                    assert(k != ks);
                    assert(dists@[k] == dists1[k]);
                    if k < docs0.len() {
                        assert(distsT[k] == dists0[k]);
                        assert(dists1[k] == dists0[k]);
                        assert(docs0[k] == docs@[k]);
                        if dists@[k] is None {
                            assert forall|a: int| 0 <= a < i1 implies (#[trigger] es@[a]).source@
                                != d by {
                                if a < i {
                                    assert(docs0[k]@ == d);
                                }
                            }
                        }
                    } else {
                        assert(!seen_upto(es@, i as int, s, d));
                        if k < docsT.len() {
                            assert(k == kt);
                            assert(dists1[k] == distsT[k]);
                        }
                        assert(dists@[k] is None);
                        assert forall|a: int| 0 <= a < i1 implies (#[trigger] es@[a]).source@
                            != d by {
                            if a < i {
                                assert(!(0 <= a < i && (es@[a].target@ == d || es@[a].source@
                                    == d)));
                            }
                        }
                    }
                } else {
                    assert(docs@[ks as int]@ == d);
                    assert(k == ks);
                    assert(es@[i as int].source@ == d);
                }
            }
        }
        i += 1;
    }
    let mut r: Vec<(String, Option<u32>)> = Vec::new();
    let mut k: usize = 0;
    while k < docs.len()
        invariant
            k <= docs@.len(),
            docs@.len() == dists@.len(),
            r@.len() == k,
            forall|q: int|
                0 <= q < k ==> (#[trigger] r@[q]).0 == docs@[q] && r@[q].1 == dists@[q],
        decreases docs@.len() - k,
    {
        r.push((docs[k].clone(), dists[k]));
        k += 1;
    }
    proof {
        assert forall|d: Seq<char>| seen_upto(es@, es@.len() as int, s, d) <==> appears(g, s, d) by {
            if seen_upto(es@, es@.len() as int, s, d) && d != s {
                let a = choose|a: int|
                    0 <= a < es@.len() && ((#[trigger] es@[a]).target@ == d || es@[a].source@ == d);
                assert(g.contains_key(edge_key(es@[a])));
            }
            if appears(g, s, d) && d != s {
                let p = choose|p: (Seq<char>, Seq<char>)| #[trigger]
                    g.contains_key(p) && (p.0 == d || p.1 == d);
                let a = choose|a: int| 0 <= a < es@.len() && edge_key(es@[a]) == p;
                assert(es@[a].target@ == d || es@[a].source@ == d);
            }
        }
        assert forall|d: Seq<char>, n: nat|
            least_upto(es@, es@.len() as int, d, n) implies is_least_recorded(g, d, n) by {
            let a = choose|a: int| 0 <= a < es@.len() && (#[trigger] es@[a]).source@ == d
                && es@[a].distance == n;
            assert(g.contains_key(edge_key(es@[a])));
            assert forall|t: Seq<char>| #[trigger] g.contains_key((t, d)) implies n <= g[(t, d)] by {
                let b = choose|b: int| 0 <= b < es@.len() && edge_key(es@[b]) == (t, d);
                assert(es@[b].source@ == d);
            }
        }
        assert forall|d: Seq<char>|
            has_recorded(g, d) <==> exists|a: int| 0 <= a < es@.len() && (#[trigger] es@[a]).source@
                == d by {
            if has_recorded(g, d) {
                let t = choose|t: Seq<char>| #[trigger] g.contains_key((t, d));
                let a = choose|a: int| 0 <= a < es@.len() && edge_key(es@[a]) == (t, d);
                assert(es@[a].source@ == d);
            }
            if exists|a: int| 0 <= a < es@.len() && (#[trigger] es@[a]).source@ == d {
                let a = choose|a: int| 0 <= a < es@.len() && (#[trigger] es@[a]).source@ == d;
                assert(g.contains_key(edge_key(es@[a])));
            }
        }
        assert forall|d: Seq<char>|
            (exists|q: int| 0 <= q < r@.len() && (#[trigger] r@[q]).0@ == d) <==> appears(g, s, d) by {
            if exists|q: int| 0 <= q < r@.len() && (#[trigger] r@[q]).0@ == d {
                let q = choose|q: int| 0 <= q < r@.len() && (#[trigger] r@[q]).0@ == d;
                assert(docs@[q]@ == d);
            }
            if appears(g, s, d) {
                let q = choose|q: int| 0 <= q < docs@.len() && (#[trigger] docs@[q])@ == d;
                assert(r@[q].0@ == d);
            }
        }
    }
    r
}

} // verus!
