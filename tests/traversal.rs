use tree_builder::graph::LinkGraph;
use tree_builder::links::{
    backward_link_sources, forward_links, is_sibling_candidate, split_doc_path, SiblingDoc,
};
use tree_builder::reduce::build_shortest_paths_data;
use tree_builder::traversal::{process_node, Node, ProcessResult, TraversalRun};

/// An in-memory corpus: (absolute path, text) of each document.
type Corpus<'a> = &'a [(&'a str, &'a str)];

fn extract(corpus: Corpus, node: &Node, base: &str) -> ProcessResult {
    let doc = node.filepath.as_str();
    let forward = match corpus.iter().find(|(p, _)| *p == doc) {
        Some((_, text)) => forward_links(doc, text, base),
        None => Vec::new(),
    };
    let backward = match split_doc_path(doc) {
        Some((dir, _)) => {
            let mut sibs = Vec::new();
            for (p, text) in corpus {
                if let Some((d, name)) = split_doc_path(p) {
                    if d == dir && is_sibling_candidate(doc, &dir, &name) {
                        sibs.push(SiblingDoc { name, content: text.to_string() });
                    }
                }
            }
            backward_link_sources(doc, &sibs, base)
        }
        None => Vec::new(),
    };
    process_node(node, forward, backward)
}

fn build(corpus: Corpus, start: &str, max_depth: u32, reverse: bool) -> Option<LinkGraph> {
    let found = corpus.iter().any(|(p, _)| *p == start);
    let mut run = TraversalRun::new(start.to_string(), max_depth, found);
    while !run.is_done() {
        let layer = run.current_layer();
        let mut results: Vec<ProcessResult> =
            layer.iter().map(|n| extract(corpus, n, "/w")).collect();
        if reverse {
            results.reverse();
        }
        for r in &results {
            assert!(run.fold(r));
        }
        run.advance();
    }
    run.finish()
}

fn edge_list(g: &LinkGraph) -> Vec<(String, String, u32)> {
    let mut v: Vec<(String, String, u32)> = g
        .edges()
        .iter()
        .map(|e| (e.target.clone(), e.source.clone(), e.distance))
        .collect();
    v.sort();
    v
}

fn dist(g: &LinkGraph, t: &str, s: &str) -> Option<u32> {
    g.distance(&t.to_string(), &s.to_string())
}

const CHAIN: [(&str, &str); 3] =
    [("/w/A.md", "[x](B.md)"), ("/w/B.md", "[y](C.md)"), ("/w/C.md", "no links")];

#[test]
fn end_to_end_two_layers() {
    let g = build(&CHAIN, "/w/A.md", 2, false).unwrap();
    assert_eq!(dist(&g, "/w/B.md", "/w/A.md"), Some(0));
    assert_eq!(g.len(), 1);
}

#[test]
fn end_to_end_three_layers() {
    let g = build(&CHAIN, "/w/A.md", 3, false).unwrap();
    assert_eq!(dist(&g, "/w/B.md", "/w/A.md"), Some(0));
    assert_eq!(dist(&g, "/w/C.md", "/w/B.md"), Some(1));
    assert_eq!(g.len(), 2);
}

#[test]
fn depth_zero_records_nothing() {
    let g = build(&CHAIN, "/w/A.md", 0, false).unwrap();
    assert_eq!(g.len(), 0);
}

#[test]
fn missing_start_is_reported_apart_from_an_empty_graph() {
    assert!(build(&CHAIN, "/w/Z.md", 3, false).is_none());
    let lonely = [("/w/L.md", "no links at all")];
    let g = build(&lonely, "/w/L.md", 3, false).unwrap();
    assert_eq!(g.len(), 0);
}

#[test]
fn depth_bound_keeps_far_documents_out() {
    let chain = [
        ("/w/A.md", "[x](B.md)"),
        ("/w/B.md", "[x](C.md)"),
        ("/w/C.md", "[x](D.md)"),
        ("/w/D.md", "end"),
    ];
    let g = build(&chain, "/w/A.md", 2, false).unwrap();
    for (t, s, _) in edge_list(&g) {
        assert_ne!(t, "/w/D.md");
        assert_ne!(s, "/w/D.md");
    }
    let nodes: Vec<String> =
        build_shortest_paths_data(&"/w/A.md".to_string(), &g).into_iter().map(|p| p.0).collect();
    assert!(nodes.contains(&"/w/A.md".to_string()));
    assert!(nodes.contains(&"/w/B.md".to_string()));
    assert!(!nodes.contains(&"/w/D.md".to_string()));
}

#[test]
fn shortest_distance_wins_over_a_longer_path() {
    // S reaches C in two hops (S -> B -> C) and in four (S -> D -> E -> F -> C);
    // C links to Z, so the edge from C into Z is recorded when Z is expanded.
    let corpus = [
        ("/w/S.md", "[b](B.md) [d](D.md)"),
        ("/w/B.md", "[c](C.md)"),
        ("/w/D.md", "[e](E.md)"),
        ("/w/E.md", "[f](F.md)"),
        ("/w/F.md", "[c](C.md)"),
        ("/w/C.md", "[z](Z.md)"),
        ("/w/Z.md", "end"),
    ];
    let g = build(&corpus, "/w/S.md", 5, false).unwrap();
    assert_eq!(dist(&g, "/w/Z.md", "/w/C.md"), Some(2));
    assert_eq!(dist(&g, "/w/C.md", "/w/B.md"), Some(1));
    assert_eq!(dist(&g, "/w/C.md", "/w/F.md"), Some(3));
}

#[test]
fn folding_order_does_not_change_the_graph() {
    let corpus = [
        ("/w/S.md", "[a](A.md) [b](B.md)"),
        ("/w/A.md", "[c](C.md) [s](S.md)"),
        ("/w/B.md", "[c](C.md) [a](A.md)"),
        ("/w/C.md", "[s](./S.md)"),
    ];
    let one = build(&corpus, "/w/S.md", 4, false).unwrap();
    let two = build(&corpus, "/w/S.md", 4, true).unwrap();
    assert_eq!(edge_list(&one), edge_list(&two));
    assert!(one.len() > 0);
}

#[test]
fn start_is_not_its_own_source() {
    let corpus = [("/w/A.md", "[me](./A.md) [b](B.md)"), ("/w/B.md", "[a](A.md)")];
    let g = build(&corpus, "/w/A.md", 3, false).unwrap();
    assert_eq!(dist(&g, "/w/A.md", "/w/A.md"), None);
    assert_eq!(dist(&g, "/w/A.md", "/w/B.md"), Some(1));
    assert_eq!(dist(&g, "/w/B.md", "/w/A.md"), Some(0));
}

#[test]
fn missing_target_is_visited_and_contributes_nothing() {
    let corpus = [("/w/A.md", "[gone](sub/Missing.md) [b](B.md)"), ("/w/B.md", "end")];
    let mut run = TraversalRun::new("/w/A.md".to_string(), 3, true);
    let layer = run.current_layer();
    assert_eq!(layer.len(), 1);
    for n in &layer {
        assert!(run.fold(&extract(&corpus, n, "/w")));
    }
    run.advance();
    let layer = run.current_layer();
    let names: Vec<&str> = layer.iter().map(|n| n.filepath.as_str()).collect();
    assert!(names.contains(&"/w/sub/Missing.md"));
    for n in &layer {
        let r = extract(&corpus, n, "/w");
        if n.filepath == "/w/sub/Missing.md" {
            assert!(r.new_nodes.is_empty());
            assert!(r.backward_links.is_empty());
        }
        assert!(run.fold(&r));
    }
    run.advance();
    assert!(run.is_done());
    let g = run.finish().unwrap();
    assert_eq!(dist(&g, "/w/B.md", "/w/A.md"), Some(0));
    assert_eq!(g.len(), 1);
}

#[test]
fn fold_refuses_documents_outside_the_layer() {
    let mut run = TraversalRun::new("/w/A.md".to_string(), 2, true);
    let stranger = Node { filepath: "/w/X.md".to_string(), distance: 0 };
    let r = process_node(&stranger, vec!["/w/Y.md".to_string()], vec!["/w/Q.md".to_string()]);
    assert!(!run.fold(&r));
    assert_eq!(run.graph().len(), 0);
    assert_eq!(run.current_layer().len(), 1);
}

#[test]
fn fold_records_sources_at_their_claimed_distance() {
    let mut run = TraversalRun::new("/w/A.md".to_string(), 2, true);
    let start = Node { filepath: "/w/A.md".to_string(), distance: 0 };
    let r = process_node(&start, vec!["/w/B.md".to_string()], vec!["/w/C.md".to_string()]);
    assert_eq!(r.new_nodes.len(), 2);
    assert!(r.new_nodes.iter().all(|n| n.distance == 1));
    assert!(run.fold(&r));
    assert_eq!(run.graph().distance(&"/w/A.md".to_string(), &"/w/C.md".to_string()), Some(1));
    run.advance();
    let layer = run.current_layer();
    assert_eq!(layer.len(), 2);
    assert!(layer.iter().all(|n| n.distance == 1));
}

#[test]
fn record_keeps_the_minimum() {
    let mut g = LinkGraph::new();
    let t = "/w/T.md".to_string();
    let s = "/w/S.md".to_string();
    g.record(&t, &s, 4);
    assert_eq!(g.distance(&t, &s), Some(4));
    g.record(&t, &s, 2);
    assert_eq!(g.distance(&t, &s), Some(2));
    g.record(&t, &s, 3);
    assert_eq!(g.distance(&t, &s), Some(2));
    assert_eq!(g.len(), 1);
    let mut h = LinkGraph::new();
    h.record(&t, &s, 3);
    h.record(&t, &s, 2);
    h.record(&t, &s, 4);
    assert_eq!(h.distance(&t, &s), Some(2));
}

#[test]
fn reducer_reports_start_minimum_and_undefined() {
    let mut g = LinkGraph::new();
    let a = "/w/A.md".to_string();
    let b = "/w/B.md".to_string();
    let c = "/w/C.md".to_string();
    let d = "/w/D.md".to_string();
    g.record(&b, &a, 0);
    g.record(&c, &b, 3);
    g.record(&d, &b, 1);
    let mut r = build_shortest_paths_data(&a, &g);
    r.sort();
    assert_eq!(
        r,
        vec![(a.clone(), Some(0)), (b.clone(), Some(1)), (c.clone(), None), (d.clone(), None)]
    );
}

#[test]
fn reducer_on_empty_graph_lists_the_start() {
    let g = LinkGraph::new();
    let r = build_shortest_paths_data(&"/w/A.md".to_string(), &g);
    assert_eq!(r, vec![("/w/A.md".to_string(), Some(0))]);
}
