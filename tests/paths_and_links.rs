use tree_builder::links::{
    backward_link_sources, forward_links, is_sibling_candidate, links_to_document, parse_links,
    split_doc_path, SiblingDoc,
};
use tree_builder::path::{convert_to_absolute_path, join_path};
use tree_builder::search::parse_file_paths;

#[test]
fn absolute_path_is_kept() {
    assert_eq!(convert_to_absolute_path("/wiki/a.md", "/base"), "/wiki/a.md");
}

#[test]
fn relative_path_is_joined_onto_base() {
    assert_eq!(convert_to_absolute_path("b.md", "/base"), "/base/b.md");
    assert_eq!(convert_to_absolute_path("./b.md", "/base"), "/base/b.md");
    assert_eq!(convert_to_absolute_path("./b.md", "/base/"), "/base/b.md");
    assert_eq!(convert_to_absolute_path("sub/c.md", "/base"), "/base/sub/c.md");
}

#[test]
fn only_one_leading_current_dir_marker_is_stripped() {
    assert_eq!(convert_to_absolute_path("././b.md", "/base"), "/base/./b.md");
    assert_eq!(convert_to_absolute_path(".//b.md", "/base"), "/b.md");
}

#[test]
fn empty_base_gives_the_stripped_token() {
    assert_eq!(convert_to_absolute_path("./b.md", ""), "b.md");
    assert_eq!(join_path("", "x.md"), "x.md");
}

#[test]
fn normalizing_twice_is_normalizing_once() {
    for p in ["/abs/a.md", "rel.md", "./rel.md", "sub/x.md"] {
        let once = convert_to_absolute_path(p, "/base");
        let twice = convert_to_absolute_path(&once, "/base");
        assert_eq!(once, twice);
    }
}

#[test]
fn parse_links_finds_markdown_links_in_order() {
    let text = "intro [x](B.md) and [y](./sub/C.md)\nnot a link (D.md)\n[z](/abs/E.md)";
    assert_eq!(
        parse_links(text, "/wiki"),
        vec!["/wiki/B.md", "/wiki/sub/C.md", "/abs/E.md"]
    );
}

#[test]
fn parse_links_ignores_other_targets_and_line_breaks() {
    assert!(parse_links("[x](image.png) [y](page.html)", "/w").is_empty());
    assert!(parse_links("[x]\n(B.md)", "/w").is_empty());
    assert!(parse_links("[x](B\n.md)", "/w").is_empty());
    assert!(parse_links("", "/w").is_empty());
}

#[test]
fn parse_links_takes_shortest_label_then_shortest_target() {
    // the first `](` after the bracket opens the target, which runs to the first `.md)`
    assert_eq!(parse_links("[a](b) [c](d.md)", "/w"), vec!["/w/b) [c](d.md"]);
    assert_eq!(parse_links("[a](x.md) y.md)", "/w"), vec!["/w/x.md"]);
    assert_eq!(parse_links("[a](.md)", "/w"), vec!["/w/.md"]);
}

#[test]
fn forward_links_resolve_against_the_document_directory() {
    let text = "[n](next.md) [p](./prev.md)";
    assert_eq!(
        forward_links("/wiki/notes/a.md", text, "/wiki"),
        vec!["/wiki/notes/next.md", "/wiki/notes/prev.md"]
    );
    assert_eq!(forward_links("a.md", text, "/wiki"), vec!["/wiki/next.md", "/wiki/prev.md"]);
}

#[test]
fn link_to_document_accepts_dotted_and_bare_forms() {
    assert!(links_to_document("see [here](./A.md)", "A.md"));
    assert!(links_to_document("see [here](A.md)", "A.md"));
    assert!(links_to_document("first line\n[x] [y](A.md) tail", "A.md"));
    assert!(!links_to_document("see [here](XA.md)", "A.md"));
    assert!(!links_to_document("see [here](./A.mdx)", "A.md"));
    assert!(!links_to_document("see here](./A.md)", "A.md"));
    assert!(!links_to_document("[here]\n(./A.md)", "A.md"));
    assert!(!links_to_document("[here\n](./A.md)", "A.md"));
    assert!(!links_to_document("A.md mentioned plainly", "A.md"));
}

#[test]
fn split_doc_path_cases() {
    assert_eq!(
        split_doc_path("/a/b/c.md"),
        Some(("/a/b".to_string(), "c.md".to_string()))
    );
    assert_eq!(split_doc_path("/c.md"), Some(("/".to_string(), "c.md".to_string())));
    assert_eq!(split_doc_path("c.md"), None);
    assert_eq!(split_doc_path("/a/b/"), None);
}

#[test]
fn sibling_candidates_are_other_markdown_documents() {
    assert!(is_sibling_candidate("/w/a.md", "/w", "b.md"));
    assert!(!is_sibling_candidate("/w/a.md", "/w", "a.md"));
    assert!(!is_sibling_candidate("/w/a.md", "/w", "b.txt"));
    assert!(!is_sibling_candidate("/w/a.md", "/w", ".md"));
    assert!(is_sibling_candidate("/a.md", "/", "b.md"));
    assert!(!is_sibling_candidate("/a.md", "/", "a.md"));
}

fn sib(name: &str, content: &str) -> SiblingDoc {
    SiblingDoc { name: name.to_string(), content: content.to_string() }
}

#[test]
fn backward_links_list_each_linking_sibling_once() {
    let sibs = vec![
        sib("b.md", "[to a](./a.md)\nagain [a](a.md)"),
        sib("c.md", "nothing about a.md here"),
        sib("a.md", "[self](./a.md)"),
        sib("d.txt", "[to a](./a.md)"),
        sib("e.md", "[to a](a.md)"),
    ];
    assert_eq!(
        backward_link_sources("/w/a.md", &sibs, "/w"),
        vec!["/w/b.md", "/w/e.md"]
    );
}

#[test]
fn backward_links_need_a_directory() {
    let sibs = vec![sib("b.md", "[to a](./a.md)")];
    assert!(backward_link_sources("a.md", &sibs, "/w").is_empty());
}

#[test]
fn the_document_is_never_its_own_backward_link() {
    let sibs = vec![sib("a.md", "[self](./a.md) [self](a.md)")];
    assert!(backward_link_sources("/w/a.md", &sibs, "/w").is_empty());
}

#[test]
fn parse_file_paths_takes_the_text_before_the_first_colon() {
    let output = "notes/a.md:3:[x](./b.md)\nno colon here\n/abs/c.md:10:text:more\r\n";
    assert_eq!(parse_file_paths(output, "/w"), vec!["/w/notes/a.md", "/abs/c.md"]);
}

#[test]
fn parse_file_paths_handles_empty_and_unicode_lines() {
    assert!(parse_file_paths("", "/w").is_empty());
    assert!(parse_file_paths("\n\n", "/w").is_empty());
    assert_eq!(parse_file_paths("é/ü.md:1:x", "/w"), vec!["/w/é/ü.md"]);
    assert_eq!(parse_file_paths(":starts with colon", "/w"), vec!["/w/"]);
}
