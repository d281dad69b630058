use cargo_graphmod::graph::{format_graph, handle_dependency_line, DependenciesGraph};
use cargo_graphmod::modules_trie::convert;

#[test]
fn it_reads_a_use_line() {
    let result = handle_dependency_line("use crate::foo::bar;", "my");
    assert_eq!(result, Some(vec![String::from("foo"), String::from("bar")]));
    let by_name = handle_dependency_line("use my::baz;", "my");
    assert_eq!(by_name, Some(vec![String::from("baz")]));
    assert_eq!(handle_dependency_line("use serde::de;", "my"), None);
    assert_eq!(handle_dependency_line("let x = 3;", "my"), None);
    assert_eq!(handle_dependency_line("", "my"), None);
}

#[test]
fn it_formats_the_flat_graph() {
    let mut g = DependenciesGraph::new();
    g.register_unit(vec![String::from("a")], "use crate::b;\nfn f() {}\n", "my");
    g.register_unit(vec![String::from("b")], "", "my");
    let result = format_graph(g);
    let expected = String::from("digraph G {\n\nu0[label=\"a\"]\nu1[label=\"b\"]\nu0 -> u1\n}\n");
    assert_eq!(result, expected);
}

#[test]
fn re_registration_overwrites_silently() {
    let mut g = DependenciesGraph::new();
    g.register_unit(vec![String::from("a")], "use crate::b;\n", "my");
    g.register_unit(vec![String::from("b")], "", "my");
    g.register_unit(vec![String::from("a")], "", "my");
    let result = format_graph(g);
    let expected = String::from("digraph G {\n\nu0[label=\"a\"]\nu1[label=\"b\"]\n\n}\n");
    assert_eq!(result, expected);
}

#[test]
fn it_converts_the_flat_graph_to_a_display_tree() {
    let mut g = DependenciesGraph::new();
    g.register_unit(vec![String::from("a"), String::from("b")], "", "my");
    g.register_unit(vec![String::from("a"), String::from("c")], "", "my");
    let trie = convert(&g);
    let rendered = trie.render();
    let expected = String::from(
        "subgraph cluster_0 {\nlabel=\"\"\n\"\"[label=\"::mod\"]\nsubgraph cluster_1 {\nlabel=\"a\"\n\"::a\"[label=\"a::mod\"]\n\"::a::b\"[label=\"b\"]\n\"::a::c\"[label=\"c\"]\n}\n}\n",
    );
    assert_eq!(rendered, expected);
}
