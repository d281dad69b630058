use cargo_graphmod::dependencies_graph::DependenciesGraph;
use cargo_graphmod::dependencies_processor::rust_processor::target_computer::RustDependencyProcessor;
use cargo_graphmod::formatter::dot_formatter::DotFormatter;
use cargo_graphmod::formatter::Formatter;
use cargo_graphmod::nonempty_vec::NonEmptyVec;
use cargo_graphmod::parser::rust_parser::RustParser;
use cargo_graphmod::parser::Parser;
use cargo_graphmod::trie::Trie;

fn build_registry(units: &[(&[&str], &str)]) -> DependenciesGraph {
    let mut trie: DependenciesGraph = Trie::new();
    for (path, text) in units {
        let components: Vec<String> = path.iter().map(|s| s.to_string()).collect();
        let deps = RustParser::parse_dependencies(text);
        trie.insert(components, deps);
    }
    trie
}

#[test]
fn law_end_to_end_three_units() {
    let units: [(&[&str], &str); 3] = [
        (&["lib"], "use my_pkg::sub::child;\n"),
        (&["sub", "child"], "use super::sibling;\n"),
        (&["sub", "sibling"], "use crate::gone;\n"),
    ];
    let trie = build_registry(&units);
    let result = <DotFormatter as Formatter<RustDependencyProcessor>>::show(&trie, "my_pkg");
    // one cluster per directory level: the root and `sub`
    assert_eq!(result.matches("subgraph cluster_").count(), 2);
    // one coloured leaf vertex per unit
    assert_eq!(result.matches("fillcolor").count(), 3);
    // exactly three deduplicated edges, one to the library-root sentinel
    assert_eq!(result.matches(" -> ").count(), 3);
    assert!(result.contains("\"::lib\" -> \"::sub::child\""));
    assert!(result.contains("\"::sub::child\" -> \"::sub::sibling\""));
    assert!(result.contains("\"::sub::sibling\" -> \"::lib\""));
}

#[test]
fn law_pipeline_is_idempotent() {
    let units: [(&[&str], &str); 3] = [
        (&["lib"], "use my_pkg::sub::child;\nuse rand::rng;\n"),
        (&["sub", "child"], "use super::sibling;\nuse crate::{a, b::c};\n"),
        (&["sub", "sibling"], "use self::inner;\n"),
    ];
    let first = <DotFormatter as Formatter<RustDependencyProcessor>>::show(
        &build_registry(&units),
        "my_pkg",
    );
    let second = <DotFormatter as Formatter<RustDependencyProcessor>>::show(
        &build_registry(&units),
        "my_pkg",
    );
    assert_eq!(first, second);
    assert!(first.len() > 0);
}

#[test]
fn edges_are_deduplicated_in_sorted_order() {
    let units: [(&[&str], &str); 2] = [
        (&["lib"], "use my_pkg::z;\nuse my_pkg::a;\nuse my_pkg::z;\n"),
        (&["a"], ""),
    ];
    let trie = build_registry(&units);
    let result = <DotFormatter as Formatter<RustDependencyProcessor>>::show(&trie, "my_pkg");
    // `z` is declared twice but matches nothing, so both its uses
    // collapse into one edge to the sentinel, sorted after `a`
    assert_eq!(result.matches(" -> ").count(), 2);
    let a_edge = result.find("\"::lib\" -> \"::a\"").unwrap();
    let z_edge = result.find("\"::lib\" -> \"::lib\"").unwrap();
    assert!(a_edge < z_edge);
}

#[test]
fn nonempty_vec_accepts_only_nonempty_input() {
    assert!(NonEmptyVec::<u32>::try_new(vec![]).is_none());
    let nev = NonEmptyVec::try_new(vec![4, 5, 6]).unwrap();
    assert_eq!(*nev.first(), 4);
    assert_eq!(*nev.last(), 6);
}
