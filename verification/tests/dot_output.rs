use cargo_graphmod::dependencies::DependencyPath;
use cargo_graphmod::dependencies_graph::DependenciesGraph;
use cargo_graphmod::dependencies_processor::rust_processor::target_computer::RustDependencyProcessor;
use cargo_graphmod::dependency_components::DependencyComponents;
use cargo_graphmod::components::ModuleComponents;
use cargo_graphmod::formatter::dot_formatter::DotFormatter;
use cargo_graphmod::formatter::Formatter;
use cargo_graphmod::trie::Trie;
use cargo_graphmod::{dot_formatter, output_for_dot};

fn formatter_trie() -> DependenciesGraph {
    Trie {
        value: None,
        children: vec![
            (
                String::from("abc"),
                Trie {
                    value: Some(vec![
                        DependencyPath(vec![
                            String::from("crate"),
                            String::from("foo"),
                            String::from("Panel"),
                        ]),
                        DependencyPath(vec![String::from("crate"), String::from("Widget")]),
                    ]),
                    children: vec![],
                },
            ),
            (
                String::from("def"),
                Trie {
                    value: Some(vec![DependencyPath(vec![
                        String::from("crate"),
                        String::from("foo"),
                        String::from("bar"),
                        String::from("Widget"),
                    ])]),
                    children: vec![],
                },
            ),
            (
                String::from("foo"),
                Trie {
                    value: None,
                    children: vec![
                        (
                            String::from("bar"),
                            Trie {
                                value: Some(vec![
                                    DependencyPath(vec![
                                        String::from("crate"),
                                        String::from("abc"),
                                    ]),
                                    DependencyPath(vec![String::from("std")]),
                                ]),
                                children: vec![],
                            },
                        ),
                        (
                            String::from("mod"),
                            Trie {
                                value: Some(vec![DependencyPath(vec![
                                    String::from("bar"),
                                    String::from("baz"),
                                ])]),
                                children: vec![],
                            },
                        ),
                    ],
                },
            ),
            (
                String::from("lib"),
                Trie {
                    value: None,
                    children: vec![],
                },
            ),
        ],
    }
}

#[test]
fn formatter_dot_formatter_it_outputs_to_dot() {
    let trie = formatter_trie();
    let result = <DotFormatter as Formatter<RustDependencyProcessor>>::show(&trie, "my_crate");
    let expected = String::from(
        r##"digraph dependencies {
subgraph cluster_ {
label=""
color="#ffffff"
style="filled"
  "::abc"[label="abc",style="filled",fillcolor="#ffffff"]
  "::def"[label="def",style="filled",fillcolor="#ffffff"]
  subgraph cluster____foo {
  label="foo"
  color="#eeeeee"
  style="filled"
    "::foo::bar"[label="bar",style="filled",fillcolor="#86c2dc"]
    "::foo::mod"[label="mod",style="filled",fillcolor="#86c2dc"]
  }
  "::lib"[label="lib",style="filled",fillcolor="#ffffff"]
}
"::abc" -> "::foo::mod"
"::abc" -> "::lib"
"::def" -> "::foo::bar"
"::foo::bar" -> "::abc"
"::foo::bar" -> "::std"
"::foo::mod" -> "::foo::bar"
}
"##,
    );
    assert_eq!(result, expected);
}

#[test]
fn law_rendering_is_deterministic() {
    let trie = formatter_trie();
    let first = <DotFormatter as Formatter<RustDependencyProcessor>>::show(&trie, "my_crate");
    let second = <DotFormatter as Formatter<RustDependencyProcessor>>::show(&trie, "my_crate");
    assert_eq!(first, second);
}

#[test]
fn dot_formatter_it_outputs_to_dot() {
    let trie: dot_formatter::DependenciesGraph = Trie {
        value: None,
        children: vec![
            (
                String::from("abc"),
                Trie {
                    value: Some(vec![
                        DependencyComponents::new(
                            vec![String::from("foo"), String::from("Panel")],
                            None,
                        ),
                        DependencyComponents::new(vec![String::from("Widget")], None),
                    ]),
                    children: vec![],
                },
            ),
            (
                String::from("def"),
                Trie {
                    value: Some(vec![
                        DependencyComponents::new(
                            vec![
                                String::from("foo"),
                                String::from("bar"),
                                String::from("Widget"),
                            ],
                            None,
                        ),
                        DependencyComponents::new(
                            vec![String::from("Panel")],
                            Some(vec![String::from("def")]),
                        ),
                    ]),
                    children: vec![],
                },
            ),
            (
                String::from("foo"),
                Trie {
                    value: None,
                    children: vec![
                        (
                            String::from("bar"),
                            Trie {
                                value: Some(vec![
                                    DependencyComponents::new(vec![String::from("abc")], None),
                                    DependencyComponents::new(vec![String::from("def")], None),
                                ]),
                                children: vec![],
                            },
                        ),
                        (
                            String::from("mod"),
                            Trie {
                                value: Some(vec![]),
                                children: vec![],
                            },
                        ),
                    ],
                },
            ),
            (
                String::from("lib"),
                Trie {
                    value: None,
                    children: vec![],
                },
            ),
        ],
    };
    let result = dot_formatter::show(&trie);
    let expected = String::from(
        r##"digraph dependencies {
subgraph cluster_ {
label=""
color="#ffffff"
style="filled"
  "::abc"[label="abc",style="filled",fillcolor="#ffffff"]
  "::def"[label="def",style="filled",fillcolor="#ffffff"]
  subgraph cluster____foo {
  label="foo"
  color="#eeeeee"
  style="filled"
    "::foo::bar"[label="bar",style="filled",fillcolor="#86c2dc"]
    "::foo::mod"[label="mod",style="filled",fillcolor="#86c2dc"]
  }
  "::lib"[label="lib",style="filled",fillcolor="#ffffff"]
}
"::abc" -> "::foo::mod"
"::abc" -> "::lib"
"::def" -> "::foo::bar"
"::def" -> "Panel"
"::foo::bar" -> "::abc"
"::foo::bar" -> "::def"
}
"##,
    );
    assert_eq!(result, expected);
}

#[test]
fn output_for_dot_it_outputs_to_dot() {
    let trie: output_for_dot::DependenciesGraph = Trie {
        value: None,
        children: vec![
            (
                String::from("abc"),
                Trie {
                    value: Some(vec![ModuleComponents(vec![
                        String::from("foo"),
                        String::from("Panel"),
                    ])]),
                    children: vec![],
                },
            ),
            (
                String::from("def"),
                Trie {
                    value: Some(vec![ModuleComponents(vec![
                        String::from("foo"),
                        String::from("bar"),
                        String::from("Widget"),
                    ])]),
                    children: vec![],
                },
            ),
            (
                String::from("foo"),
                Trie {
                    value: None,
                    children: vec![
                        (
                            String::from("bar"),
                            Trie {
                                value: Some(vec![
                                    ModuleComponents(vec![String::from("abc")]),
                                    ModuleComponents(vec![String::from("def")]),
                                ]),
                                children: vec![],
                            },
                        ),
                        (
                            String::from("mod"),
                            Trie {
                                value: Some(vec![]),
                                children: vec![],
                            },
                        ),
                    ],
                },
            ),
        ],
    };
    let result = output_for_dot::show(&trie);
    let expected = String::from(
        r#"digraph dependencies {
subgraph cluster_ {
label=""
"::abc"[label="abc"]
"::def"[label="def"]
subgraph cluster____foo {
label="foo"
"::foo"[label="foo::mod"]
"::foo::bar"[label="bar"]
"::foo::mod"[label="mod"]
}
}
"::abc" -> "::foo"
"::def" -> "::foo::bar"
"::foo::bar" -> "::abc"
"::foo::bar" -> "::def"
}
"#,
    );
    assert_eq!(result, expected);
}
