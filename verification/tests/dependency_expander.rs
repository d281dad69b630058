use cargo_graphmod::dependencies::DependencyPath;
use cargo_graphmod::dependencies_processor::rust_processor::dependency_expander::expand_dependency;
use cargo_graphmod::dependencies_processor::rust_processor::{Dependency, DependencyKind};

#[test]
fn dependency_expander_it_belongs_to_my_crate() {
    let dependency = vec![
        String::from("my_crate"),
        String::from("foo"),
        String::from("bar"),
    ];
    let result = expand_dependency(&dependency, "my_crate", vec![]);
    assert_eq!(
        result,
        Dependency {
            path: DependencyPath(vec![String::from("foo"), String::from("bar")]),
            kind: DependencyKind::Relative,
        }
    );
}

#[test]
fn dependency_expander_it_belongs_to_crate() {
    let dependency = vec![
        String::from("crate"),
        String::from("foo"),
        String::from("bar"),
    ];
    let result = expand_dependency(&dependency, "my_crate", vec![]);
    assert_eq!(
        result,
        Dependency {
            path: DependencyPath(vec![String::from("foo"), String::from("bar")]),
            kind: DependencyKind::Relative,
        }
    );
}

#[test]
fn dependency_expander_it_belongs_to_a_supermodule() {
    let dependency = vec![
        String::from("super"),
        String::from("super"),
        String::from("foo"),
        String::from("bar"),
    ];
    let result = expand_dependency(
        &dependency,
        "my_crate",
        vec![
            String::from("aaa"),
            String::from("bbb"),
            String::from("ccc"),
            String::from("mod"),
        ],
    );
    assert_eq!(
        result,
        Dependency {
            path: DependencyPath(vec![
                String::from("aaa"),
                String::from("foo"),
                String::from("bar")
            ]),
            kind: DependencyKind::Relative,
        }
    );
}

#[test]
fn dependency_expander_it_belongs_to_a_submodule_via_self() {
    let dependency = vec![
        String::from("self"),
        String::from("foo"),
        String::from("bar"),
    ];
    let result = expand_dependency(
        &dependency,
        "my_crate",
        vec![String::from("path"), String::from("mod")],
    );
    assert_eq!(
        result,
        Dependency {
            path: DependencyPath(vec![
                String::from("path"),
                String::from("foo"),
                String::from("bar")
            ]),
            kind: DependencyKind::Relative,
        }
    );
}

#[test]
fn dependency_expander_it_may_belong_to_some_external_crate() {
    let dependency = vec![String::from("foo"), String::from("bar")];
    let result = expand_dependency(
        &dependency,
        "my_crate",
        vec![String::from("path"), String::from("mod")],
    );
    assert_eq!(
        result,
        Dependency {
            path: DependencyPath(vec![
                String::from("path"),
                String::from("foo"),
                String::from("bar")
            ]),
            kind: DependencyKind::Ambiguous(1),
        }
    );
}

#[test]
fn law_classifier_root_identical_token() {
    let result = expand_dependency(
        &[String::from("pkg"), String::from("x"), String::from("y")],
        "pkg",
        vec![],
    );
    assert_eq!(
        result,
        Dependency {
            path: DependencyPath(vec![String::from("x"), String::from("y")]),
            kind: DependencyKind::Relative,
        }
    );
}

#[test]
fn law_classifier_two_parent_tokens_pop_marker_then_components() {
    let result = expand_dependency(
        &[String::from("super"), String::from("super"), String::from("t")],
        "pkg",
        vec![
            String::from("a"),
            String::from("b"),
            String::from("c"),
            String::from("mod"),
        ],
    );
    assert_eq!(
        result,
        Dependency {
            path: DependencyPath(vec![String::from("a"), String::from("t")]),
            kind: DependencyKind::Relative,
        }
    );
}

#[test]
fn law_classifier_unrecognized_root_is_ambiguous_with_boundary() {
    let result = expand_dependency(
        &[String::from("ext"), String::from("x")],
        "pkg",
        vec![String::from("p"), String::from("mod")],
    );
    assert_eq!(
        result,
        Dependency {
            path: DependencyPath(vec![
                String::from("p"),
                String::from("ext"),
                String::from("x")
            ]),
            kind: DependencyKind::Ambiguous(1),
        }
    );
}
