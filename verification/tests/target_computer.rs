use cargo_graphmod::dependencies::{DependencyPath, FilePath};
use cargo_graphmod::dependencies_graph::DependenciesGraph;
use cargo_graphmod::dependencies_processor::rust_processor::target_computer::RustDependencyProcessor;
use cargo_graphmod::dependencies_processor::DependencyProcessor;
use cargo_graphmod::trie::Trie;

fn leaf() -> DependenciesGraph {
    Trie {
        value: None,
        children: vec![],
    }
}

fn make_trie() -> DependenciesGraph {
    Trie {
        value: None,
        children: vec![
            (String::from("abc"), leaf()),
            (String::from("def"), leaf()),
            (
                String::from("foo"),
                Trie {
                    value: None,
                    children: vec![
                        (String::from("bar"), leaf()),
                        (String::from("mod"), leaf()),
                    ],
                },
            ),
            (String::from("lib"), leaf()),
        ],
    }
}

#[test]
fn it_targets_lib() {
    let trie = make_trie();
    let file_path = FilePath(vec![String::from("foo"), String::from("bar")]);
    let dependency = DependencyPath(vec![String::from("crate"), String::from("Widget")]);
    let pkg_name = "my_crate";
    assert_eq!(
        RustDependencyProcessor::compute_target(&trie, &file_path, &dependency, pkg_name),
        FilePath(vec![String::from("lib")])
    );
}

#[test]
fn it_targets_mod() {
    let trie = make_trie();
    let file_path = FilePath(vec![String::from("abc")]);
    let dependency = DependencyPath(vec![
        String::from("crate"),
        String::from("foo"),
        String::from("Widget"),
    ]);
    let pkg_name = "my_crate";
    assert_eq!(
        RustDependencyProcessor::compute_target(&trie, &file_path, &dependency, pkg_name),
        FilePath(vec![String::from("foo"), String::from("mod")])
    );
}

#[test]
fn it_targets_some_child_directly() {
    let trie = make_trie();
    let file_path = FilePath(vec![String::from("foo"), String::from("mod")]);
    let dependency = DependencyPath(vec![String::from("bar"), String::from("baz")]);
    let pkg_name = "my_crate";
    assert_eq!(
        RustDependencyProcessor::compute_target(&trie, &file_path, &dependency, pkg_name),
        FilePath(vec![String::from("foo"), String::from("bar")])
    );
}

#[test]
fn it_targets_some_child_via_self() {
    let trie = make_trie();
    let file_path = FilePath(vec![String::from("foo"), String::from("mod")]);
    let dependency = DependencyPath(vec![
        String::from("self"),
        String::from("bar"),
        String::from("baz"),
    ]);
    let pkg_name = "my_crate";
    assert_eq!(
        RustDependencyProcessor::compute_target(&trie, &file_path, &dependency, pkg_name),
        FilePath(vec![String::from("foo"), String::from("bar")])
    );
}

#[test]
fn it_targets_some_sibling_via_pkg_name() {
    let trie = make_trie();
    let file_path = FilePath(vec![String::from("foo"), String::from("bar")]);
    let dependency = DependencyPath(vec![
        String::from("my_crate"),
        String::from("abc"),
        String::from("def"),
    ]);
    let pkg_name = "my_crate";
    assert_eq!(
        RustDependencyProcessor::compute_target(&trie, &file_path, &dependency, pkg_name),
        FilePath(vec![String::from("abc")])
    );
}

#[test]
fn it_targets_some_sibling_via_crate() {
    let trie = make_trie();
    let file_path = FilePath(vec![String::from("foo"), String::from("bar")]);
    let dependency = DependencyPath(vec![
        String::from("crate"),
        String::from("abc"),
        String::from("def"),
    ]);
    let pkg_name = "my_crate";
    assert_eq!(
        RustDependencyProcessor::compute_target(&trie, &file_path, &dependency, pkg_name),
        FilePath(vec![String::from("abc")])
    );
}

#[test]
fn it_targets_some_sibling_via_super() {
    let trie = make_trie();
    let file_path = FilePath(vec![String::from("foo"), String::from("bar")]);
    let dependency = DependencyPath(vec![
        String::from("super"),
        String::from("super"),
        String::from("abc"),
        String::from("def"),
    ]);
    let pkg_name = "my_crate";
    assert_eq!(
        RustDependencyProcessor::compute_target(&trie, &file_path, &dependency, pkg_name),
        FilePath(vec![String::from("abc")])
    );
}

#[test]
fn it_targets_an_external_dependency() {
    let trie = make_trie();
    let file_path = FilePath(vec![String::from("abc")]);
    let dependency = DependencyPath(vec![String::from("std")]);
    let pkg_name = "my_crate";
    assert_eq!(
        RustDependencyProcessor::compute_target(&trie, &file_path, &dependency, pkg_name),
        FilePath(vec![String::from("std")])
    );
}
