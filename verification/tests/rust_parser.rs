use cargo_graphmod::dependencies::DependencyPath;
use cargo_graphmod::parser::rust_parser::{
    develop_all_dependencies, develop_innermost_dependencies, keep_before_cfg_test, parse_use,
    trim_spaces_and_as, RustParser,
};
use cargo_graphmod::parser::Parser;

#[test]
fn rust_parser_it_develops_innermost() {
    let text = "foo::{bar1, bar2, bar3::{far, boo}}";
    let result = develop_innermost_dependencies(text);
    assert_eq!(
        result,
        vec![
            String::from("foo::{bar1, bar2, bar3:: boo}"),
            String::from("foo::{bar1, bar2, bar3::far}"),
        ]
    );
}

#[test]
fn rust_parser_it_develops_innermost_2() {
    let text = "crate::{foo::{bar}, baz, abc::def}";
    let result = develop_innermost_dependencies(text);
    assert_eq!(result, vec![String::from("crate::{foo::bar, baz, abc::def}")]);
}

#[test]
fn rust_parser_it_handles_newlines() {
    let text = "foo::{bar1, bar2, bar3::\n{far, boo}}";
    let result = develop_innermost_dependencies(text);
    assert_eq!(
        result,
        vec![
            String::from("foo::{bar1, bar2, bar3::\n boo}"),
            String::from("foo::{bar1, bar2, bar3::\nfar}"),
        ]
    );
}

#[test]
fn rust_parser_it_skips_blanks() {
    let text = "foo::{bar1, bar2, bar3::{far, boo, }}";
    let result = develop_innermost_dependencies(text);
    assert_eq!(
        result,
        vec![
            String::from("foo::{bar1, bar2, bar3:: boo}"),
            String::from("foo::{bar1, bar2, bar3::far}"),
        ]
    );
}

#[test]
fn rust_parser_it_does_nothing() {
    let text = "foo::bar";
    let result = develop_innermost_dependencies(text);
    assert_eq!(result, vec![String::from("foo::bar")]);
}

#[test]
fn rust_parser_it_trims_spaces_and_as() {
    let text = "foo::bar\n::boo as boo";
    let result = "foo::bar::boo";
    assert_eq!(result, trim_spaces_and_as(text));
}

#[test]
fn rust_parser_it_develops_fully_1() {
    let text = "foo::{bar1, bar2, bar3::{far, boo}}";
    let result = develop_all_dependencies(text);
    assert_eq!(
        result,
        vec![
            String::from("foo:: bar2"),
            String::from("foo:: bar3:: boo"),
            String::from("foo:: bar3::far"),
            String::from("foo::bar1"),
        ]
    );
}

#[test]
fn rust_parser_it_develops_fully_2() {
    let text = "crate::{foo::{bar}, baz, abc::def}";
    let result = develop_all_dependencies(text);
    assert_eq!(
        result,
        vec![
            String::from("crate:: abc::def"),
            String::from("crate:: baz"),
            String::from("crate::foo::bar"),
        ]
    );
}

#[test]
fn rust_parser_it_parses_multiple_use() {
    let text = "use foo::bar;\npub use bar::foo;\n\tuse foobar;";
    let result = parse_use(text);
    assert_eq!(
        result,
        vec![
            String::from("foo::bar"),
            String::from("bar::foo"),
            String::from("foobar"),
        ]
    );
}

#[test]
fn rust_parser_it_keeps_before_cfg_test() {
    let text = r#"
foo
#[cfg(test)]
bar
#[cfg(test)]
baz
        "#;
    let result = keep_before_cfg_test(text);
    assert_eq!(result, Some(String::from("\nfoo\n")));
}

#[test]
fn rust_parser_it_parses_dependencies_outside_tests() {
    let text = r#"
use crate::dependencies_parser::bar as bar;
    use cargo_graphmod::dependencies_parser::{bar1,
                      bar2,
                      bar3::{abc, xyz}};
pub use crate::dependencies_parser::foobar;
use self::foobaz;
use external::aaa;

fn main() {
    crate::other::dep::fun(); // not handled
}

#[cfg(test)]
mod tests {
    use inside_tests::other; // discarded
}
        "#;
    let mut result = RustParser::parse_dependencies(text);
    result.sort();
    assert_eq!(
        result,
        vec![
            DependencyPath(vec![
                String::from("cargo_graphmod"),
                String::from("dependencies_parser"),
                String::from("bar1")
            ]),
            DependencyPath(vec![
                String::from("cargo_graphmod"),
                String::from("dependencies_parser"),
                String::from("bar2")
            ]),
            DependencyPath(vec![
                String::from("cargo_graphmod"),
                String::from("dependencies_parser"),
                String::from("bar3"),
                String::from("abc")
            ]),
            DependencyPath(vec![
                String::from("cargo_graphmod"),
                String::from("dependencies_parser"),
                String::from("bar3"),
                String::from("xyz")
            ]),
            DependencyPath(vec![
                String::from("crate"),
                String::from("dependencies_parser"),
                String::from("bar")
            ]),
            DependencyPath(vec![
                String::from("crate"),
                String::from("dependencies_parser"),
                String::from("foobar")
            ]),
            DependencyPath(vec![String::from("external"), String::from("aaa")]),
            DependencyPath(vec![String::from("self"), String::from("foobaz")]),
        ]
    );
}
