use cargo_graphmod::dependencies_parser::{
    develop_all_dependencies, develop_innermost_dependencies, expand_dependency_components,
    keep_before_cfg_test, parse_dependencies, parse_use, trim_spaces_and_as,
};
use cargo_graphmod::dependency_components::DependencyComponents;

#[test]
fn dependencies_parser_it_develops_innermost() {
    let text = "foo::{bar1, bar2, bar3::{far, boo}}";
    let result = develop_innermost_dependencies(text);
    assert_eq!(
        result,
        vec![
            String::from("foo::{bar1, bar2, bar3:: boo}"),
            String::from("foo::{bar1, bar2, bar3::far}"),
        ]
    );
}

#[test]
fn dependencies_parser_it_develops_innermost_2() {
    let text = "crate::{foo::{bar}, baz, abc::def}";
    let result = develop_innermost_dependencies(text);
    assert_eq!(result, vec![String::from("crate::{foo::bar, baz, abc::def}")]);
}

#[test]
fn dependencies_parser_it_handles_newlines() {
    let text = "foo::{bar1, bar2, bar3::\n{far, boo}}";
    let result = develop_innermost_dependencies(text);
    assert_eq!(
        result,
        vec![
            String::from("foo::{bar1, bar2, bar3::\n boo}"),
            String::from("foo::{bar1, bar2, bar3::\nfar}"),
        ]
    );
}

#[test]
fn dependencies_parser_it_skips_blanks() {
    let text = "foo::{bar1, bar2, bar3::{far, boo, }}";
    let result = develop_innermost_dependencies(text);
    assert_eq!(
        result,
        vec![
            String::from("foo::{bar1, bar2, bar3:: boo}"),
            String::from("foo::{bar1, bar2, bar3::far}"),
        ]
    );
}

#[test]
fn dependencies_parser_it_does_nothing() {
    let text = "foo::bar";
    let result = develop_innermost_dependencies(text);
    assert_eq!(result, vec![String::from("foo::bar")]);
}

#[test]
fn dependencies_parser_it_trims_spaces_and_as() {
    let text = "foo::bar\n::boo as boo";
    let result = "foo::bar::boo";
    assert_eq!(result, trim_spaces_and_as(text));
}

#[test]
fn dependencies_parser_it_develops_fully_1() {
    let text = "foo::{bar1, bar2, bar3::{far, boo}}";
    let result = develop_all_dependencies(text);
    assert_eq!(
        result,
        vec![
            String::from("foo:: bar2"),
            String::from("foo:: bar3:: boo"),
            String::from("foo:: bar3::far"),
            String::from("foo::bar1"),
        ]
    );
}

#[test]
fn dependencies_parser_it_develops_fully_2() {
    let text = "crate::{foo::{bar}, baz, abc::def}";
    let result = develop_all_dependencies(text);
    assert_eq!(
        result,
        vec![
            String::from("crate:: abc::def"),
            String::from("crate:: baz"),
            String::from("crate::foo::bar"),
        ]
    );
}

#[test]
fn dependencies_parser_it_parses_multiple_use() {
    let text = "use foo::bar;\npub use bar::foo;\n\tuse foobar;";
    let result = parse_use(text);
    assert_eq!(
        result,
        vec![
            String::from("foo::bar"),
            String::from("bar::foo"),
            String::from("foobar"),
        ]
    );
}

#[test]
fn dependencies_parser_it_belongs_to_my_crate() {
    let dependency = vec![
        String::from("my_crate"),
        String::from("foo"),
        String::from("bar"),
    ];
    let result = expand_dependency_components(&dependency, "my_crate", vec![]);
    assert_eq!(
        result,
        DependencyComponents::new(vec![String::from("foo"), String::from("bar")], None)
    );
}

#[test]
fn dependencies_parser_it_belongs_to_crate() {
    let dependency = vec![
        String::from("crate"),
        String::from("foo"),
        String::from("bar"),
    ];
    let result = expand_dependency_components(&dependency, "my_crate", vec![]);
    assert_eq!(
        result,
        DependencyComponents::new(vec![String::from("foo"), String::from("bar")], None)
    );
}

#[test]
fn dependencies_parser_it_belongs_to_a_supermodule() {
    let dependency = vec![
        String::from("super"),
        String::from("super"),
        String::from("foo"),
        String::from("bar"),
    ];
    let result = expand_dependency_components(
        &dependency,
        "my_crate",
        vec![
            String::from("aaa"),
            String::from("bbb"),
            String::from("ccc"),
            String::from("mod"),
        ],
    );
    assert_eq!(
        result,
        DependencyComponents::new(
            vec![
                String::from("aaa"),
                String::from("foo"),
                String::from("bar"),
            ],
            None
        )
    );
}

#[test]
fn dependencies_parser_it_belongs_to_a_submodule_via_self() {
    let dependency = vec![
        String::from("self"),
        String::from("foo"),
        String::from("bar"),
    ];
    let result = expand_dependency_components(
        &dependency,
        "my_crate",
        vec![String::from("path"), String::from("mod")],
    );
    assert_eq!(
        result,
        DependencyComponents::new(
            vec![
                String::from("path"),
                String::from("foo"),
                String::from("bar"),
            ],
            None
        )
    );
}

#[test]
fn dependencies_parser_it_may_belong_to_some_external_crate() {
    let dependency = vec![String::from("foo"), String::from("bar")];
    let result = expand_dependency_components(
        &dependency,
        "my_crate",
        vec![String::from("path"), String::from("mod")],
    );
    assert_eq!(
        result,
        DependencyComponents::new(
            vec![String::from("foo"), String::from("bar")],
            Some(vec![String::from("path")])
        )
    );
}

#[test]
fn dependencies_parser_it_keeps_before_cfg_test() {
    let text = r#"
foo
#[cfg(test)]
bar
#[cfg(test)]
baz
        "#;
    let result = keep_before_cfg_test(text);
    assert_eq!(result, Some(String::from("\nfoo\n")));
}

#[test]
fn dependencies_parser_it_parses_dependencies_outside_tests() {
    let text = r#"
use crate::dependencies_parser::bar as bar;
    use cargo_graphmod::dependencies_parser::{bar1,
                      bar2,
                      bar3::{abc, xyz}};
pub use crate::dependencies_parser::foobar;
use self::foobaz;
use external::aaa;

fn main() {
    crate::other::dep::fun(); // not handled
}

#[cfg(test)]
mod tests {
    use inside_tests::other;
}
        "#;
    let mut result = parse_dependencies(
        text,
        "cargo_graphmod",
        vec![String::from("path"), String::from("mod")],
    );
    result.sort();
    assert_eq!(
        result,
        vec![
            DependencyComponents::new(
                vec![String::from("dependencies_parser"), String::from("bar")],
                None
            ),
            DependencyComponents::new(
                vec![String::from("dependencies_parser"), String::from("bar1")],
                None
            ),
            DependencyComponents::new(
                vec![String::from("dependencies_parser"), String::from("bar2")],
                None
            ),
            DependencyComponents::new(
                vec![
                    String::from("dependencies_parser"),
                    String::from("bar3"),
                    String::from("abc")
                ],
                None
            ),
            DependencyComponents::new(
                vec![
                    String::from("dependencies_parser"),
                    String::from("bar3"),
                    String::from("xyz")
                ],
                None
            ),
            DependencyComponents::new(
                vec![String::from("dependencies_parser"), String::from("foobar")],
                None
            ),
            DependencyComponents::new(
                vec![String::from("external"), String::from("aaa")],
                Some(vec![String::from("path")])
            ),
            DependencyComponents::new(
                vec![String::from("path"), String::from("foobaz")],
                None
            ),
        ]
    );
}

#[test]
fn law_expansion_is_the_cartesian_product() {
    let result = develop_all_dependencies("a::{b,c::{d,e}}");
    assert_eq!(
        result,
        vec![
            String::from("a::b"),
            String::from("a::c::d"),
            String::from("a::c::e"),
        ]
    );
}

#[test]
fn law_trailing_empty_alternative_is_omitted() {
    let result = develop_innermost_dependencies("x::{b, c,}");
    assert_eq!(result, vec![String::from("x:: c"), String::from("x::b")]);
    let full = develop_all_dependencies("x::{b, c,}");
    assert_eq!(full, vec![String::from("x:: c"), String::from("x::b")]);
}

#[test]
fn law_rename_target_is_discarded() {
    assert_eq!(trim_spaces_and_as("foo::bar as baz"), String::from("foo::bar"));
}

#[test]
fn unbalanced_braces_contribute_no_dependency() {
    let result = develop_all_dependencies("a::{b");
    assert_eq!(result, Vec::<String>::new());
    let vacuous = develop_all_dependencies("a::{}::b");
    assert_eq!(vacuous, Vec::<String>::new());
}
