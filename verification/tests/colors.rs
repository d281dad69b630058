use cargo_graphmod::colors::{make_gray, make_random_color};

#[test]
fn it_makes_gray() {
    assert_eq!(String::from("#dddddd"), make_gray(2))
}

#[test]
fn it_makes_a_random_color() {
    assert_eq!(String::from("#b6b2ec"), make_random_color("::foo::bar"))
}

#[test]
fn gray_darkens_and_caps() {
    assert_eq!(String::from("#ffffff"), make_gray(0));
    assert_eq!(String::from("#111111"), make_gray(14));
    assert_eq!(String::from("#000000"), make_gray(15));
    assert_eq!(String::from("#000000"), make_gray(40));
}

#[test]
fn color_ignores_non_digits() {
    assert_eq!(make_random_color("foobar"), make_random_color("::foo::bar"));
}
