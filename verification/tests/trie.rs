use cargo_graphmod::trie::Trie;

#[test]
fn it_builds_a_one_branch_trie() {
    let mut trie: Trie<u64, i32> = Trie::new();
    trie.insert(vec![1, 2], 10);
    assert_eq!(
        trie,
        Trie {
            value: None,
            children: vec![(
                1,
                Trie {
                    value: None,
                    children: vec![(
                        2,
                        Trie {
                            value: Some(10),
                            children: vec![],
                        },
                    )],
                },
            )],
        }
    );
}

#[test]
fn it_builds_a_two_branch_trie() {
    let mut trie: Trie<u64, i32> = Trie::new();
    trie.insert(vec![1, 2], 20);
    trie.insert(vec![1, 3], 30);
    assert_eq!(
        trie,
        Trie {
            value: None,
            children: vec![(
                1,
                Trie {
                    value: None,
                    children: vec![
                        (
                            2,
                            Trie {
                                value: Some(20),
                                children: vec![],
                            },
                        ),
                        (
                            3,
                            Trie {
                                value: Some(30),
                                children: vec![],
                            },
                        ),
                    ],
                },
            )],
        }
    );
}

#[test]
fn it_computes_the_longest_prefix() {
    let mut trie: Trie<u64, i32> = Trie::new();
    trie.insert(vec![1, 2], 20);
    trie.insert(vec![1, 3], 30);
    let a1 = [1, 3, 4];
    let a2 = [1, 4];
    let a3 = [4];
    assert_eq!(trie.get_longest_prefix(&a1), (&a1[0..2], Some(&30)));
    assert_eq!(trie.get_longest_prefix(&a2), (&a2[0..1], None));
    assert_eq!(trie.get_longest_prefix(&a3), (&a3[0..0], None));
}

#[test]
fn law_trie_longest_prefix_with_string_keys() {
    let mut trie: Trie<String, i32> = Trie::new();
    trie.insert(vec![String::from("a"), String::from("b")], 10);
    trie.insert(vec![String::from("a"), String::from("c")], 20);
    let q1 = [String::from("a"), String::from("c"), String::from("z")];
    let (p1, v1) = trie.get_longest_prefix(&q1);
    assert_eq!(p1, &q1[0..2]);
    assert_eq!(v1, Some(&20));
    let q2 = [String::from("a"), String::from("z")];
    let (p2, v2) = trie.get_longest_prefix(&q2);
    assert_eq!(p2, &q2[0..1]);
    assert_eq!(v2, None);
    let q3 = [String::from("z")];
    let (p3, v3) = trie.get_longest_prefix(&q3);
    assert_eq!(p3, &q3[0..0]);
    assert_eq!(v3, None);
}

#[test]
fn law_trie_insert_overwrites_silently() {
    let mut trie: Trie<u64, i32> = Trie::new();
    assert_eq!(trie.insert(vec![7], 1), None);
    assert_eq!(trie.insert(vec![7], 2), Some(1));
    assert_eq!(trie.get_longest_prefix(&[7]).1, Some(&2));
}

#[test]
fn trie_keeps_children_sorted_whatever_the_insertion_order() {
    let mut t1: Trie<u64, i32> = Trie::new();
    t1.insert(vec![3], 3);
    t1.insert(vec![1], 1);
    t1.insert(vec![2], 2);
    let mut t2: Trie<u64, i32> = Trie::new();
    t2.insert(vec![1], 1);
    t2.insert(vec![2], 2);
    t2.insert(vec![3], 3);
    assert_eq!(t1, t2);
}
