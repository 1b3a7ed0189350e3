use std::collections::HashSet;
use std::hash::Hash;

use trie::trie::Trie;

fn eq_unordered<T>(a: &[T], b: &[T]) -> bool
where
    T: Eq + Hash,
{
    let a: HashSet<_> = a.iter().collect();
    let b: HashSet<_> = b.iter().collect();

    a == b
}

const DICT: [&str; 6] = ["bleu", "blanc", "blanche", "bol", "blâme", "blatte"];

fn bootstrap() -> Trie<usize> {
    let mut t = Trie::new();

    for (i, w) in DICT.iter().enumerate() {
        t.insert(w, Some(i + 1));
    }

    t
}

#[test]
fn contains() {
    let t = bootstrap();

    assert_eq!(t.contains("bol"), true);
    assert_eq!(t.contains("b"), false);
    assert_eq!(t.contains("figue"), false);
}

#[test]
fn remove() {
    let mut t = bootstrap();

    t.remove("bol");
    t.remove("blanche");
    t.remove("blâme");

    assert_eq!(t.contains("blanc"), true);

    t.remove("blanc");

    assert!(eq_unordered(
        &t.get_all(),
        &[("bleu".to_string(), 1), ("blatte".to_string(), 6)]
    ));
}

#[test]
fn starts_with() {
    let t = bootstrap();

    assert!(eq_unordered(
        &t.starts_with("b"),
        &[
            ("bleu".to_string(), 1),
            ("blanc".to_string(), 2),
            ("blanche".to_string(), 3),
            ("bol".to_string(), 4),
            ("blâme".to_string(), 5),
            ("blatte".to_string(), 6)
        ]
    ));
    assert!(eq_unordered(
        &t.starts_with("bla"),
        &[
            ("blanc".to_string(), 2),
            ("blanche".to_string(), 3),
            ("blatte".to_string(), 6)
        ]
    ));
    assert!(eq_unordered(&t.starts_with("bol"), &[("bol".to_string(), 4)]));
    assert!(eq_unordered(&t.starts_with("z"), &[]));
}

#[test]
fn starts_with_lists_each_word_once() {
    let t = bootstrap();

    assert_eq!(t.starts_with("b").len(), 6);
    assert_eq!(t.starts_with("bla").len(), 3);
    assert_eq!(t.starts_with("blanc").len(), 2);
    assert_eq!(t.starts_with("blanche").len(), 1);
    assert_eq!(t.starts_with("blanches").len(), 0);
    assert_eq!(t.get_all().len(), 6);
}

#[test]
fn get_all_is_starts_with_empty() {
    let mut t = bootstrap();

    assert!(eq_unordered(&t.get_all(), &t.starts_with("")));
    t.remove("bleu");
    t.insert("", Some(9));
    assert!(eq_unordered(&t.get_all(), &t.starts_with("")));
    assert_eq!(t.get_all().len(), 6);
}

#[test]
fn longer_prefix_lists_less() {
    let t = bootstrap();
    let shorter: HashSet<(String, usize)> = t.starts_with("bl").into_iter().collect();

    for entry in t.starts_with("blan") {
        assert!(shorter.contains(&entry));
    }
    assert_eq!(shorter.len(), 5);
}

#[test]
fn removed_word_leaves_its_extensions() {
    let mut t = bootstrap();

    assert_eq!(t.remove("blanc"), true);
    assert_eq!(t.contains("blanc"), false);
    assert_eq!(t.contains("blanche"), true);
    assert!(eq_unordered(
        &t.starts_with("blanc"),
        &[("blanche".to_string(), 3)]
    ));
    for w in ["bleu", "blanche", "bol", "blâme", "blatte"] {
        assert_eq!(t.contains(w), true);
    }
}

#[test]
fn remove_of_no_path_changes_nothing() {
    let mut t = bootstrap();
    let before: HashSet<(String, usize)> = t.get_all().into_iter().collect();

    assert_eq!(t.remove("figue"), false);
    assert_eq!(t.remove("blanches"), false);
    assert_eq!(t.remove("z"), false);

    let after: HashSet<(String, usize)> = t.get_all().into_iter().collect();
    assert_eq!(before, after);
    assert_eq!(t.contains("figue"), false);
}

#[test]
fn remove_of_a_bare_path_returns_true() {
    let mut t = bootstrap();

    assert_eq!(t.contains("bl"), false);
    assert_eq!(t.remove("bl"), true);
    assert_eq!(t.get_all().len(), 6);
}

#[test]
fn remove_twice_returns_the_same() {
    let mut t = bootstrap();

    assert_eq!(t.remove("bol"), true);
    assert_eq!(t.remove("bol"), true);
    assert_eq!(t.contains("bol"), false);
    assert_eq!(t.get_all().len(), 5);

    assert_eq!(t.remove("figue"), false);
    assert_eq!(t.remove("figue"), false);
}
