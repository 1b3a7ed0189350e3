use trie::text::byte_len;
use trie::trie::Trie;

#[test]
fn new_tree_is_empty() {
    let t: Trie<u8> = Trie::new();

    assert_eq!(t.contains(""), false);
    assert_eq!(t.contains("a"), false);
    assert_eq!(t.get_all(), vec![]);
    assert_eq!(t.starts_with("a"), vec![]);
}

#[test]
fn default_tree_is_empty() {
    let mut t: Trie<u8> = Trie::default();

    assert_eq!(t.get_all(), vec![]);
    assert_eq!(t.remove(""), true);
    assert_eq!(t.remove("a"), false);
}

#[test]
fn inserted_word_is_found_with_its_value() {
    let mut t = Trie::new();

    t.insert("chat", Some(7u32));
    assert_eq!(t.contains("chat"), true);
    assert_eq!(t.get_all(), vec![("chat".to_string(), 7)]);
    assert_eq!(t.starts_with(""), vec![("chat".to_string(), 7)]);

    t.insert("chien", Some(8));
    t.remove("chien");
    assert_eq!(t.contains("chat"), true);
    assert_eq!(t.get_all(), vec![("chat".to_string(), 7)]);
}

#[test]
fn insert_overwrites_the_value() {
    let mut t = Trie::new();

    t.insert("chat", Some(1u32));
    t.insert("chat", Some(2));
    assert_eq!(t.get_all(), vec![("chat".to_string(), 2)]);
}

#[test]
fn insert_without_value_stores_no_word() {
    let mut t: Trie<u32> = Trie::new();

    t.insert("chat", None);
    assert_eq!(t.contains("chat"), false);
    assert_eq!(t.get_all(), vec![]);
    assert_eq!(t.remove("chat"), true);
    assert_eq!(t.remove("cha"), true);
    assert_eq!(t.remove("chats"), false);

    t.insert("chat", Some(3));
    assert_eq!(t.contains("chat"), true);
    t.insert("chat", None);
    assert_eq!(t.contains("chat"), false);
}

#[test]
fn empty_word_lives_at_the_root() {
    let mut t = Trie::new();

    assert_eq!(t.contains(""), false);
    t.insert("", Some('r'));
    assert_eq!(t.contains(""), true);
    assert_eq!(t.get_all(), vec![("".to_string(), 'r')]);
    assert_eq!(t.starts_with("a"), vec![]);
    assert_eq!(t.remove(""), true);
    assert_eq!(t.contains(""), false);
}

#[test]
fn prefix_that_is_a_word_is_listed() {
    let mut t = Trie::new();

    t.insert("a", Some(1u8));
    t.insert("ab", Some(2));
    t.insert("abc", Some(3));

    let mut found = t.starts_with("ab");
    found.sort();
    assert_eq!(found, vec![("ab".to_string(), 2), ("abc".to_string(), 3)]);
    assert_eq!(t.starts_with("abc"), vec![("abc".to_string(), 3)]);
    assert_eq!(t.starts_with("abcd"), vec![]);
}

#[test]
fn words_keep_their_characters() {
    let mut t = Trie::new();

    t.insert("été", Some(1u8));
    t.insert("日本語", Some(2));
    t.insert("a\u{10FFFF}z", Some(3));
    t.insert("\u{0}", Some(4));

    assert_eq!(t.contains("été"), true);
    assert_eq!(t.contains("ete"), false);
    assert_eq!(t.contains("日本"), false);
    assert_eq!(t.starts_with("ét"), vec![("été".to_string(), 1)]);
    assert_eq!(t.starts_with("日"), vec![("日本語".to_string(), 2)]);
    assert_eq!(t.starts_with("a"), vec![("a\u{10FFFF}z".to_string(), 3)]);
    assert_eq!(t.starts_with("\u{0}"), vec![("\u{0}".to_string(), 4)]);
    assert_eq!(t.get_all().len(), 4);
}

#[test]
fn values_are_cloned_out() {
    let mut t = Trie::new();

    t.insert("k", Some(vec![1u8, 2, 3]));
    let first = t.get_all();
    let second = t.get_all();
    assert_eq!(first, vec![("k".to_string(), vec![1u8, 2, 3])]);
    assert_eq!(first, second);
}

#[test]
fn byte_len_counts_bytes() {
    assert_eq!(byte_len(""), 0);
    assert_eq!(byte_len("bol"), 3);
    assert_eq!(byte_len("blâme"), 6);
    assert_eq!(byte_len("日本語"), 9);
}
