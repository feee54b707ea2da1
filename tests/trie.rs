use dns_server::trie::{Key, Trie};

#[test]
fn test_lookup_normal() {
    let mut trie = Trie::new();

    let foo = Key::Exact("foo");
    let bar = Key::Exact("bar");
    let key = &[foo, bar];

    trie.insert(key, 1);

    assert_eq!(trie.lookup(key), Some(&1));
}

#[test]
fn test_lookup_wildcard() {
    let mut trie = Trie::new();

    let foo = Key::Exact("foo");
    let bar = Key::Exact("bar");

    trie.insert(&[foo.clone()], 1);
    trie.insert(&[foo.clone(), Key::Wildcard], 2);

    assert_eq!(trie.lookup(&[foo.clone()]), Some(&1));
    assert_eq!(trie.lookup(&[foo.clone(), bar.clone()]), Some(&2));
}

#[test]
fn test_lookup_none() {
    let mut trie = Trie::new();

    let foo = Key::Exact("foo");
    let bar = Key::Exact("bar");
    let key = &[foo.clone(), bar.clone()];

    trie.insert(key, 1);

    assert_eq!(trie.lookup(&[foo.clone()]), None);
    assert_eq!(trie.lookup(key), Some(&1));
}

#[test]
fn trie_exact_edge_preferred_to_wildcard() {
    let mut trie = Trie::new();
    trie.insert(&[Key::Exact("dev"), Key::Wildcard], 1);
    trie.insert(&[Key::Exact("dev"), Key::Exact("www")], 2);

    assert_eq!(trie.lookup(&[Key::Exact("dev"), Key::Exact("www")]), Some(&2));
    assert_eq!(trie.lookup(&[Key::Exact("dev"), Key::Exact("api")]), Some(&1));
}

#[test]
fn trie_insert_replaces_value() {
    let mut trie = Trie::new();
    trie.insert(&[Key::Exact("a")], 1);
    trie.insert(&[Key::Exact("a")], 5);
    assert_eq!(trie.lookup(&[Key::Exact("a")]), Some(&5));
}

#[test]
fn trie_empty_lookup() {
    let trie: Trie<&str, i32> = Trie::new();
    assert_eq!(trie.lookup(&[]), None);
    assert_eq!(trie.lookup(&[Key::Exact("a")]), None);
}
