use char_trie::{Leafs, Trie};

#[test]
fn round_trip_single_key() {
    let mut trie = Trie::default();
    trie.insert("中国人", "cns");
    assert_eq!(trie.get("中国人"), Some("cns").as_ref());
    assert_eq!(trie.get("中国"), None);
    assert_eq!(trie.get("国人"), None);
    assert_eq!(trie.get("中国人家"), None);
    assert_eq!(trie.get(""), None);
}

#[test]
fn round_trip_many_keys() {
    let mut trie = Trie::default();
    let pairs = [("a", 1), ("ab", 2), ("b", 3), ("ba", 4), ("中", 5)];
    for (k, v) in pairs.iter() {
        trie.insert(k, *v);
    }
    for (k, v) in pairs.iter() {
        assert_eq!(trie.get(k), Some(v));
    }
    assert_eq!(trie.get("c"), None);
    assert_eq!(trie.get("abc"), None);
}

#[test]
fn empty_key_insert_is_noop() {
    let mut trie = Trie::default();
    trie.insert("", 7);
    assert_eq!(trie.get(""), None);
    trie.insert("x", 1);
    trie.insert("", 9);
    assert_eq!(trie.get("x"), Some(&1));
    assert_eq!(trie.get(""), None);
}

#[test]
fn duplicate_key_overwrites_value() {
    let mut trie = Trie::default();
    trie.insert("ab", 1);
    trie.insert("ab", 2);
    assert_eq!(trie.get("ab"), Some(&2));
}

#[test]
fn prefix_non_leakage() {
    let mut trie = Trie::default();
    trie.insert("abcde", 1);
    assert_eq!(trie.get("abc"), None);
    assert_eq!(trie.get("a"), None);
    assert_eq!(trie.get("abcd"), None);
    trie.insert("abc", 2);
    assert_eq!(trie.get("abc"), Some(&2));
    assert_eq!(trie.get("abcde"), Some(&1));
}

#[test]
fn promotion_shorter_key_survives_extension() {
    let mut trie = Trie::default();
    trie.insert("ab", 10);
    trie.insert("abc", 20);
    assert_eq!(trie.get("ab"), Some(&10));
    assert_eq!(trie.get("abc"), Some(&20));
    // the node for "ab" now has children: the walk continues through it
    let a = trie.char_get('a').expect("child for 'a'");
    let b = a.char_get('b').expect("child for 'b'");
    assert!(b.char_get('c').is_some());
    assert!(b.char_get('d').is_none());
}

#[test]
fn promotion_longer_key_first() {
    let mut trie = Trie::default();
    trie.insert("abc", 20);
    trie.insert("ab", 10);
    assert_eq!(trie.get("ab"), Some(&10));
    assert_eq!(trie.get("abc"), Some(&20));
}

#[test]
fn char_get_single_level() {
    let mut trie = Trie::default();
    trie.insert("xy", 1);
    assert!(trie.char_get('x').is_some());
    assert!(trie.char_get('y').is_none());
    assert!(trie.char_get('z').is_none());
}

#[test]
fn big_trie_round_trip() {
    let mut trie = Trie::new_big();
    trie.insert("中国人", "cns");
    assert_eq!(trie.get("中国人"), Some("cns").as_ref());
    assert_eq!(trie.get("中国"), None);
    trie.insert("中国", "cn");
    assert_eq!(trie.get("中国"), Some("cn").as_ref());
    assert_eq!(trie.get("中"), None);
}

#[test]
fn big_trie_bmp_boundary_key() {
    let mut trie = Trie::new_big();
    trie.insert("\u{ffff}z", 1);
    assert_eq!(trie.get("\u{ffff}z"), Some(&1));
    assert_eq!(trie.get("\u{ffff}"), None);
}

#[test]
fn sparse_trie_accepts_non_bmp_keys() {
    let mut trie = Trie::default();
    trie.insert("😀a", 1);
    trie.insert("😀", 2);
    assert_eq!(trie.get("😀a"), Some(&1));
    assert_eq!(trie.get("😀"), Some(&2));
    assert_eq!(trie.get("a"), None);
}

#[test]
fn leafs_get_checked_and_unchecked() {
    let sparse: Leafs<u32> = Leafs::Small(vec![Trie::default()]);
    assert!(sparse.get(0).is_some());
    assert!(sparse.get(1).is_none());
    let _node = sparse.get_uncheck(0);

    let dense: Leafs<u32> = Leafs::Big(vec![None, None]);
    assert!(dense.get(0).is_none());
    assert!(dense.get(7).is_none());
}

#[test]
fn big_trie_non_bmp_text_is_not_found() {
    let mut trie = Trie::new_big();
    trie.insert("AB", 1);
    assert_eq!(trie.get("😀"), None);
    assert_eq!(trie.get("😀AB"), None);
    let mut it = trie.iter_max("😀AB");
    assert_eq!(it.next(), Some(("AB", (4, 6), Some(&1))));
    assert_eq!(it.next(), None);
}
