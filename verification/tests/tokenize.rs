use char_trie::{Tokenizer, Trie};

fn cn_dict() -> Trie<i32> {
    let mut trie = Trie::default();
    trie.insert("中国", 1);
    trie.insert("中国人", 2);
    trie.insert("国人", 3);
    trie
}

#[test]
fn forward_max_greediness() {
    let trie = cn_dict();
    let text = "我是中国人";
    let mut it = trie.iter_max(text);
    let tokens: Vec<(&str, (usize, usize), Option<&i32>)> =
        std::iter::from_fn(|| it.next()).collect();
    assert_eq!(tokens, vec![("中国人", (6, 15), Some(&2))]);
}

#[test]
fn forward_max_skips_unmatched_characters() {
    let mut trie = Trie::default();
    trie.insert("AB", 1);
    let mut it = trie.iter_max("XAB");
    assert_eq!(it.next(), Some(("AB", (1, 3), Some(&1))));
    assert_eq!(it.next(), None);
}

#[test]
fn forward_max_backtracks_to_best_match() {
    let mut trie = Trie::default();
    trie.insert("ab", 1);
    trie.insert("abcd", 2);
    let mut it = trie.iter_max("abcx");
    assert_eq!(it.next(), Some(("ab", (0, 2), Some(&1))));
    assert_eq!(it.next(), None);
}

#[test]
fn forward_max_match_at_end_of_text() {
    let mut trie = Trie::default();
    trie.insert("ab", 1);
    trie.insert("abcd", 2);
    let mut it = trie.iter_max("zabc");
    assert_eq!(it.next(), Some(("ab", (1, 3), Some(&1))));
    assert_eq!(it.next(), None);
}

#[test]
fn all_match_exhaustiveness() {
    let trie = cn_dict();
    let mut it = trie.iter_all("我是中国人");
    let tokens: Vec<(&str, (usize, usize), Option<&i32>)> =
        std::iter::from_fn(|| it.next()).collect();
    assert_eq!(
        tokens,
        vec![
            ("中国", (6, 12), Some(&1)),
            ("中国人", (6, 15), Some(&2)),
            ("国人", (9, 15), Some(&3)),
        ]
    );
}

#[test]
fn all_match_overlapping_and_nested() {
    let mut trie = Trie::default();
    trie.insert("AB", 1);
    trie.insert("BC", 2);
    trie.insert("ABC", 3);
    let mut it = trie.iter_all("ABC");
    let tokens: Vec<&str> = std::iter::from_fn(|| it.next()).map(|t| t.0).collect();
    assert_eq!(tokens, vec!["AB", "ABC", "BC"]);
}

#[test]
fn tokenizers_terminate_and_stay_exhausted() {
    let trie = cn_dict();
    let mut max_it = trie.iter_max("我是中国人好");
    while max_it.next().is_some() {}
    assert_eq!(max_it.next(), None);
    assert_eq!(max_it.next(), None);

    let mut all_it = trie.iter_all("我是中国人好");
    while all_it.next().is_some() {}
    assert_eq!(all_it.next(), None);
    assert_eq!(all_it.next(), None);
}

#[test]
fn tokenizers_on_empty_text_and_empty_dict() {
    let trie = cn_dict();
    assert_eq!(trie.iter_max("").next(), None);
    assert_eq!(trie.iter_all("").next(), None);

    let empty: Trie<i32> = Trie::default();
    assert_eq!(empty.iter_max("中国人").next(), None);
    assert_eq!(empty.iter_all("中国人").next(), None);
}

#[test]
fn combined_tokenizer_front_max() {
    let trie = cn_dict();
    let mut tk = Tokenizer::new(&trie, "我是中国人");
    assert_eq!(tk.front_max(), Some(("中国人", (6, 15), Some(&2))));
    assert_eq!(tk.front_max(), None);
    assert_eq!(tk.front_max(), None);
}

#[test]
fn combined_tokenizer_all() {
    let trie = cn_dict();
    let mut tk = Tokenizer::new(&trie, "我是中国人");
    assert_eq!(tk.all(), Some(("中国", (6, 12), Some(&1))));
    assert_eq!(tk.all(), Some(("中国人", (6, 15), Some(&2))));
    assert_eq!(tk.all(), Some(("国人", (9, 15), Some(&3))));
    assert_eq!(tk.all(), None);
    assert_eq!(tk.all(), None);
}

#[test]
fn big_and_sparse_stores_agree() {
    let pairs = [("中国", 1), ("中国人", 2), ("国人", 3), ("AB", 4), ("ABC", 5)];
    let texts = ["我是中国人", "XABC中国", "", "ABAB", "国人人国"];

    let mut sparse = Trie::default();
    let mut dense = Trie::new_big();
    for (k, v) in pairs.iter() {
        sparse.insert(k, *v);
        dense.insert(k, *v);
    }

    for (k, _) in pairs.iter() {
        assert_eq!(sparse.get(k), dense.get(k));
    }
    assert_eq!(sparse.get("中"), dense.get("中"));
    assert_eq!(sparse.get("人"), dense.get("人"));

    for text in texts.iter() {
        let mut a = sparse.iter_max(text);
        let mut b = dense.iter_max(text);
        let ta: Vec<(&str, (usize, usize), Option<&i32>)> =
            std::iter::from_fn(|| a.next()).collect();
        let tb: Vec<(&str, (usize, usize), Option<&i32>)> =
            std::iter::from_fn(|| b.next()).collect();
        assert_eq!(ta, tb);

        let mut a = sparse.iter_all(text);
        let mut b = dense.iter_all(text);
        let ta: Vec<(&str, (usize, usize), Option<&i32>)> =
            std::iter::from_fn(|| a.next()).collect();
        let tb: Vec<(&str, (usize, usize), Option<&i32>)> =
            std::iter::from_fn(|| b.next()).collect();
        assert_eq!(ta, tb);
    }
}

#[test]
fn token_offsets_are_byte_offsets() {
    let mut trie = Trie::default();
    trie.insert("国人", 3);
    let text = "我是中国人";
    let mut it = trie.iter_max(text);
    let tok = it.next().expect("a match");
    assert_eq!(tok.0, "国人");
    assert_eq!(tok.1, (9, 15));
    assert_eq!(&text[tok.1 .0..tok.1 .1], tok.0);
}
