use bk_tree::distance::levenshtein_distance;
use bk_tree::{BkTree, Node};

fn sample() -> BkTree<&'static str> {
    let mut bk = BkTree::new();
    bk.insert_all(vec![
        "book", "books", "boo", "boon", "cook", "cake", "cape", "cart",
    ]);
    bk
}

fn sorted_pairs(found: Vec<(&&str, usize)>) -> Vec<(String, usize)> {
    let mut v: Vec<(String, usize)> = found.into_iter().map(|(w, d)| (w.to_string(), d)).collect();
    v.sort();
    v
}

fn all_values(bk: &BkTree<&'static str>) -> Vec<String> {
    let mut it = bk.iter();
    let mut out = Vec::new();
    while let Some(w) = it.next() {
        out.push(w.to_string());
    }
    out.sort();
    out
}

#[test]
fn levenshtein_distance_test() {
    let bk = sample();
    let (words, dists): (Vec<&str>, Vec<usize>) =
        bk.find(&"bo", 2).into_iter().map(|(w, d)| (*w, d)).unzip();
    assert_eq!(words, ["book", "boo", "boon"]);
    assert_eq!(dists, [2, 1, 2]);
}

#[test]
fn distance_values() {
    assert_eq!(levenshtein_distance("kitten", "sitting"), 3);
    assert_eq!(levenshtein_distance("", "abc"), 3);
    assert_eq!(levenshtein_distance("abc", ""), 3);
    assert_eq!(levenshtein_distance("", ""), 0);
    assert_eq!(levenshtein_distance("book", "book"), 0);
    assert_eq!(levenshtein_distance("book", "cake"), 4);
    assert_eq!(levenshtein_distance("flaw", "lawn"), 2);
    assert_eq!(levenshtein_distance("bo", "cook"), 3);
    assert_eq!(levenshtein_distance("héllo", "hello"), 1);
}

#[test]
fn distance_is_symmetric_and_triangular() {
    let words = ["book", "books", "boo", "boon", "cook", "cake", "cape", "cart", "", "x"];
    for a in words.iter() {
        for b in words.iter() {
            assert_eq!(levenshtein_distance(a, b), levenshtein_distance(b, a));
            for c in words.iter() {
                assert!(
                    levenshtein_distance(a, c)
                        <= levenshtein_distance(a, b) + levenshtein_distance(b, c)
                );
            }
        }
    }
}

#[test]
fn find_matches_linear_scan() {
    let bk = sample();
    let words = ["book", "books", "boo", "boon", "cook", "cake", "cape", "cart"];
    for q in ["bo", "book", "cap", "zzzz", "", "cooks"].iter() {
        for max in 0..6usize {
            let got = sorted_pairs(bk.find(q, max));
            let mut want: Vec<(String, usize)> = words
                .iter()
                .map(|w| (w.to_string(), levenshtein_distance(w, q)))
                .filter(|(_, d)| *d <= max)
                .collect();
            want.sort();
            assert_eq!(got, want);
        }
    }
}

#[test]
fn find_scenario_as_set() {
    let bk = sample();
    let got = sorted_pairs(bk.find(&"bo", 2));
    assert_eq!(
        got,
        vec![
            ("boo".to_string(), 1),
            ("book".to_string(), 2),
            ("boon".to_string(), 2)
        ]
    );
}

#[test]
fn find_on_empty_tree() {
    let bk: BkTree<&str> = BkTree::new();
    assert!(bk.find(&"anything", 0).is_empty());
    assert!(bk.find(&"anything", 100).is_empty());
    assert!(bk.iter().next().is_none());
}

#[test]
fn find_with_zero_radius() {
    let bk = sample();
    assert_eq!(sorted_pairs(bk.find(&"cape", 0)), vec![("cape".to_string(), 0)]);
    assert!(bk.find(&"cap", 0).is_empty());
}

#[test]
fn duplicate_insert_changes_nothing() {
    let mut bk = sample();
    let before = all_values(&bk);
    bk.insert("boo");
    bk.insert("book");
    assert_eq!(all_values(&bk), before);
    assert_eq!(before.len(), 8);
}

#[test]
fn traversal_yields_each_inserted_value() {
    let bk = sample();
    let mut want: Vec<String> = ["book", "books", "boo", "boon", "cook", "cake", "cape", "cart"]
        .iter()
        .map(|w| w.to_string())
        .collect();
    want.sort();
    assert_eq!(all_values(&bk), want);
    let mut owned: Vec<String> = Vec::new();
    let mut it = bk.into_iter();
    while let Some(w) = it.next() {
        owned.push(w.to_string());
    }
    owned.sort();
    assert_eq!(owned, want);
}

#[test]
fn count_law_with_repeats() {
    let mut bk = BkTree::new();
    bk.insert_all(vec!["a", "b", "a", "ab", "b", "a"]);
    assert_eq!(all_values(&bk), vec!["a".to_string(), "ab".to_string(), "b".to_string()]);
    let mut distinct = BkTree::new();
    distinct.insert_all(vec!["a", "b", "ab"]);
    assert_eq!(all_values(&distinct).len(), 3);
}

#[test]
fn owned_strings() {
    let mut bk: BkTree<String> = BkTree::new();
    bk.insert("hello".to_string());
    bk.insert("help".to_string());
    bk.insert("world".to_string());
    let mut got: Vec<(String, usize)> = bk
        .find(&"hell".to_string(), 1)
        .into_iter()
        .map(|(w, d)| (w.clone(), d))
        .collect();
    got.sort();
    assert_eq!(got, vec![("hello".to_string(), 1), ("help".to_string(), 1)]);
}

#[test]
fn nodes_round_trip() {
    let bk = sample();
    let root = bk.into_root().unwrap();
    assert_eq!(root.word, "book");
    let edges: Vec<usize> = root.children.iter().map(|(d, _)| *d).collect();
    assert_eq!(edges, vec![1, 4]);
    let rebuilt = BkTree::from_root(Some(root)).unwrap();
    assert_eq!(
        sorted_pairs(rebuilt.find(&"bo", 2)),
        vec![
            ("boo".to_string(), 1),
            ("book".to_string(), 2),
            ("boon".to_string(), 2)
        ]
    );
    let empty: BkTree<&str> = BkTree::new();
    assert!(empty.into_root().is_none());
    assert!(BkTree::<&str>::from_root(None).is_some());
}

#[test]
fn malformed_nodes_are_refused() {
    let leaf = |w: &'static str| Node { word: w, children: Vec::new() };
    let wrong_edge = Node { word: "book", children: vec![(2, leaf("books"))] };
    assert!(BkTree::from_root(Some(wrong_edge)).is_none());
    let shared_edge = Node { word: "book", children: vec![(1, leaf("books")), (1, leaf("boo"))] };
    assert!(BkTree::from_root(Some(shared_edge)).is_none());
    let deep_wrong = Node {
        word: "book",
        children: vec![(1, Node { word: "books", children: vec![(2, leaf("cake"))] })],
    };
    assert!(BkTree::from_root(Some(deep_wrong)).is_none());
    let good = Node { word: "book", children: vec![(1, leaf("books")), (4, leaf("cake"))] };
    assert!(BkTree::from_root(Some(good)).is_some());
}

#[test]
fn built_from_values() {
    let bk = BkTree::from_values(vec!["book", "books", "boo", "book"]);
    let mut values = Vec::new();
    let mut it = bk.iter();
    while let Some(w) = it.next() {
        values.push(w.to_string());
    }
    values.sort();
    assert_eq!(values, vec!["boo".to_string(), "book".to_string(), "books".to_string()]);
}
