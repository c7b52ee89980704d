use rk_utils::StringUtil;
use rk_utils::Trie;

#[test]
fn test_trie_longest_match() {
    let mut trie = Trie::new();

    let route1 = "/cloud/instance/".url_to_nodes();
    let route2 = "/cloud/".url_to_nodes();
    let route3 = "/builder/instance".url_to_nodes();
    let route4 = "/builder".url_to_nodes();
    let route5 = "/".url_to_nodes();

    trie.insert(route1, 1);
    trie.insert(route2, 2);
    trie.insert(route3, 3);
    trie.insert(route4, 4);
    trie.insert(route5, 5);

    let input1 = "/cloud/instance/xxx".url_to_nodes();
    assert_eq!(trie.find_longest_match(input1), Some(&1));

    let input2 = "/cloud/xxx".url_to_nodes();
    assert_eq!(trie.find_longest_match(input2), Some(&2));

    let input3 = "/builder/instance/".url_to_nodes();
    assert_eq!(trie.find_longest_match(input3), Some(&3));

    let input4 = "/fjeao".url_to_nodes();
    assert_eq!(trie.find_longest_match(input4), Some(&5));
}

#[test]
fn finds_by_token_paths() {
    let mut trie = Trie::new();
    trie.insert(vec!["/", "cloud", "instance"], 1);
    trie.insert(vec!["/", "cloud"], 2);
    trie.insert(vec!["/", "builder", "instance"], 3);
    trie.insert(vec!["/", "builder"], 4);
    trie.insert(vec!["/"], 5);

    assert_eq!(trie.find_longest_match(vec!["/", "cloud", "instance", "xxx"]), Some(&1));
    assert_eq!(trie.find_longest_match(vec!["/", "cloud", "xxx"]), Some(&2));
    assert_eq!(trie.find_longest_match(vec!["/", "fjeao"]), Some(&5));
}

#[test]
fn finds_what_was_inserted() {
    let mut trie = Trie::new();
    trie.insert(vec!["a", "b", "c"], 1);
    trie.insert(vec!["a", "b", "d"], 2);

    assert_eq!(trie.find_longest_match(vec!["a", "b", "c"]), Some(&1));
    assert_eq!(trie.find_longest_match(vec!["a", "b", "c", "d"]), Some(&1));
    assert_eq!(trie.find_longest_match(vec!["a", "b", "d", "e"]), Some(&2));
}

#[test]
fn finds_nothing_without_a_stored_prefix() {
    let mut trie = Trie::new();
    assert_eq!(trie.find_longest_match(vec![]), None);
    assert_eq!(trie.find_longest_match(vec!["a"]), None);
    trie.insert(vec!["a", "b"], 1);
    assert_eq!(trie.find_longest_match(vec![]), None);
    assert_eq!(trie.find_longest_match(vec!["a"]), None);
    assert_eq!(trie.find_longest_match(vec!["b", "a"]), None);
    assert_eq!(trie.find_longest_match(vec!["a", "c", "b"]), None);
}

#[test]
fn a_value_at_the_root_matches_every_path() {
    let mut trie = Trie::new();
    trie.insert(vec![], 7);
    assert_eq!(trie.find_longest_match(vec![]), Some(&7));
    assert_eq!(trie.find_longest_match(vec!["a", "b"]), Some(&7));
    trie.insert(vec!["a"], 8);
    assert_eq!(trie.find_longest_match(vec!["a", "b"]), Some(&8));
    assert_eq!(trie.find_longest_match(vec!["b"]), Some(&7));
}

#[test]
fn a_later_insert_wins() {
    let mut trie = Trie::new();
    trie.insert(vec!["a", "b"], 1);
    trie.insert(vec!["a", "b"], 2);
    assert_eq!(trie.find_longest_match(vec!["a", "b"]), Some(&2));
    assert_eq!(trie.find_longest_match(vec!["a", "b", "c"]), Some(&2));
}

#[test]
fn the_walk_stops_at_the_first_missing_token() {
    let mut trie = Trie::new();
    trie.insert(vec!["a"], 1);
    trie.insert(vec!["a", "b", "c"], 3);
    assert_eq!(trie.find_longest_match(vec!["a", "b"]), Some(&1));
    assert_eq!(trie.find_longest_match(vec!["a", "x", "c"]), Some(&1));
    assert_eq!(trie.find_longest_match(vec!["a", "b", "c", "d"]), Some(&3));
}

#[test]
fn tokens_are_compared_by_their_characters() {
    let mut trie = Trie::default();
    let owned = String::from("clo") + "ud";
    trie.insert(vec!["/", "cloud"], 1);
    trie.insert(vec!["/", "cloudy"], 2);
    trie.insert(vec!["/", "clou"], 3);
    assert_eq!(trie.find_longest_match(vec!["/", "cloud"]), Some(&1));
    let trie = trie;
    let other: &'static str = Box::leak(owned.into_boxed_str());
    assert_eq!(trie.find_longest_match(vec!["/", other]), Some(&1));
}
