use markov_chain::{ContextLengthError, Followers, KeyPosition, MarkovChain, Token};
use std::collections::HashMap;
use std::hash::Hash;

fn hashmap_creator<K: Eq + Hash>(occurs: Vec<(Option<K>, u64)>) -> HashMap<Option<K>, u64> {
    let map: HashMap<_, _> = occurs.into_iter().collect();
    map
}

fn occurs_map<K: Eq + Hash + Clone + Token>(followers: &Followers<K>) -> HashMap<Option<K>, u64> {
    followers.occurs().iter().cloned().collect()
}

fn words(text: &str) -> Vec<&str> {
    text.split_whitespace().collect()
}

#[test]
fn train_first_order() {
    let mut map = MarkovChain::<&str>::new(1);
    map.train(&words("one fish two fish red fish red fish"));
    assert_eq!(
        occurs_map(map.followers(&vec![KeyPosition::Body("fish")]).unwrap()),
        hashmap_creator(vec![(Some("two"), 1), (Some("red"), 2), (None, 1)])
    );
}

#[test]
fn train_second_order() {
    let mut map = MarkovChain::<&str>::new(2);
    map.train(&words("one fish two fish red fish blue fish"));
    assert_eq!(
        occurs_map(
            map.followers(&vec![KeyPosition::Beginning, KeyPosition::Beginning])
                .unwrap()
        ),
        hashmap_creator(vec![(Some("one"), 1)])
    );
    assert_eq!(
        occurs_map(
            map.followers(&vec![KeyPosition::Beginning, KeyPosition::Body("one")])
                .unwrap()
        ),
        hashmap_creator(vec![(Some("fish"), 1)])
    );
}

#[test]
fn counter_totals_match_visits() {
    let mut map = MarkovChain::<&str>::new(1);
    map.train(&words("one fish two fish red fish red fish"));
    assert_eq!(map.followers(&vec![KeyPosition::Body("fish")]).unwrap().total(), 4);
    assert_eq!(map.followers(&vec![KeyPosition::Beginning]).unwrap().total(), 1);
    assert_eq!(map.followers(&vec![KeyPosition::Body("red")]).unwrap().total(), 2);
    assert_eq!(map.observations(), 9);
    assert_eq!(map.len(), 5);
    assert!(map.followers(&vec![KeyPosition::Body("blue")]).is_none());
}

#[test]
fn separate_trainings_are_padded_separately() {
    let mut map = MarkovChain::<&str>::new(1);
    map.train(&words("a b"));
    map.train(&words("a c"));
    assert_eq!(
        occurs_map(map.followers(&vec![KeyPosition::Beginning]).unwrap()),
        hashmap_creator(vec![(Some("a"), 2)])
    );
    assert_eq!(
        occurs_map(map.followers(&vec![KeyPosition::Body("a")]).unwrap()),
        hashmap_creator(vec![(Some("b"), 1), (Some("c"), 1)])
    );
    assert_eq!(
        occurs_map(map.followers(&vec![KeyPosition::Body("b")]).unwrap()),
        hashmap_creator(vec![(None, 1)])
    );
}

#[test]
fn empty_sequence_records_only_the_end() {
    let mut map = MarkovChain::<&str>::new(2);
    map.train(&[]);
    assert_eq!(
        occurs_map(
            map.followers(&vec![KeyPosition::Beginning, KeyPosition::Beginning])
                .unwrap()
        ),
        hashmap_creator(vec![(None, 1)])
    );
    assert_eq!(map.observations(), 1);
    assert!(map.generate(5).is_empty());
}

#[test]
fn untrained_chain_generates_nothing() {
    let map = MarkovChain::<&str>::new(2);
    assert!(map.generate(10).is_empty());
    assert!(map.generate_from_rnd_token(10).is_none());
    assert_eq!(
        map.generate_from_token(&vec![KeyPosition::Body("x"), KeyPosition::Body("y")], 10),
        Ok(vec![])
    );
}

#[test]
fn single_path_is_followed_exactly() {
    let mut map = MarkovChain::<&str>::new(1);
    map.train(&words("a b c"));
    assert_eq!(map.generate(10), vec!["a", "b", "c"]);
    assert_eq!(map.generate(2), vec!["a", "b"]);
    assert_eq!(map.generate(0), Vec::<&str>::new());
    assert_eq!(
        map.generate_from_token(&vec![KeyPosition::Body("b")], 10),
        Ok(vec!["c"])
    );
}

#[test]
fn second_order_walk_uses_both_slots() {
    let mut map = MarkovChain::<&str>::new(2);
    map.train(&words("x y z w"));
    assert_eq!(map.generate(100), vec!["x", "y", "z", "w"]);
    assert_eq!(
        map.generate_from_token(&vec![KeyPosition::Body("y"), KeyPosition::Body("z")], 100),
        Ok(vec!["w"])
    );
    assert_eq!(
        map.generate_from_token(&vec![KeyPosition::Body("z"), KeyPosition::Body("y")], 100),
        Ok(vec![])
    );
}

#[test]
fn wrong_context_length_is_an_error() {
    let mut map = MarkovChain::<&str>::new(2);
    map.train(&words("a b"));
    assert_eq!(
        map.generate_from_token(&vec![KeyPosition::Beginning], 10),
        Err(ContextLengthError { expected: 2, found: 1 })
    );
    assert_eq!(
        map.generate_from_token(&vec![KeyPosition::Beginning; 3], 10),
        Err(ContextLengthError { expected: 2, found: 3 })
    );
}

#[test]
fn generated_length_is_bounded() {
    let mut map = MarkovChain::<&str>::new(1);
    map.train(&words("a a a a b a a"));
    map.train(&words("b a b b"));
    for max in 0..20usize {
        for _ in 0..20 {
            let out = map.generate(max);
            assert!(out.len() <= max);
            if let Some((_, out)) = map.generate_from_rnd_token(max) {
                assert!(out.len() <= max);
            }
        }
    }
}

#[test]
fn cycle_runs_to_max() {
    let mut map = MarkovChain::<&str>::new(1);
    map.train(&words("a a"));
    // From the context "a", "a" is seen once and the end once: a walk from
    // there either stops or repeats, and never exceeds the bound.
    for _ in 0..50 {
        let out = map.generate_from_token(&vec![KeyPosition::Body("a")], 7).unwrap();
        assert!(out.len() <= 7);
        assert!(out.iter().all(|t| *t == "a"));
    }
}

#[test]
fn random_context_exists_in_graph() {
    let mut map = MarkovChain::<&str>::new(2);
    map.train(&words("one fish two fish red fish blue fish"));
    for _ in 0..100 {
        let (key, out) = map.generate_from_rnd_token(30).unwrap();
        assert_eq!(key.len(), 2);
        assert!(map.followers(key).is_some());
        assert!(out.len() <= 30);
    }
}

#[test]
fn random_context_reaches_every_key() {
    let mut map = MarkovChain::<u64>::new(1);
    map.train(&[1, 2, 3]);
    let mut seen: Vec<Option<u64>> = Vec::new();
    for _ in 0..400 {
        let (key, _) = map.generate_from_rnd_token(5).unwrap();
        let slot = match &key[0] {
            KeyPosition::Beginning => None,
            KeyPosition::Body(t) => Some(*t),
        };
        if !seen.contains(&slot) {
            seen.push(slot);
        }
    }
    assert_eq!(seen.len(), 4);
}

#[test]
fn string_tokens_compare_by_value() {
    let mut map = MarkovChain::<String>::new(1);
    let tokens: Vec<String> = "red fish red".split_whitespace().map(|s| s.to_string()).collect();
    map.train(&tokens);
    assert_eq!(
        map.followers(&vec![KeyPosition::Body("red".to_string())]).unwrap().total(),
        2
    );
    let out = map.generate_from_token(&vec![KeyPosition::Body("fish".to_string())], 1).unwrap();
    assert_eq!(out, vec!["red".to_string()]);
}

#[test]
fn char_tokens() {
    let mut map = MarkovChain::<char>::new(3);
    map.train(&"abcd".chars().collect::<Vec<_>>());
    assert_eq!(map.generate(10), vec!['a', 'b', 'c', 'd']);
}
