use zilean::champion::Champion;
use zilean::errors::ChampionError;

#[test]
fn test_get_id() {
    let champion = Champion::new(10);
    assert_eq!(10, champion.get_id());
}

#[test]
fn test_gen_one() {
    let mut champion = Champion::new(10);
    champion.feed("A".to_string()).unwrap();
    assert_eq!("A".to_string(), champion.gen(5).unwrap());
}

#[test]
fn test_gen_limit() {
    let mut champion = Champion::new(10);
    champion
        .feed("Foo bar baz hello world".to_string())
        .unwrap();
    assert!(champion.gen(5).unwrap().as_bytes().len() <= 5);
}

#[test]
fn test_eq() {
    let mut champion = Champion::new(10);
    let mut champion2 = Champion::new(10);

    champion.feed("foo".to_string()).unwrap();
    champion.feed("bar".to_string()).unwrap();
    champion2.feed("foo".to_string()).unwrap();
    champion2.feed("bar".to_string()).unwrap();

    assert_eq!(champion, champion2);
}

#[test]
fn test_feed_empty_rejected() {
    let mut champion = Champion::new(10);
    assert_eq!(
        champion.feed("".to_string()),
        Err(ChampionError::EmptyInputError)
    );
    // The failed feed must not have touched the model.
    assert_eq!(champion.gen(10), Err(ChampionError::NoDataAvailable));
}

#[test]
fn test_feed_then_contains() {
    let mut champion = Champion::new(3);
    champion.feed("hello".to_string()).unwrap();
    assert!(champion.contains("hello".to_string()));
    assert!(!champion.contains("world".to_string()));
}

#[test]
fn test_contains_substring_false_positive() {
    // The documented approximation: pairwise adjacency, not whole-string
    // identity, so a contiguous substring of a fed string is reported as
    // contained.
    let mut champion = Champion::new(1);
    champion.feed("raloud".to_string()).unwrap();
    assert!(champion.contains("oud".to_string()));
}

#[test]
fn test_gen_zero_length() {
    let mut champion = Champion::new(2);
    champion.feed("xy".to_string()).unwrap();
    assert_eq!(champion.gen(0), Ok("".to_string()));
}

#[test]
fn test_gen_untrained_no_data() {
    let champion = Champion::new(9);
    assert_eq!(champion.gen(0), Err(ChampionError::NoDataAvailable));
    assert_eq!(champion.gen(16), Err(ChampionError::NoDataAvailable));
}

#[test]
fn test_gen_length_bound() {
    let mut champion = Champion::new(4);
    champion.feed("abcdefgh".to_string()).unwrap();
    for n in 0..10 {
        let s = champion.gen(n).unwrap();
        assert!(s.chars().count() <= n as usize);
    }
}

#[test]
fn test_gen_two_outcomes() {
    // One training string "ab": the start is uniform between 'a' and 'b',
    // so the outcome is "ab" or "b"; over many trials both appear.
    let mut champion = Champion::new(5);
    champion.feed("ab".to_string()).unwrap();
    let mut saw_ab = 0usize;
    let mut saw_b = 0usize;
    for _ in 0..500 {
        match champion.gen(5).unwrap().as_str() {
            "ab" => saw_ab += 1,
            "b" => saw_b += 1,
            other => panic!("unexpected generation outcome {:?}", other),
        }
    }
    assert!(saw_ab > 0 && saw_b > 0);
}

#[test]
fn test_serialize_exact() {
    let mut champion = Champion::new(7);
    champion.feed("A".to_string()).unwrap();
    // One source 'A' (code 65) with one successor, the terminator
    // (code 0), seen once: five numbers of twenty digits each.
    let expected = "0000000000000000000100000000000000000065000000000000000000010000000000000000000000000000000000000001";
    assert_eq!(expected.to_string(), champion.serialize());
}

#[test]
fn test_roundtrip() {
    let mut champion = Champion::new(10);
    champion.feed("foo".to_string()).unwrap();
    champion.feed("bar".to_string()).unwrap();
    champion.feed("quux".to_string()).unwrap();

    let snapshot = champion.serialize();
    let mut restored = Champion::new(10);
    restored.deserialize(snapshot).unwrap();
    assert_eq!(champion, restored);
}

#[test]
fn test_deserialize_replaces_wholesale() {
    let mut champion = Champion::new(10);
    champion.feed("one".to_string()).unwrap();
    let snapshot = champion.serialize();

    let mut other = Champion::new(10);
    other.feed("two".to_string()).unwrap();
    other.deserialize(snapshot).unwrap();
    assert_eq!(champion, other);
}

#[test]
fn test_deserialize_malformed() {
    let mut champion = Champion::new(10);
    champion.feed("keep".to_string()).unwrap();
    let before = champion.serialize();

    assert_eq!(
        champion.deserialize("not a snapshot".to_string()),
        Err(ChampionError::MalformedSnapshotError)
    );
    // Too short for its own announced number of entries.
    assert_eq!(
        champion.deserialize("00000000000000000002".to_string()),
        Err(ChampionError::MalformedSnapshotError)
    );
    // A surrogate code point is no character.
    let bad_code = "0000000000000000000100000000000000055296000000000000000000010000000000000000000000000000000000000001";
    assert_eq!(
        champion.deserialize(bad_code.to_string()),
        Err(ChampionError::MalformedSnapshotError)
    );
    // A zero count must not exist.
    let zero_count = "0000000000000000000100000000000000000065000000000000000000010000000000000000000000000000000000000000";
    assert_eq!(
        champion.deserialize(zero_count.to_string()),
        Err(ChampionError::MalformedSnapshotError)
    );
    // A failed deserialization leaves the model unchanged.
    assert_eq!(before, champion.serialize());
}

#[test]
fn test_feed_skips_known_input() {
    // A second feeding of the same string is a no-op: the counts stay as
    // they were, so the snapshots agree.
    let mut champion = Champion::new(10);
    champion.feed("abc".to_string()).unwrap();
    let first = champion.serialize();
    champion.feed("abc".to_string()).unwrap();
    assert_eq!(first, champion.serialize());
}

#[test]
fn test_feed_counts_increase() {
    // Different strings over the same pairs do increment counts.
    let mut champion = Champion::new(10);
    champion.feed("ab".to_string()).unwrap();
    let first = champion.serialize();
    champion.feed("abab".to_string()).unwrap();
    assert_ne!(first, champion.serialize());
}

#[test]
fn test_split_nickname() {
    assert_eq!(Champion::split_nickname("".to_string()), None);
    let pairs = Champion::split_nickname("ab".to_string()).unwrap();
    assert_eq!(pairs, vec![vec!['a', 'b'], vec!['b', '\0']]);
}

#[test]
fn test_get_sum() {
    let letter: Vec<(char, u64)> = vec![('a', 2), ('b', 3)];
    assert_eq!(Champion::get_sum(&letter), 5);
    let empty: Vec<(char, u64)> = Vec::new();
    assert_eq!(Champion::get_sum(&empty), 0);
    let huge: Vec<(char, u64)> = vec![('a', u64::MAX), ('b', 3)];
    assert_eq!(Champion::get_sum(&huge), u64::MAX);
}

#[test]
fn test_get_next_letter() {
    let letter: Vec<(char, u64)> = vec![('x', 1), ('y', 4)];
    for _ in 0..50 {
        let c = Champion::get_next_letter(&letter).unwrap();
        assert!(c == 'x' || c == 'y');
    }
    let empty: Vec<(char, u64)> = Vec::new();
    assert_eq!(Champion::get_next_letter(&empty), None);
}
