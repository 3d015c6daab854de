use sample_library::order::{key_less, key_of_text, sort_stably};
use sample_library::text::{begins_with, contains_text, decimal_text, same_text};

#[test]
fn text_is_compared_by_characters() {
    assert!(same_text("", ""));
    assert!(same_text("grün", "grün"));
    assert!(!same_text("a", "A"));
    assert!(!same_text("ab", "abc"));
    assert!(begins_with("/a/b", "/a"));
    assert!(begins_with("/ab", "/a"));
    assert!(begins_with("x", ""));
    assert!(!begins_with("/a", "/a/b"));
    assert!(contains_text("kick drum", "k d"));
    assert!(contains_text("kick", ""));
    assert!(contains_text("", ""));
    assert!(contains_text("aaab", "aab"));
    assert!(!contains_text("kick", "kicks"));
    assert!(!contains_text("kick", "K"));
}

#[test]
fn numbers_are_written_in_decimal() {
    for n in [0, 7, 10, 99, 100, 44100, 192000, u64::MAX] {
        assert_eq!(decimal_text(n), n.to_string());
    }
}

#[test]
fn keys_of_texts_order_as_texts_do() {
    let samples = ["", "a", "ab", "b", "ba", "é", "z", "zz", "\u{10000}", "\u{ffff}"];
    for a in samples {
        for b in samples {
            assert_eq!(key_less(&key_of_text(a), &key_of_text(b)), a < b, "{a:?} {b:?}");
        }
    }
}

#[test]
fn sorting_is_stable_in_both_directions() {
    let numbers = [3, 1, 2, 1, 3, 0, 1, -5];
    let keys: Vec<Vec<i64>> = numbers.iter().map(|n| vec![*n]).collect();
    assert_eq!(sort_stably(&keys, true), vec![7, 5, 1, 3, 6, 2, 0, 4]);
    assert_eq!(sort_stably(&keys, false), vec![0, 4, 2, 1, 3, 6, 5, 7]);
    let mut expected: Vec<usize> = (0..numbers.len()).collect();
    expected.sort_by(|a, b| numbers[*b].cmp(&numbers[*a]));
    assert_eq!(sort_stably(&keys, false), expected);
    assert_eq!(sort_stably(&Vec::new(), true), Vec::<usize>::new());
}

#[test]
fn empty_keys_leave_everything_in_place() {
    let keys: Vec<Vec<i64>> = vec![Vec::new(); 6];
    assert_eq!(sort_stably(&keys, true), vec![0, 1, 2, 3, 4, 5]);
    assert_eq!(sort_stably(&keys, false), vec![0, 1, 2, 3, 4, 5]);
}

#[test]
fn sorting_many_agrees_with_std() {
    let mut seed: u64 = 7;
    let mut keys: Vec<Vec<i64>> = Vec::new();
    for _ in 0..500 {
        seed = seed.wrapping_mul(6364136223846793005).wrapping_add(1442695040888963407);
        let len = (seed >> 60) as usize % 4;
        keys.push((0..len).map(|k| ((seed >> (8 * k)) % 5) as i64).collect());
    }
    let mut up: Vec<usize> = (0..keys.len()).collect();
    up.sort_by(|a, b| keys[*a].cmp(&keys[*b]));
    assert_eq!(sort_stably(&keys, true), up);
    let mut down: Vec<usize> = (0..keys.len()).collect();
    down.sort_by(|a, b| keys[*a].cmp(&keys[*b]).reverse());
    assert_eq!(sort_stably(&keys, false), down);
}
