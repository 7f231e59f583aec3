use rizzy::suggest::{distance, rank};

fn chars(word: &str) -> Vec<char> {
    word.chars().collect()
}

fn edit_distance(a: &str, b: &str) -> usize {
    distance(&chars(a), &chars(b))
}

#[test]
fn distance_counts_edits() {
    assert_eq!(edit_distance("kitten", "sitting"), 3);
    assert_eq!(edit_distance("flaw", "lawn"), 2);
    assert_eq!(edit_distance("America/NewYork", "America/New_York"), 1);
    assert_eq!(edit_distance("America/Chirago", "America/Chicago"), 1);
    assert_eq!(edit_distance("America/Chirago", "America/Chihuahua"), 5);
}

#[test]
fn distance_from_nothing_is_the_length() {
    assert_eq!(edit_distance("", ""), 0);
    assert_eq!(edit_distance("", "UTC"), 3);
    assert_eq!(edit_distance("Zulu", ""), 4);
}

#[test]
fn distance_to_itself_is_zero() {
    assert_eq!(edit_distance("Europe/Oslo", "Europe/Oslo"), 0);
}

#[test]
fn distance_is_the_same_both_ways() {
    assert_eq!(edit_distance("Sunday", "Saturday"), 3);
    assert_eq!(edit_distance("Saturday", "Sunday"), 3);
}

#[test]
fn distance_counts_characters_not_bytes() {
    assert_eq!(edit_distance("Zürich", "Zurich"), 1);
}

#[test]
fn rank_takes_the_nearest_first() {
    let dist = vec![5, 1, 3, 1, 0];
    assert_eq!(rank(&dist, 10), vec![4, 1, 3, 2, 0]);
    assert_eq!(rank(&dist, 3), vec![4, 1, 3]);
    assert_eq!(rank(&dist, 0), Vec::<usize>::new());
}

#[test]
fn rank_of_nothing_is_empty() {
    assert_eq!(rank(&Vec::new(), 10), Vec::<usize>::new());
}
