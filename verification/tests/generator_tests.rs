use password_crack::PasswordGenerator;
use password_crack::password_generator_count;
use password_crack::Errors;

#[test]
fn generator_emits_in_order() {
    let mut g = PasswordGenerator::new(vec!['0', '1'], 1, 2);
    let mut words = Vec::new();
    while let Some(w) = g.next() {
        words.push(w);
    }
    assert_eq!(words, vec!["0", "1", "00", "01", "10", "11"]);
    assert!(g.next().is_none());
}

#[test]
fn generator_first_and_last_of_each_length() {
    let mut g = PasswordGenerator::new(vec!['a', 'b', 'c'], 2, 3);
    let mut words = Vec::new();
    while let Some(w) = g.next() {
        words.push(w);
    }
    assert_eq!(words.len(), 9 + 27);
    assert_eq!(words[0], "aa");
    assert_eq!(words[8], "cc");
    assert_eq!(words[9], "aaa");
    assert_eq!(words[35], "ccc");
    // all distinct
    let mut sorted = words.clone();
    sorted.sort();
    sorted.dedup();
    assert_eq!(sorted.len(), 36);
}

#[test]
fn generator_remaining_counts_down() {
    let mut g = PasswordGenerator::new(vec!['x', 'y'], 1, 3);
    assert_eq!(g.remaining(), 2 + 4 + 8);
    g.next();
    g.next();
    assert_eq!(g.remaining(), 12);
}

#[test]
fn count_exact_values() {
    assert_eq!(password_generator_count(&vec!['0'; 1], 1, 1).unwrap(), 1);
    let digits: Vec<char> = "0123456789".chars().collect();
    assert_eq!(password_generator_count(&digits, 1, 2).unwrap(), 110);
    assert_eq!(password_generator_count(&digits, 1, 6).unwrap(), 1111110);
    assert_eq!(password_generator_count(&digits, 3, 2).unwrap(), 0);
}

#[test]
fn count_overflow_is_fatal() {
    let big: Vec<char> = (0..100u32).map(|i| char::from_u32(1000 + i).unwrap()).collect();
    let r = password_generator_count(&big, 1, 12);
    assert!(matches!(r, Err(Errors::MathError { .. })));
}

#[test]
fn single_character_charset() {
    let mut g = PasswordGenerator::new(vec!['a'], 1, 4);
    let mut words = Vec::new();
    while let Some(w) = g.next() {
        words.push(w);
    }
    assert_eq!(words, vec!["a", "aa", "aaa", "aaaa"]);
}
