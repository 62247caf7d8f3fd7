use std::collections::{HashMap, HashSet};
use tr_core::operand::{Char, CharRepetition, Operand};
use tr_core::squeeze::{check_repeatable, count_chars, squeeze, squeeze_chars};

fn one(c: char) -> Operand {
    Operand::Char(Char { char: c, char_repetition: CharRepetition::N(1) })
}

#[test]
fn squeeze_keeps_first_occurrence() {
    assert_eq!(squeeze("aaab", &[one('a')]), "ab");
    assert_eq!(squeeze("baaa", &[one('a')]), "ba");
    assert_eq!(squeeze("aaabbb", &[one('a'), one('b')]), "ab");
}

#[test]
fn squeeze_keeps_one_occurrence_of_two_runs() {
    assert_eq!(squeeze("aaabaaa", &[one('a')]), "ab");
}

#[test]
fn squeeze_drops_later_occurrences_wherever_they_stand() {
    assert_eq!(squeeze("abab", &[one('a')]), "abb");
    assert_eq!(squeeze("abcabc", &[one('a'), one('c')]), "abcb");
}

#[test]
fn squeeze_leaves_other_characters() {
    assert_eq!(squeeze("bbb", &[one('a')]), "bbb");
    assert_eq!(squeeze("abc", &[one('a'), one('b'), one('c')]), "abc");
    assert_eq!(squeeze("", &[one('a')]), "");
    assert_eq!(squeeze("aa", &[]), "aa");
}

#[test]
fn squeeze_chars_works_on_slices() {
    assert_eq!(squeeze_chars(&['x', 'x', 'y', 'x'], &[one('x')]), "xy");
}

#[test]
fn count_chars_is_the_histogram() {
    let counts = count_chars(&['a', 'b', 'a', 'é', 'a']);
    assert_eq!(counts.len(), 3);
    assert_eq!(counts[&('a' as u32)], 3);
    assert_eq!(counts[&('b' as u32)], 1);
    assert_eq!(counts[&('é' as u32)], 1);
    assert!(count_chars(&[]).is_empty());
}

#[test]
fn check_repeatable_tracks_what_was_seen() {
    let mut counts = HashMap::<u32, usize>::new();
    counts.insert('a' as u32, 2);
    counts.insert('b' as u32, 1);
    counts.insert('c' as u32, 2);
    let set = [one('a'), one('b')];
    let mut seen = HashSet::<u32>::new();
    assert!(check_repeatable('a', &counts, &mut seen, &set));
    assert!(seen.contains(&('a' as u32)));
    assert!(!check_repeatable('a', &counts, &mut seen, &set));
    assert!(check_repeatable('b', &counts, &mut seen, &set));
    assert!(check_repeatable('b', &counts, &mut seen, &set));
    assert!(!seen.contains(&('b' as u32)));
    assert!(check_repeatable('c', &counts, &mut seen, &set));
    assert!(check_repeatable('c', &counts, &mut seen, &set));
    assert_eq!(seen.len(), 1);
}
