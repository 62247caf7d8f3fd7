use tr_core::error::SemanticError;
use tr_core::operand::{
    compare_deunicoded_chars, push_literals, same_transliteration, Char, CharRepetition, Equiv,
    Operand,
};
use tr_core::range::parse_string1_or_string2;
use tr_core::translate::{flatten_operands, generate_transformation_hash_map};

fn single(c: char) -> Operand {
    Operand::Char(Char { char: c, char_repetition: CharRepetition::N(1) })
}

fn times(c: char, n: usize) -> Operand {
    Operand::Char(Char { char: c, char_repetition: CharRepetition::N(n) })
}

fn marker(c: char) -> Operand {
    Operand::Char(Char { char: c, char_repetition: CharRepetition::AsManyAsNeeded })
}

fn equiv(c: char) -> Operand {
    Operand::Equiv(Equiv { char: c })
}

fn set(text: &str) -> Vec<Operand> {
    parse_string1_or_string2(text).unwrap()
}

#[test]
fn map_is_positional() {
    let map = generate_transformation_hash_map(&set("abc"), &set("xyz")).unwrap();
    assert_eq!(map.get('a'), Some('x'));
    assert_eq!(map.get('b'), Some('y'));
    assert_eq!(map.get('c'), Some('z'));
    assert_eq!(map.get('d'), None);
    assert_eq!(map.get('x'), None);
    assert_eq!(map.translate('a'), 'x');
    assert_eq!(map.translate('q'), 'q');
}

#[test]
fn last_operand_is_padded_by_the_shortfall() {
    let map = generate_transformation_hash_map(&set("abcde"), &set("xy")).unwrap();
    assert_eq!(map.get('a'), Some('x'));
    assert_eq!(map.get('b'), Some('y'));
    assert_eq!(map.get('c'), Some('y'));
    assert_eq!(map.get('d'), Some('y'));
    assert_eq!(map.get('e'), Some('y'));
    assert_eq!(map.get('f'), None);
}

#[test]
fn marker_takes_the_shortfall() {
    let map = generate_transformation_hash_map(&set("abcde"), &set("x[y*]z")).unwrap();
    assert_eq!(map.get('a'), Some('x'));
    assert_eq!(map.get('b'), Some('y'));
    assert_eq!(map.get('c'), Some('y'));
    assert_eq!(map.get('d'), Some('y'));
    assert_eq!(map.get('e'), Some('z'));
}

#[test]
fn unused_marker_gives_nothing() {
    let map = generate_transformation_hash_map(&set("ab"), &set("x[y*]z")).unwrap();
    assert_eq!(map.get('a'), Some('x'));
    assert_eq!(map.get('b'), Some('z'));
}

#[test]
fn longer_second_set_is_cut() {
    let map = generate_transformation_hash_map(&set("ab"), &set("wxyz")).unwrap();
    assert_eq!(map.get('a'), Some('w'));
    assert_eq!(map.get('b'), Some('x'));
    assert_eq!(map.get('w'), None);
}

#[test]
fn later_position_wins() {
    let map = generate_transformation_hash_map(&set("aba"), &set("xyz")).unwrap();
    assert_eq!(map.get('a'), Some('z'));
    assert_eq!(map.get('b'), Some('y'));
}

#[test]
fn counts_flatten() {
    let map =
        generate_transformation_hash_map(&[times('a', 1), times('b', 1), times('c', 1)], &[
            times('x', 2),
            single('y'),
        ])
        .unwrap();
    assert_eq!(map.get('a'), Some('x'));
    assert_eq!(map.get('b'), Some('x'));
    assert_eq!(map.get('c'), Some('y'));
    assert_eq!(
        flatten_operands(&[times('x', 2), marker('m'), equiv('e'), times('z', 0), single('y')]),
        vec!['x', 'x', 'y']
    );
}

#[test]
fn empty_first_set_gives_empty_map() {
    let map = generate_transformation_hash_map(&[], &[]).unwrap();
    assert_eq!(map.get('a'), None);
}

#[test]
fn repeat_without_count_in_first_set_fails() {
    assert_eq!(
        generate_transformation_hash_map(&set("a[b*]"), &set("xyz")).err(),
        Some(SemanticError::RepeatInString1)
    );
}

#[test]
fn two_markers_in_second_set_fail() {
    assert_eq!(
        generate_transformation_hash_map(&set("abc"), &set("[x*][y*]")).err(),
        Some(SemanticError::MultipleRepeatsInString2)
    );
    assert_eq!(
        generate_transformation_hash_map(&set("abc"), &set("[x*]a[y*0]")).err(),
        Some(SemanticError::MultipleRepeatsInString2)
    );
}

#[test]
fn equivalence_class_in_a_translated_set_fails() {
    assert_eq!(
        generate_transformation_hash_map(&set("[=a=]"), &set("x")).err(),
        Some(SemanticError::ExpectationViolated)
    );
    assert_eq!(
        generate_transformation_hash_map(&set("a"), &set("[=x=]")).err(),
        Some(SemanticError::ExpectationViolated)
    );
}

#[test]
fn first_error_in_operand_order_is_reported() {
    assert_eq!(
        generate_transformation_hash_map(&[equiv('a'), marker('b')], &[]).err(),
        Some(SemanticError::ExpectationViolated)
    );
    assert_eq!(
        generate_transformation_hash_map(&[marker('b'), equiv('a')], &[equiv('x')]).err(),
        Some(SemanticError::RepeatInString1)
    );
    assert_eq!(
        generate_transformation_hash_map(&[single('a')], &[marker('x'), equiv('e'), marker('y')])
            .err(),
        Some(SemanticError::ExpectationViolated)
    );
}

#[test]
fn counts_that_overflow_fail() {
    assert_eq!(
        generate_transformation_hash_map(&[times('a', usize::MAX), single('b')], &[single('x')])
            .err(),
        Some(SemanticError::ArithmeticOverflow)
    );
    assert_eq!(
        generate_transformation_hash_map(&[single('a')], &[times('x', usize::MAX), times('y', 2)])
            .err(),
        Some(SemanticError::ArithmeticOverflow)
    );
}

#[test]
fn empty_second_set_cannot_be_extended() {
    assert_eq!(
        generate_transformation_hash_map(&[single('a')], &[]).err(),
        Some(SemanticError::EmptyCollection)
    );
}

#[test]
fn transliterations_compare() {
    assert!(compare_deunicoded_chars('e', 'e'));
    assert!(compare_deunicoded_chars('é', 'e'));
    assert!(compare_deunicoded_chars('É', 'E'));
    assert!(!compare_deunicoded_chars('é', 'a'));
    assert!(!compare_deunicoded_chars('e', 'E'));
    assert!(!compare_deunicoded_chars('a', 'b'));
}

#[test]
fn same_transliteration_compares_text() {
    assert!(same_transliteration(Some("ae"), Some("ae")));
    assert!(!same_transliteration(Some("ae"), Some("a")));
    assert!(!same_transliteration(Some("a"), None));
    assert!(!same_transliteration(None, Some("a")));
    assert!(same_transliteration(None, None));
}

#[test]
fn membership() {
    let plain = [single('a'), times('b', 3), marker('c')];
    assert!(Operand::contains(&plain, &'a'));
    assert!(Operand::contains(&plain, &'b'));
    assert!(Operand::contains(&plain, &'c'));
    assert!(!Operand::contains(&plain, &'d'));
    assert!(!Operand::contains(&plain, &'á'));
    assert!(!Operand::contains(&[], &'a'));
    let classes = [single('x'), equiv('e')];
    assert!(Operand::contains(&classes, &'e'));
    assert!(Operand::contains(&classes, &'é'));
    assert!(Operand::contains(&classes, &'ê'));
    assert!(Operand::contains(&classes, &'x'));
    assert!(!Operand::contains(&classes, &'E'));
    assert!(!Operand::contains(&classes, &'a'));
}

#[test]
fn stored_characters() {
    assert_eq!(single('a').char(), 'a');
    assert_eq!(equiv('e').char(), 'e');
    assert_eq!(marker('m').char(), 'm');
    assert_eq!(Operand::single('q'), single('q'));
}

#[test]
fn push_literals_appends_one_operand_for_each_character() {
    let mut operands = vec![equiv('e')];
    push_literals(&mut operands, &['a', 'b']);
    assert_eq!(operands, vec![equiv('e'), single('a'), single('b')]);
    push_literals(&mut operands, &[]);
    assert_eq!(operands.len(), 3);
}

#[test]
fn translate_chars_sends_each_character_through_the_map() {
    let map = generate_transformation_hash_map(&set("abc"), &set("xyz")).unwrap();
    assert_eq!(map.translate_chars(&['c', 'a', 'b', '!', 'c']), "zxy!z");
    assert_eq!(map.translate_chars(&[]), "");
}
