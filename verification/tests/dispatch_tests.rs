use tr_core::args::Args;
use tr_core::dispatch::{backslash_warnings, filter_chars, run, tr, transform, translate};
use tr_core::error::{ArgumentError, ParseError, SemanticError, TrError};
use tr_core::operand::{Char, CharRepetition, Operand};

fn args(flags: &str, string1: &str, string2: Option<&str>) -> Args {
    Args {
        delete: flags.contains('d'),
        squeeze_repeats: flags.contains('s'),
        complement_val: flags.contains('c'),
        complement_char: flags.contains('C'),
        string1: string1.to_owned(),
        string2: string2.map(|s| s.to_owned()),
    }
}

fn plain(c: char) -> Operand {
    Operand::Char(Char { char: c, char_repetition: CharRepetition::N(1) })
}

#[test]
fn delete_removes_members() {
    assert_eq!(tr(&args("d", "a", None), "banana"), Ok("bnn".to_owned()));
}

#[test]
fn delete_complement_keeps_members() {
    assert_eq!(tr(&args("dc", "a", None), "banana"), Ok("aaa".to_owned()));
    assert_eq!(tr(&args("dC", "an", None), "banana"), Ok("anana".to_owned()));
}

#[test]
fn delete_then_squeeze_by_second_set() {
    assert_eq!(tr(&args("ds", "a", Some("n")), "banana"), Ok("bn".to_owned()));
    assert_eq!(tr(&args("ds", "a", None), "banana"), Ok("bnn".to_owned()));
    assert_eq!(tr(&args("d", "a", Some("n")), "banana"), Ok("bnn".to_owned()));
}

#[test]
fn squeeze_only_uses_first_set() {
    assert_eq!(tr(&args("s", "a", None), "aaab"), Ok("ab".to_owned()));
    assert_eq!(tr(&args("s", "a", None), "aaabaaa"), Ok("ab".to_owned()));
    assert_eq!(tr(&args("s", "ab", None), "aabbccaabb"), Ok("abcc".to_owned()));
}

#[test]
fn translate_maps_positions() {
    assert_eq!(tr(&args("", "abc", Some("xyz")), "cab"), Ok("zxy".to_owned()));
}

#[test]
fn translate_leaves_other_characters() {
    assert_eq!(tr(&args("", "abc", Some("xyz")), "a quick cab"), Ok("x quizk zxy".to_owned()));
    assert_eq!(tr(&args("", "abc", Some("xyz")), "défi"), Ok("défi".to_owned()));
}

#[test]
fn translate_with_classes_and_ranges() {
    assert_eq!(
        tr(&args("", "[:lower:]", Some("[:upper:]")), "hello, world"),
        Ok("HELLO, WORLD".to_owned())
    );
    assert_eq!(tr(&args("", "a-z", Some("A-Z")), "hello"), Ok("HELLO".to_owned()));
    assert_eq!(tr(&args("", "\\n", Some(" ")), "a\nb\n"), Ok("a b ".to_owned()));
}

#[test]
fn translate_pads_second_set() {
    assert_eq!(tr(&args("", "abcd", Some("xy")), "abcd"), Ok("xyyy".to_owned()));
    assert_eq!(tr(&args("", "abcd", Some("[x*]y")), "abcd"), Ok("xxxy".to_owned()));
}

#[test]
fn translate_then_squeeze_by_second_set() {
    assert_eq!(tr(&args("s", "a", Some("b")), "aab"), Ok("b".to_owned()));
    assert_eq!(tr(&args("s", "abc", Some("xyx")), "abcabc"), Ok("xy".to_owned()));
}

#[test]
fn complement_replaces_what_the_first_set_lacks() {
    assert_eq!(tr(&args("C", "a", Some("xy")), "banana"), Ok("xayaxa".to_owned()));
    assert_eq!(tr(&args("c", "a", Some("zyx")), "bcd"), Ok("xyz".to_owned()));
    assert_eq!(tr(&args("C", "a", Some("zyx")), "bcd"), Ok("zyx".to_owned()));
    assert_eq!(tr(&args("cs", "a", Some("x")), "bcad"), Ok("xa".to_owned()));
}

#[test]
fn complement_with_empty_second_string() {
    assert_eq!(
        tr(&args("c", "a", Some("")), "ab"),
        Err(TrError::Semantic(SemanticError::IndexingFailed))
    );
    assert_eq!(tr(&args("c", "a", Some("")), "aa"), Ok("aa".to_owned()));
}

#[test]
fn translate_needs_a_second_set_with_operands() {
    assert_eq!(
        tr(&args("", "a", Some("")), "abc"),
        Err(TrError::Semantic(SemanticError::EmptyString2))
    );
    assert_eq!(translate("abc", &[plain('a')], None), Err(SemanticError::MissingOperand));
    assert_eq!(translate("abc", &[plain('a')], Some(&[])), Err(SemanticError::EmptyString2));
    assert_eq!(translate("abc", &[plain('a')], Some(&[plain('x')])), Ok("xbc".to_owned()));
}

#[test]
fn semantic_errors_come_through() {
    assert_eq!(
        tr(&args("", "[a*]", Some("x")), "abc"),
        Err(TrError::Semantic(SemanticError::RepeatInString1))
    );
    assert_eq!(
        tr(&args("", "abc", Some("[x*][y*]")), "abc"),
        Err(TrError::Semantic(SemanticError::MultipleRepeatsInString2))
    );
    assert_eq!(
        tr(&args("", "[=a=]", Some("x")), "abc"),
        Err(TrError::Semantic(SemanticError::ExpectationViolated))
    );
}

#[test]
fn parse_errors_come_through_first_string_first() {
    assert_eq!(
        tr(&args("", "[:nope:]", Some("[x*y]")), "abc"),
        Err(TrError::Parse(ParseError::InvalidClassName))
    );
    assert_eq!(
        tr(&args("", "abc", Some("[x*y]")), "abc"),
        Err(TrError::Parse(ParseError::InvalidRepeatCount("y".to_owned())))
    );
    assert_eq!(
        tr(&args("d", "\\777", None), "abc"),
        Err(TrError::Parse(ParseError::InvalidOctalSequence("777".to_owned())))
    );
}

#[test]
fn filter_chars_both_ways() {
    assert_eq!(filter_chars("banana", &[plain('a')], false), "bnn");
    assert_eq!(filter_chars("banana", &[plain('a')], true), "aaa");
    assert_eq!(filter_chars("", &[plain('a')], true), "");
}

#[test]
fn transform_works_on_read_sets() {
    let abc = [plain('a'), plain('b'), plain('c')];
    let xyz = [plain('x'), plain('y'), plain('z')];
    assert_eq!(transform(&args("", "", None), &abc, Some(&xyz), "cab"), Ok("zxy".to_owned()));
    assert_eq!(transform(&args("d", "", None), &abc, None, "cabd"), Ok("d".to_owned()));
    assert_eq!(transform(&args("s", "", None), &abc, None, "aabbd"), Ok("abd".to_owned()));
    assert_eq!(
        transform(&args("", "", None), &abc, None, "cab"),
        Err(SemanticError::MissingOperand)
    );
}

#[test]
fn validation_rejects_conflicting_complements() {
    assert_eq!(
        args("cC", "a", Some("b")).validate_args(),
        Err(ArgumentError::ConflictingComplements)
    );
    assert_eq!(
        args("cCs", "", None).validate_args(),
        Err(ArgumentError::ConflictingComplements)
    );
}

#[test]
fn validation_rejects_squeezed_complement_with_one_string() {
    assert_eq!(
        args("sc", "a", None).validate_args(),
        Err(ArgumentError::ComplementNeedsTwoStrings)
    );
    assert_eq!(
        args("sC", "a", None).validate_args(),
        Err(ArgumentError::ComplementNeedsTwoStrings)
    );
    assert_eq!(args("scd", "a", None).validate_args(), Ok(()));
}

#[test]
fn validation_rejects_translation_with_one_string() {
    assert_eq!(args("", "a", None).validate_args(), Err(ArgumentError::NeedTwoStrings));
    assert_eq!(args("c", "a", None).validate_args(), Err(ArgumentError::NeedTwoStrings));
    assert_eq!(args("", "", None).validate_args(), Err(ArgumentError::NeedTwoStrings));
}

#[test]
fn validation_rejects_empty_first_string() {
    assert_eq!(args("", "", Some("b")).validate_args(), Err(ArgumentError::EmptyString1));
    assert_eq!(args("d", "", None).validate_args(), Err(ArgumentError::EmptyString1));
}

#[test]
fn validation_accepts_what_fits() {
    assert_eq!(args("", "a", Some("b")).validate_args(), Ok(()));
    assert_eq!(args("d", "a", None).validate_args(), Ok(()));
    assert_eq!(args("s", "a", None).validate_args(), Ok(()));
    assert_eq!(args("c", "a", Some("b")).validate_args(), Ok(()));
    assert_eq!(args("Cs", "a", Some("b")).validate_args(), Ok(()));
}

#[test]
fn run_validates_first() {
    assert_eq!(
        run(&args("cC", "[:nope:]", Some("b")), "abc"),
        Err(TrError::Argument(ArgumentError::ConflictingComplements))
    );
    assert_eq!(
        run(&args("", "a", None), "abc"),
        Err(TrError::Argument(ArgumentError::NeedTwoStrings))
    );
    assert_eq!(run(&args("", "abc", Some("xyz")), "cab"), Ok("zxy".to_owned()));
    assert_eq!(
        run(&args("d", "[:nope:]", None), "abc"),
        Err(TrError::Parse(ParseError::InvalidClassName))
    );
}

#[test]
fn backslash_warnings_for_each_string() {
    assert_eq!(backslash_warnings(&args("", "a\\", Some("b\\"))), (true, true));
    assert_eq!(backslash_warnings(&args("", "a\\\\", Some("b\\"))), (false, true));
    assert_eq!(backslash_warnings(&args("", "a\\", Some("b"))), (true, false));
    assert_eq!(backslash_warnings(&args("d", "a\\", None)), (true, false));
    assert_eq!(backslash_warnings(&args("", "[:nope:]", Some("b\\"))), (false, false));
    assert_eq!(backslash_warnings(&args("", "a-z", Some("A-Z"))), (false, false));
}
