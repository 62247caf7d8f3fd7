use tr_core::class::{class_chars, expand_character_class};
use tr_core::error::ParseError;
use tr_core::number::parse_unsigned;
use tr_core::operand::{Char, CharRepetition, Equiv, Operand};
use tr_core::parse::{
    find_from, has_lone_backslash, parse_equiv, parse_repeated_char, parse_symbols,
};
use tr_core::range::{
    contains_single_range, is_range_readable, match_found, parse_octal, parse_ranges, parse_set,
    parse_string1_or_string2,
};
use tr_core::text::{chars_to_string, str_to_chars};

fn lit(c: char) -> Operand {
    Operand::Char(Char { char: c, char_repetition: CharRepetition::N(1) })
}

fn lits(text: &str) -> Vec<Operand> {
    text.chars().map(lit).collect()
}

fn repeated(c: char, n: usize) -> Operand {
    Operand::Char(Char { char: c, char_repetition: CharRepetition::N(n) })
}

fn as_needed(c: char) -> Operand {
    Operand::Char(Char { char: c, char_repetition: CharRepetition::AsManyAsNeeded })
}

fn class_of(c: char) -> Operand {
    Operand::Equiv(Equiv { char: c })
}

#[test]
fn upper_class_is_a_to_z() {
    let parsed = parse_string1_or_string2("[:upper:]").unwrap();
    let expected: Vec<Operand> = ('A'..='Z').map(lit).collect();
    assert_eq!(parsed.len(), 26);
    assert_eq!(parsed, expected);
}

#[test]
fn plain_range_is_written_out() {
    assert_eq!(parse_string1_or_string2("a-f").unwrap(), lits("abcdef"));
}

#[test]
fn range_mixed_with_other_symbols_is_no_range() {
    assert!(!contains_single_range("a-cx-z"));
    assert_eq!(parse_string1_or_string2("a-cx-z").unwrap(), lits("a-cx-z"));
}

#[test]
fn bracketed_range_is_written_out() {
    assert!(contains_single_range("[a-c]"));
    assert_eq!(parse_string1_or_string2("[a-c]").unwrap(), lits("abc"));
    assert_eq!(parse_string1_or_string2("[0-9]").unwrap(), lits("0123456789"));
}

#[test]
fn octal_range_is_written_out() {
    assert!(contains_single_range("\\141-\\143"));
    assert_eq!(parse_string1_or_string2("\\141-\\143").unwrap(), lits("abc"));
    assert_eq!(parse_string1_or_string2("[\\141-\\143]").unwrap(), lits("abc"));
}

#[test]
fn range_detection_takes_the_whole_string() {
    assert!(contains_single_range("a-z"));
    assert!(contains_single_range("A-Z"));
    assert!(contains_single_range("0-9"));
    assert!(contains_single_range("[abc-xyz]"));
    assert!(!contains_single_range("a"));
    assert!(!contains_single_range("a-"));
    assert!(!contains_single_range("-z"));
    assert!(!contains_single_range("a-zz"));
    assert!(!contains_single_range("\\1418-\\143"));
    assert!(!contains_single_range("[:upper:]"));
    assert!(!contains_single_range("a-z\n"));
    assert!(!contains_single_range(""));
}

#[test]
fn match_found_needs_a_match() {
    assert!(match_found(Some(true)));
    assert!(!match_found(Some(false)));
    assert!(!match_found(None));
}

#[test]
fn descending_range_is_empty() {
    assert_eq!(parse_string1_or_string2("z-a").unwrap(), Vec::<Operand>::new());
}

#[test]
fn range_of_one_octal_and_one_plain_bound_is_empty() {
    assert!(contains_single_range("[\\1-b]"));
    assert_eq!(parse_string1_or_string2("[\\1-b]").unwrap(), Vec::<Operand>::new());
}

#[test]
fn range_with_malformed_octal_bound_is_empty() {
    assert_eq!(parse_ranges("[\\18-\\19]").unwrap(), Vec::<Operand>::new());
    assert_eq!(parse_ranges("\\154000-\\154001").unwrap(), Vec::<Operand>::new());
}

#[test]
fn range_takes_first_characters_of_long_bounds() {
    assert_eq!(parse_ranges("[abc-dxy]").unwrap(), lits("abcd"));
}

#[test]
fn range_skips_surrogates() {
    let parsed = parse_ranges("\\153776-\\160001").unwrap();
    assert_eq!(
        parsed,
        vec![lit('\u{D7FE}'), lit('\u{D7FF}'), lit('\u{E000}'), lit('\u{E001}')]
    );
}

#[test]
fn range_trims_every_bracket_at_the_ends() {
    assert_eq!(parse_ranges("[[a-c]]]").unwrap(), lits("abc"));
    assert_eq!(parse_ranges("a-c-z").unwrap(), lits("abc"));
}

#[test]
fn range_without_separator_fails() {
    assert_eq!(parse_ranges("abc"), Err(ParseError::IterationFailed));
    assert_eq!(parse_ranges("[]"), Err(ParseError::IterationFailed));
}

#[test]
fn range_readability() {
    assert!(is_range_readable("a-z"));
    assert!(is_range_readable("abc"));
    assert!(is_range_readable("\\1-"));
    assert!(!is_range_readable("-"));
    assert!(!is_range_readable("a-"));
    assert!(!is_range_readable("-z"));
}

#[test]
fn parse_set_follows_the_decision() {
    assert_eq!(parse_set("a-c", true).unwrap(), lits("abc"));
    assert_eq!(parse_set("a-c", false).unwrap(), lits("a-c"));
    assert_eq!(parse_set("-", true), Err(ParseError::IterationFailed));
    assert_eq!(parse_set("abc", true), Err(ParseError::IterationFailed));
}

#[test]
fn parse_octal_reads_codes() {
    assert_eq!(parse_octal("101"), Some('A'));
    assert_eq!(parse_octal("+101"), Some('A'));
    assert_eq!(parse_octal("0"), Some('\0'));
    assert_eq!(parse_octal("4177777"), Some('\u{10FFFF}'));
    assert_eq!(parse_octal("4200000"), None);
    assert_eq!(parse_octal("154000"), None);
    assert_eq!(parse_octal("18"), None);
    assert_eq!(parse_octal(""), None);
    assert_eq!(parse_octal("+"), None);
    assert_eq!(parse_octal("-1"), None);
    assert_eq!(parse_octal("77777777777777777777"), None);
}

#[test]
fn parse_unsigned_reads_numbers() {
    let text: Vec<char> = "1234".chars().collect();
    assert_eq!(parse_unsigned(&text, 10, u64::MAX), Some(1234));
    assert_eq!(parse_unsigned(&text, 8, u64::MAX), Some(0o1234));
    assert_eq!(parse_unsigned(&text, 10, 1233), None);
    assert_eq!(parse_unsigned(&text, 10, 1234), Some(1234));
    let max: Vec<char> = "18446744073709551615".chars().collect();
    assert_eq!(parse_unsigned(&max, 10, u64::MAX), Some(u64::MAX));
    let over: Vec<char> = "18446744073709551616".chars().collect();
    assert_eq!(parse_unsigned(&over, 10, u64::MAX), None);
    let eight: Vec<char> = "8".chars().collect();
    assert_eq!(parse_unsigned(&eight, 8, u64::MAX), None);
    let signed: Vec<char> = "+7".chars().collect();
    assert_eq!(parse_unsigned(&signed, 8, u64::MAX), Some(7));
    let twice: Vec<char> = "++7".chars().collect();
    assert_eq!(parse_unsigned(&twice, 8, u64::MAX), None);
    let wide: Vec<char> = "\u{661}".chars().collect();
    assert_eq!(parse_unsigned(&wide, 10, u64::MAX), None);
    assert_eq!(parse_unsigned(&[], 10, u64::MAX), None);
    let hex: Vec<char> = "fF".chars().collect();
    assert_eq!(parse_unsigned(&hex, 16, u64::MAX), Some(255));
    assert_eq!(parse_unsigned(&hex, 15, u64::MAX), None);
    let last: Vec<char> = "zZ".chars().collect();
    assert_eq!(parse_unsigned(&last, 36, u64::MAX), Some(35 * 36 + 35));
}

#[test]
fn escaped_octal_is_one_character() {
    assert_eq!(parse_string1_or_string2("\\101").unwrap(), vec![lit('A')]);
}

#[test]
fn octal_escape_takes_at_most_three_digits() {
    assert_eq!(parse_symbols("\\1012").unwrap(), vec![lit('A'), lit('2')]);
    assert_eq!(parse_symbols("\\18").unwrap(), vec![lit('\u{1}'), lit('8')]);
    assert_eq!(parse_symbols("\\0").unwrap(), vec![lit('\0')]);
    assert_eq!(parse_symbols("\\377").unwrap(), vec![lit('\u{FF}')]);
    assert_eq!(parse_symbols("a\\12b").unwrap(), vec![lit('a'), lit('\n'), lit('b')]);
}

#[test]
fn octal_escape_beyond_a_byte_fails() {
    assert_eq!(
        parse_symbols("\\400"),
        Err(ParseError::InvalidOctalSequence("400".to_owned()))
    );
    assert_eq!(
        parse_symbols("ab\\777cd"),
        Err(ParseError::InvalidOctalSequence("777".to_owned()))
    );
}

#[test]
fn named_escapes() {
    assert_eq!(
        parse_symbols("\\a\\b\\t\\n\\v\\f\\r\\\\").unwrap(),
        vec![
            lit('\u{7}'),
            lit('\u{8}'),
            lit('\t'),
            lit('\n'),
            lit('\u{b}'),
            lit('\u{c}'),
            lit('\r'),
            lit('\\')
        ]
    );
}

#[test]
fn other_escaped_characters_stand_for_themselves() {
    assert_eq!(parse_symbols("\\x\\[\\-\\9").unwrap(), lits("x[-9"));
}

#[test]
fn backslash_at_the_end_is_a_backslash() {
    assert_eq!(parse_symbols("a\\").unwrap(), lits("a\\"));
    assert!(has_lone_backslash("a\\"));
    assert!(has_lone_backslash("\\"));
    assert!(!has_lone_backslash("a\\\\"));
    assert!(!has_lone_backslash("a"));
    assert!(!has_lone_backslash(""));
    assert!(!has_lone_backslash("[ab\\"));
    assert!(!has_lone_backslash("[:nope:]\\"));
    assert!(has_lone_backslash("[:digit:]\\"));
}

#[test]
fn plain_characters() {
    assert_eq!(parse_symbols("abc").unwrap(), lits("abc"));
    assert_eq!(parse_symbols("").unwrap(), Vec::<Operand>::new());
    assert_eq!(parse_symbols("é-ü").unwrap(), lits("é-ü"));
}

#[test]
fn repeat_without_count_is_as_many_as_needed() {
    assert_eq!(parse_string1_or_string2("[x*0]").unwrap(), vec![as_needed('x')]);
    assert_eq!(parse_string1_or_string2("[x*]").unwrap(), vec![as_needed('x')]);
    assert_eq!(parse_symbols("[x*000]").unwrap(), vec![as_needed('x')]);
    assert_eq!(parse_symbols("[x*+0]").unwrap(), vec![as_needed('x')]);
}

#[test]
fn repeat_counts_are_octal_or_decimal() {
    assert_eq!(parse_symbols("[x*10]").unwrap(), vec![repeated('x', 10)]);
    assert_eq!(parse_symbols("[x*010]").unwrap(), vec![repeated('x', 8)]);
    assert_eq!(parse_symbols("[x*3]y").unwrap(), vec![repeated('x', 3), lit('y')]);
    assert_eq!(parse_symbols("[]*2]").unwrap(), vec![repeated(']', 2)]);
    assert_eq!(parse_symbols("[**4]").unwrap(), vec![repeated('*', 4)]);
    assert_eq!(
        parse_symbols("[x*18446744073709551615]").unwrap(),
        vec![repeated('x', usize::MAX)]
    );
}

#[test]
fn invalid_repeat_counts() {
    assert_eq!(
        parse_symbols("[x*y]"),
        Err(ParseError::InvalidRepeatCount("y".to_owned()))
    );
    assert_eq!(
        parse_symbols("[x*08]"),
        Err(ParseError::InvalidRepeatCount("08".to_owned()))
    );
    assert_eq!(
        parse_symbols("[x*18446744073709551616]"),
        Err(ParseError::InvalidRepeatCount("18446744073709551616".to_owned()))
    );
    assert_eq!(
        parse_symbols("[x*-1]"),
        Err(ParseError::InvalidRepeatCount("-1".to_owned()))
    );
}

#[test]
fn parse_repeated_char_reads_the_construct() {
    let run = str_to_chars("[a*12]");
    assert_eq!(parse_repeated_char(&run), Ok(repeated('a', 12)));
    let bare = str_to_chars("[a*]");
    assert_eq!(parse_repeated_char(&bare), Ok(as_needed('a')));
    let bad = str_to_chars("[a*1x]");
    assert_eq!(
        parse_repeated_char(&bad),
        Err(ParseError::InvalidRepeatCount("1x".to_owned()))
    );
}

#[test]
fn equivalence_classes() {
    assert_eq!(parse_symbols("[=e=]").unwrap(), vec![class_of('e')]);
    assert_eq!(parse_symbols("[=ab=]").unwrap(), vec![class_of('a'), class_of('b')]);
    assert_eq!(parse_symbols("x[=e=]y").unwrap(), vec![lit('x'), class_of('e'), lit('y')]);
    assert_eq!(parse_symbols("[=]=]").unwrap(), vec![class_of(']')]);
    assert_eq!(parse_symbols("[=*=]").unwrap(), vec![class_of('*')]);
}

#[test]
fn equivalence_class_errors() {
    assert_eq!(parse_symbols("[==]"), Err(ParseError::MissingEquivSymbol));
    assert_eq!(parse_symbols("[=a=b=]"), Err(ParseError::MissingEquivBracket));
    let open = str_to_chars("[=ab");
    assert_eq!(parse_equiv(&open), Err(ParseError::MissingEquivEquals));
    let bare = str_to_chars("[=");
    assert_eq!(parse_equiv(&bare), Err(ParseError::MissingEquivSymbol));
    let unclosed = str_to_chars("[=a=");
    assert_eq!(parse_equiv(&unclosed), Err(ParseError::MissingEquivBracket));
    let closed = str_to_chars("[=a=]");
    assert_eq!(parse_equiv(&closed), Ok(vec![class_of('a')]));
}

#[test]
fn classes_expand_in_table_order() {
    assert_eq!(parse_symbols("[:digit:]").unwrap(), lits("0123456789"));
    assert_eq!(parse_symbols("[:lower:]").unwrap(), lits("abcdefghijklmnopqrstuvwxyz"));
    assert_eq!(
        parse_symbols("[:alpha:]").unwrap(),
        lits("ABCDEFGHIJKLMNOPQRSTUVWXYZabcdefghijklmnopqrstuvwxyz")
    );
    assert_eq!(
        parse_symbols("[:alnum:]").unwrap(),
        lits("0123456789ABCDEFGHIJKLMNOPQRSTUVWXYZabcdefghijklmnopqrstuvwxyz")
    );
    assert_eq!(parse_symbols("[:xdigit:]").unwrap(), lits("0123456789ABCDEFabcdef"));
    assert_eq!(parse_symbols("[:space:]").unwrap(), lits(" \t\n\r\u{b}\u{c}"));
    assert_eq!(parse_symbols("[:blank:]").unwrap(), lits(" \t"));
    assert_eq!(
        parse_symbols("[:punct:]").unwrap(),
        lits("!\"#$%&'()*+,-./:;<=>?@[\\]^_`{|}~")
    );
}

#[test]
fn classes_by_code() {
    let cntrl = class_chars("cntrl").unwrap();
    assert_eq!(cntrl.len(), 33);
    assert_eq!(cntrl[0], '\0');
    assert_eq!(cntrl[31], '\u{1f}');
    assert_eq!(cntrl[32], '\u{7f}');
    let graph = class_chars("graph").unwrap();
    assert_eq!(graph.len(), 94);
    assert_eq!(graph[0], '!');
    assert_eq!(graph[93], '~');
    let print = class_chars("print").unwrap();
    assert_eq!(print.len(), 95);
    assert_eq!(print[0], ' ');
    assert_eq!(print[94], '~');
    assert_eq!(class_chars("upper").unwrap().len(), 26);
    assert_eq!(class_chars("Upper"), None);
    assert_eq!(class_chars(""), None);
}

#[test]
fn unknown_class_fails() {
    assert_eq!(parse_symbols("[:foo:]"), Err(ParseError::InvalidClassName));
    assert_eq!(parse_symbols("[::]"), Err(ParseError::InvalidClassName));
    assert_eq!(parse_symbols("[:*:]"), Err(ParseError::InvalidClassName));
    assert_eq!(parse_symbols("a[:upper :]"), Err(ParseError::InvalidClassName));
}

#[test]
fn expand_character_class_appends() {
    let mut operands = vec![lit('x')];
    assert_eq!(expand_character_class("blank", &mut operands), Ok(()));
    assert_eq!(operands, lits("x \t"));
    assert_eq!(
        expand_character_class("nope", &mut operands),
        Err(ParseError::InvalidClassName)
    );
    assert_eq!(operands, lits("x \t"));
}

#[test]
fn unrecognized_bracket_runs_are_plain_characters() {
    assert_eq!(parse_symbols("[abc]").unwrap(), lits("[abc]"));
    assert_eq!(parse_symbols("[a-z]x").unwrap(), lits("[a-z]x"));
    assert_eq!(parse_symbols("[:]x]").unwrap(), lits("[:]x]"));
    assert_eq!(parse_symbols("[ab").unwrap(), lits("[ab"));
    assert_eq!(parse_symbols("[").unwrap(), lits("["));
    assert_eq!(parse_symbols("[]]").unwrap(), lits("[]]"));
    assert_eq!(parse_symbols("[a]b]c").unwrap(), lits("[a]b]c"));
    assert_eq!(parse_symbols("[\\n]").unwrap(), lits("[\\n]"));
}

#[test]
fn bracket_run_ends_at_first_late_bracket() {
    assert_eq!(
        parse_symbols("[:digit:][x*2]").unwrap(),
        [lits("0123456789"), vec![repeated('x', 2)]].concat()
    );
    assert_eq!(parse_symbols("[ab]c]d").unwrap(), lits("[ab]c]d"));
}

#[test]
fn find_from_gives_first_index_or_length() {
    let chars = str_to_chars("a=b=c");
    assert_eq!(find_from(&chars, 0, '='), 1);
    assert_eq!(find_from(&chars, 2, '='), 3);
    assert_eq!(find_from(&chars, 4, '='), 5);
    assert_eq!(find_from(&chars, 5, '='), 5);
}

#[test]
fn strings_and_characters_convert() {
    assert_eq!(str_to_chars("héllo"), vec!['h', 'é', 'l', 'l', 'o']);
    assert_eq!(chars_to_string(&['h', 'é', 'l', 'l', 'o']), "héllo");
    assert_eq!(chars_to_string(&[]), "");
}
