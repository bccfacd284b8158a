use portscan::args::{parse_thread_count, ArgError, Arguments, Word, DEFAULT_THREADS};
use portscan::config::Target;

const HOME: Target = Target::V4([127, 0, 0, 1]);

/// The words of an invocation; a word spells an address when it is in `known`.
fn words(texts: &[&str], known: &[(&str, Target)]) -> Vec<Word> {
    texts
        .iter()
        .map(|text| Word {
            text: text.to_string(),
            addr: known.iter().find(|(name, _)| name == text).map(|(_, addr)| *addr),
        })
        .collect()
}

fn resolve(texts: &[&str]) -> Result<Arguments, ArgError> {
    let known = [("127.0.0.1", HOME), ("::1", Target::V6([0, 0, 0, 0, 0, 0, 0, 1]))];
    Arguments::new(&words(texts, &known))
}

fn error_of(texts: &[&str]) -> ArgError {
    resolve(texts).unwrap_err()
}

#[test]
fn a_target_alone_gets_the_default_worker_count() {
    let arguments = resolve(&["scan", "127.0.0.1"]).unwrap();
    assert_eq!(arguments.ipaddr, HOME);
    assert_eq!(arguments.threads, 4);
    assert_eq!(arguments.threads, DEFAULT_THREADS);
    assert_eq!(arguments.flag, "");
    let arguments = resolve(&["scan", "::1"]).unwrap();
    assert_eq!(arguments.ipaddr, Target::V6([0, 0, 0, 0, 0, 0, 0, 1]));
    assert_eq!(arguments.threads, 4);
}

#[test]
fn the_threads_flag_sets_the_worker_count() {
    let arguments = resolve(&["scan", "-th", "100", "127.0.0.1"]).unwrap();
    assert_eq!(arguments.ipaddr, HOME);
    assert_eq!(arguments.threads, 100);
    assert_eq!(arguments.flag, "-th");
    let arguments = resolve(&["scan", "-th", "65535", "::1"]).unwrap();
    assert_eq!(arguments.threads, 65535);
    let arguments = resolve(&["scan", "-th", "0", "127.0.0.1"]).unwrap();
    assert_eq!(arguments.threads, 0);
}

#[test]
fn help_is_reported_for_either_spelling() {
    assert_eq!(error_of(&["scan", "-h"]), ArgError::Help);
    assert_eq!(error_of(&["scan", "-help"]), ArgError::Help);
}

#[test]
fn too_few_words_are_refused() {
    assert_eq!(error_of(&[]), ArgError::NotEnoughArguments);
    assert_eq!(error_of(&["scan"]), ArgError::NotEnoughArguments);
    assert_eq!(error_of(&["scan", "-th"]), ArgError::NotEnoughArguments);
    assert_eq!(error_of(&["scan", "-th", "8"]), ArgError::NotEnoughArguments);
}

#[test]
fn too_many_words_are_refused() {
    assert_eq!(
        error_of(&["scan", "-th", "8", "127.0.0.1", "more"]),
        ArgError::TooManyArguments
    );
    assert_eq!(error_of(&["scan", "127.0.0.1", "more"]), ArgError::TooManyArguments);
    assert_eq!(error_of(&["scan", "127.0.0.1", "8", "more"]), ArgError::TooManyArguments);
    assert_eq!(error_of(&["scan", "-h", "more"]), ArgError::TooManyArguments);
    assert_eq!(error_of(&["scan", "-help", "8", "127.0.0.1"]), ArgError::TooManyArguments);
}

#[test]
fn a_target_that_is_no_address_is_refused() {
    assert_eq!(error_of(&["scan", "-th", "8", "localhost"]), ArgError::InvalidAddress);
    assert_eq!(error_of(&["scan", "-th", "many", "localhost"]), ArgError::InvalidAddress);
}

#[test]
fn a_worker_count_that_is_no_number_is_refused() {
    assert_eq!(error_of(&["scan", "-th", "many", "127.0.0.1"]), ArgError::InvalidThreadCount);
    assert_eq!(error_of(&["scan", "-th", "65536", "127.0.0.1"]), ArgError::InvalidThreadCount);
    assert_eq!(error_of(&["scan", "-th", "-1", "127.0.0.1"]), ArgError::InvalidThreadCount);
    assert_eq!(error_of(&["scan", "-th", "", "127.0.0.1"]), ArgError::InvalidThreadCount);
}

#[test]
fn an_unknown_first_word_is_refused() {
    assert_eq!(error_of(&["scan", "localhost"]), ArgError::InvalidSyntax);
    assert_eq!(error_of(&["scan", "--help"]), ArgError::InvalidSyntax);
    assert_eq!(error_of(&["scan", "-t", "8", "127.0.0.1"]), ArgError::InvalidSyntax);
    assert_eq!(error_of(&["scan", "-thx", "8", "127.0.0.1"]), ArgError::InvalidSyntax);
    assert_eq!(error_of(&["scan", ""]), ArgError::InvalidSyntax);
}

#[test]
fn the_program_name_is_not_looked_at() {
    let arguments = resolve(&["-h", "127.0.0.1"]).unwrap();
    assert_eq!(arguments.threads, 4);
    assert_eq!(error_of(&["127.0.0.1", "-h"]), ArgError::Help);
}

#[test]
fn every_error_has_its_message() {
    assert_eq!(ArgError::Help.message(), "help");
    assert_eq!(ArgError::NotEnoughArguments.message(), "not enough arguments");
    assert_eq!(ArgError::TooManyArguments.message(), "too many arguments");
    assert_eq!(ArgError::InvalidAddress.message(), "Not a valid IPADDR; must be IPv4 or IPv6");
    assert_eq!(ArgError::InvalidThreadCount.message(), "failed to parse thread number");
    assert_eq!(ArgError::InvalidSyntax.message(), "invalid syntax");
}

#[test]
fn a_worker_count_is_read_from_decimal_digits() {
    assert_eq!(parse_thread_count("4"), Some(4));
    assert_eq!(parse_thread_count("0"), Some(0));
    assert_eq!(parse_thread_count("+4"), Some(4));
    assert_eq!(parse_thread_count("0004"), Some(4));
    assert_eq!(parse_thread_count("65535"), Some(65535));
    assert_eq!(parse_thread_count("+065535"), Some(65535));
    assert_eq!(parse_thread_count("000000000000000000000000065535"), Some(65535));
}

#[test]
fn a_worker_count_must_be_digits_that_fit() {
    assert_eq!(parse_thread_count(""), None);
    assert_eq!(parse_thread_count("+"), None);
    assert_eq!(parse_thread_count("++4"), None);
    assert_eq!(parse_thread_count("4+"), None);
    assert_eq!(parse_thread_count("-4"), None);
    assert_eq!(parse_thread_count("-0"), None);
    assert_eq!(parse_thread_count(" 4"), None);
    assert_eq!(parse_thread_count("4 "), None);
    assert_eq!(parse_thread_count("4a"), None);
    assert_eq!(parse_thread_count("0x10"), None);
    assert_eq!(parse_thread_count("1_000"), None);
    assert_eq!(parse_thread_count("65536"), None);
    assert_eq!(parse_thread_count("70000"), None);
    assert_eq!(parse_thread_count("99999999999999999999"), None);
    assert_eq!(parse_thread_count("4294967300"), None);
    assert_eq!(parse_thread_count("\u{ff14}"), None);
    assert_eq!(parse_thread_count("+\u{0664}"), None);
    assert_eq!(parse_thread_count("4\u{e9}"), None);
}

#[test]
fn a_worker_count_is_read_as_the_standard_library_reads_it() {
    let samples = [
        "", "+", "-", "0", "00", "+0", "-0", "1", "9", "10", "+10", "65534", "65535", "65536",
        "065535", "655350", "99999", "100000", "4294967296", "4294967300", "18446744073709551616",
        "12a", "a12", "1 2", " 12", "12 ", "+-1", "1+", "١٢", "12\n", "\t12", "1.0", "1e3",
    ];
    for sample in samples {
        assert_eq!(parse_thread_count(sample), sample.parse::<u16>().ok(), "for {:?}", sample);
    }
    for number in 0..=70000u32 {
        let text = number.to_string();
        assert_eq!(parse_thread_count(&text), text.parse::<u16>().ok());
    }
}
