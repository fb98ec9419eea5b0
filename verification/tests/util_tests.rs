//! Small helpers: decimal text, string utilities, error messages.

use survey_store::error::DataError;
use survey_store::numbers::{dec_string, scan_dec};
use survey_store::strutil::{first_word_of, str_eq};

#[test]
fn dec_string_prints_canonical_decimals() {
    assert_eq!(dec_string(0), "0");
    assert_eq!(dec_string(7), "7");
    assert_eq!(dec_string(30), "30");
    assert_eq!(dec_string(1024), "1024");
}

#[test]
fn scan_dec_reads_leading_digit_runs() {
    assert_eq!(scan_dec("42selection", 0), Some((42, 2)));
    assert_eq!(scan_dec("0statement", 0), Some((0, 1)));
    assert_eq!(scan_dec("x12", 0), None);
    assert_eq!(scan_dec("x12", 1), Some((12, 3)));
    assert_eq!(scan_dec("", 0), None);
}

#[test]
fn scan_dec_rejects_values_beyond_machine_range() {
    // 2^64 does not fit a 64-bit usize (nor a 32-bit one).
    assert_eq!(scan_dec("18446744073709551616", 0), None);
}

#[test]
fn str_eq_compares_by_characters() {
    assert!(str_eq("", ""));
    assert!(str_eq("abc", "abc"));
    assert!(!str_eq("abc", "abd"));
    assert!(!str_eq("abc", "ab"));
    assert!(str_eq("\u{e4}\u{f6}", "\u{e4}\u{f6}"));
}

#[test]
fn first_word_skips_leading_spaces_and_stops_at_the_next() {
    assert_eq!(first_word_of("One Word"), "One");
    assert_eq!(first_word_of("  padded  out  "), "padded");
    assert_eq!(first_word_of("single"), "single");
    assert_eq!(first_word_of("   "), "");
    assert_eq!(first_word_of(""), "");
}

#[test]
fn error_messages_name_their_condition() {
    assert_eq!(DataError::NotFound.message(), "not found");
    assert_eq!(DataError::InvalidInput.message(), "invalid input");
    assert_eq!(DataError::InvalidState.message(), "invalid document state");
    assert_eq!(DataError::IoFailure.message(), "snapshot i/o failed");
    assert_eq!(DataError::LockFailure.message(), "exclusive access failed");
}
