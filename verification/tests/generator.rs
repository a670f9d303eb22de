use passman::generator::{
    pick_from, swap_step,
    generate, GenOptions, AMBIGUOUS, DEFAULT_LENGTH, DIGITS, LOWERCASE, MAX_LENGTH, MIN_LENGTH,
    SYMBOLS, UPPERCASE,
};
use passman::Error;

fn has(class: &str, c: u8) -> bool {
    class.as_bytes().contains(&c)
}

#[test]
fn default_length_and_char_classes() {
    let options = GenOptions::default();
    let pw = generate(&options).unwrap();
    assert_eq!(pw.as_str().len(), DEFAULT_LENGTH);
    assert!(
        pw.as_str().bytes().any(|c| has(LOWERCASE, c))
            && pw.as_str().bytes().any(|c| has(UPPERCASE, c))
            && pw.as_str().bytes().any(|c| has(DIGITS, c))
            && pw.as_str().bytes().any(|c| has(SYMBOLS, c))
    );
}

#[test]
fn ambiguous_chars_excluded() {
    let options = GenOptions { exclude_ambiguous: true, ..Default::default() };
    let pw = generate(&options).unwrap();
    assert!(pw.as_str().bytes().all(|c| !has(AMBIGUOUS, c)));
}

#[test]
fn classes_without_symbols() {
    let options = GenOptions { symbols: false, length: 16, ..Default::default() };
    let pw = generate(&options).unwrap();
    assert_eq!(pw.as_str().len(), 16);
    assert!(pw.as_str().bytes().all(|c| !has(SYMBOLS, c)));
}

#[test]
fn rejects_bad_length() {
    let options = GenOptions { length: MIN_LENGTH - 1, ..Default::default() };
    assert!(generate(&options).is_err());
    let options = GenOptions { length: MAX_LENGTH + 1, ..Default::default() };
    assert!(generate(&options).is_err());
}

#[test]
fn rejects_no_classes() {
    let options = GenOptions {
        lowercase: false,
        uppercase: false,
        digits: false,
        symbols: false,
        ..Default::default()
    };
    assert!(generate(&options).is_err());
}

#[test]
fn generation_is_random() {
    let options = GenOptions::default();
    let a = generate(&options).unwrap();
    let b = generate(&options).unwrap();
    assert_ne!(a.as_str(), b.as_str());
}

#[test]
fn validate_reports_each_error() {
    let short = GenOptions { length: 7, ..Default::default() };
    assert_eq!(short.validate(), Err(Error::InvalidFormat("invalid password length")));
    let none = GenOptions { lowercase: false, uppercase: false, digits: false, symbols: false, ..Default::default() };
    assert_eq!(none.validate(), Err(Error::InvalidFormat("at least one character class must be enabled")));
    assert_eq!(GenOptions::default().validate(), Ok(()));
    assert_eq!(GenOptions { length: MIN_LENGTH, ..Default::default() }.validate(), Ok(()));
    assert_eq!(GenOptions { length: MAX_LENGTH, ..Default::default() }.validate(), Ok(()));
}

#[test]
fn alphabet_drops_ambiguous_only_when_asked() {
    let strict = GenOptions::default();
    let d: String = strict.alphabet(DIGITS).into_iter().collect();
    assert_eq!(d, "23456789");
    let u: String = strict.alphabet(UPPERCASE).into_iter().collect();
    assert_eq!(u, "ABCDEFGHJKLMNPQRSTUVWXYZ");
    let loose = GenOptions { exclude_ambiguous: false, ..Default::default() };
    let d: String = loose.alphabet(DIGITS).into_iter().collect();
    assert_eq!(d, "0123456789");
}

#[test]
fn single_class_passwords() {
    let options = GenOptions {
        lowercase: false,
        uppercase: false,
        digits: true,
        symbols: false,
        length: MAX_LENGTH,
        exclude_ambiguous: false,
    };
    let pw = generate(&options).unwrap();
    assert_eq!(pw.as_str().len(), MAX_LENGTH);
    assert!(pw.as_str().bytes().all(|c| c.is_ascii_digit()));
}

#[test]
fn pick_from_rejects_the_biased_tail() {
    let set: Vec<char> = "abc".chars().collect();
    assert_eq!(pick_from(&set, 0), Some('a'));
    assert_eq!(pick_from(&set, 4), Some('b'));
    assert_eq!(pick_from(&set, 254), Some('c'));
    assert_eq!(pick_from(&set, 255), None);
    let all: Vec<char> = (0..=255u8).map(|b| b as char).collect();
    assert_eq!(pick_from(&all, 255), Some(255u8 as char));
}

#[test]
fn swap_step_trades_places() {
    let mut v = vec!['a', 'b', 'c'];
    swap_step(&mut v, 2, 0);
    assert_eq!(v, vec!['c', 'b', 'a']);
    swap_step(&mut v, 1, 1);
    assert_eq!(v, vec!['c', 'b', 'a']);
}
