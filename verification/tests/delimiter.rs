use structless::delimiter::{Delimiter, DelimiterParseErr};

#[test]
fn reads_a_pair() {
    assert_eq!(
        Delimiter::from_str("(<=>)"),
        Ok(Delimiter { start: '(', end: ')' })
    );
}

#[test]
fn takes_the_first_character_of_each_side() {
    assert_eq!(
        Delimiter::from_str("ab<=>cd"),
        Ok(Delimiter { start: 'a', end: 'c' })
    );
}

#[test]
fn reads_characters_beyond_ascii() {
    assert_eq!(
        Delimiter::from_str("\u{ab}<=>\u{bb}"),
        Ok(Delimiter { start: '\u{ab}', end: '\u{bb}' })
    );
}

#[test]
fn missing_separator() {
    assert_eq!(
        Delimiter::from_str("()"),
        Err(DelimiterParseErr::MissingSeparator)
    );
    assert_eq!(
        Delimiter::from_str(""),
        Err(DelimiterParseErr::MissingSeparator)
    );
    assert_eq!(
        Delimiter::from_str("(<=)"),
        Err(DelimiterParseErr::MissingSeparator)
    );
}

#[test]
fn too_many_separators() {
    assert_eq!(
        Delimiter::from_str("a<=>b<=>c"),
        Err(DelimiterParseErr::TooManyArgumentDelimiters)
    );
    assert_eq!(
        Delimiter::from_str("<=><=>"),
        Err(DelimiterParseErr::TooManyArgumentDelimiters)
    );
}

#[test]
fn a_side_without_a_character() {
    assert_eq!(
        Delimiter::from_str("<=>b"),
        Err(DelimiterParseErr::MustBeChar)
    );
    assert_eq!(
        Delimiter::from_str("a<=>"),
        Err(DelimiterParseErr::MustBeChar)
    );
    assert_eq!(Delimiter::from_str("<=>"), Err(DelimiterParseErr::MustBeChar));
}

#[test]
fn a_pair_is_written_as_it_is_read() {
    let pair = Delimiter { start: '(', end: ')' };
    assert_eq!(pair.to_string(), "(<=>)");
    assert_eq!(Delimiter::from_str(&pair.to_string()), Ok(pair));
}

#[test]
fn error_messages() {
    assert_eq!(
        DelimiterParseErr::MissingSeparator.to_string(),
        "Missing Delimiter Separator `<=>`"
    );
    assert_eq!(
        DelimiterParseErr::TooManyArgumentDelimiters.to_string(),
        "Expected exactly two delimiters: one start and one end delimiter"
    );
    assert_eq!(
        DelimiterParseErr::MustBeChar.to_string(),
        "Delimiter must be a char"
    );
}
