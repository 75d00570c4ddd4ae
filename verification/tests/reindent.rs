use structless::delimiter::Delimiter;
use structless::reindent::{delimit_with, format_delimited, is_delimiter_end, is_delimiter_start};

fn parens() -> Vec<Delimiter> {
    vec![Delimiter { start: '(', end: ')' }]
}

#[test]
fn test_delimit() {
    let input = "asd ( inner ) outer";
    let r = delimit_with(
        &vec![Delimiter {
            start: '(',
            end: ')',
        }],
        input.as_bytes().into(),
    )
    .unwrap();
    println!("{:#?}", r);
    let formatted = format_delimited(r);
    println!("{}", String::from_utf8(formatted).unwrap());
}

#[test]
fn delimit_cuts_at_delimiters_and_tracks_depth() {
    let r = delimit_with(&parens(), "asd ( inner ) outer".as_bytes().to_vec()).unwrap();
    assert_eq!(
        r,
        vec![
            (0, b"asd (".to_vec()),
            (1, b"inner ".to_vec()),
            (0, b") outer".to_vec()),
        ]
    );
}

#[test]
fn format_indents_each_segment_by_its_depth() {
    let r = delimit_with(&parens(), "asd ( inner ) outer".as_bytes().to_vec()).unwrap();
    assert_eq!(format_delimited(r), b"asd (\n inner \n) outer\n".to_vec());
}

#[test]
fn delimit_of_empty_input_is_one_empty_segment() {
    let r = delimit_with(&parens(), Vec::new()).unwrap();
    assert_eq!(r, vec![(0, Vec::new())]);
    assert_eq!(format_delimited(r), b"\n".to_vec());
}

#[test]
fn delimit_drops_newlines_and_leading_spaces() {
    let r = delimit_with(&parens(), b"  a\nb(\n  c\n)".to_vec()).unwrap();
    assert_eq!(
        r,
        vec![(0, b"ab(".to_vec()), (1, b"c".to_vec()), (0, b")".to_vec())]
    );
}

#[test]
fn delimit_nests_two_levels() {
    let r = delimit_with(&parens(), b"a(b(c)d)e".to_vec()).unwrap();
    assert_eq!(
        r,
        vec![
            (0, b"a(".to_vec()),
            (1, b"b(".to_vec()),
            (2, b"c".to_vec()),
            (1, b")d".to_vec()),
            (0, b")e".to_vec()),
        ]
    );
    let r = delimit_with(&parens(), b"a(b(c)d)e".to_vec()).unwrap();
    assert_eq!(format_delimited(r), b"a(\n b(\n  c\n )d\n)e\n".to_vec());
}

#[test]
fn delimit_goes_below_zero_on_unmatched_end() {
    let r = delimit_with(&parens(), b"a)b".to_vec()).unwrap();
    assert_eq!(r, vec![(0, b"a".to_vec()), (-1, b")b".to_vec())]);
    assert_eq!(
        format_delimited(vec![(0, b"a".to_vec()), (-1, b")b".to_vec())]),
        b"a\n)b\n".to_vec()
    );
}

#[test]
fn start_wins_when_a_byte_is_start_and_end() {
    let bars = vec![Delimiter { start: '|', end: '|' }];
    let r = delimit_with(&bars, b"a|b|c".to_vec()).unwrap();
    assert_eq!(
        r,
        vec![(0, b"a|".to_vec()), (1, b"b|".to_vec()), (2, b"c".to_vec())]
    );
}

#[test]
fn several_delimiter_pairs() {
    let pairs = vec![
        Delimiter { start: '(', end: ')' },
        Delimiter { start: '[', end: ']' },
    ];
    assert!(is_delimiter_start(b'(', &pairs));
    assert!(is_delimiter_start(b'[', &pairs));
    assert!(!is_delimiter_start(b')', &pairs));
    assert!(is_delimiter_end(b']', &pairs));
    assert!(is_delimiter_end(b')', &pairs));
    assert!(!is_delimiter_end(b'(', &pairs));
    assert!(!is_delimiter_start(b'x', &Vec::new()));
}

#[test]
fn bytes_are_compared_as_latin_1_characters() {
    let pairs = vec![Delimiter { start: '\u{e9}', end: '\u{20ac}' }];
    assert!(is_delimiter_start(0xe9, &pairs));
    assert!(!is_delimiter_end(0xac, &pairs));
}
