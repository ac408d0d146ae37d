use nomap::lexer::{digits, name, number, qstring, separator};
use nomap::shared::Fields;

#[test]
fn separator_skips_blanks_and_comments() {
    let s = b"  // one comment\n\t// another\n  x";
    assert_eq!(separator(s, 0), s.len() - 1);
    // a separator may be empty
    assert_eq!(separator(b"x y", 0), 0);
    // a comment without a line terminator is not a complete separator unit
    assert_eq!(separator(b"  // dangling", 0), 2);
}

#[test]
fn qstring_keeps_escapes_verbatim() {
    let s = br#""evil \"quotes\" here" rest"#;
    let (body, end) = qstring(s, 0).unwrap();
    assert_eq!(body, br#"evil \"quotes\" here"#.to_vec());
    assert_eq!(&s[end..], b" rest");
    // an unterminated run is a lexical failure
    assert!(qstring(b"\"no closing quote", 0).is_none());
    assert!(qstring(b"plain", 0).is_none());
}

#[test]
fn number_lexemes() {
    for (input, lexeme) in [
        (&b"105252 rest"[..], &b"105252"[..]),
        (b"3.14)", b"3.14"),
        (b".04 ", b".04"),
        (b"5. and on", b"5."),
        (b"-0 x", b"-0"),
        (b"+.5]", b"+.5"),
        (b"1e5,", b"1e5"),
        (b"1.5E-3 ", b"1.5E-3"),
        (b"1e", b"1"),
        (b"1e+", b"1"),
    ] {
        let (v, end) = number(input, 0).unwrap();
        assert_eq!(v, lexeme.to_vec(), "lexing {:?}", input);
        assert_eq!(end, lexeme.len());
    }
    assert!(number(b"", 0).is_none());
    assert!(number(b".x", 0).is_none());
    assert!(number(b"e5", 0).is_none());
    assert!(number(b"-", 0).is_none());
}

#[test]
fn name_is_the_maximal_nonblank_run() {
    let (n, end) = name(b"wizmet1_2 rest", 0);
    assert_eq!(n, b"wizmet1_2".to_vec());
    assert_eq!(end, 9);
    let (n, end) = name(b" leading", 0);
    assert_eq!(n, b"".to_vec());
    assert_eq!(end, 0);
}

#[test]
fn digits_scans_the_digit_run() {
    assert_eq!(digits(b"12345x", 0), 5);
    assert_eq!(digits(b"x12345", 0), 0);
}

#[test]
fn fields_into_inner_keeps_the_pairs() {
    let mut f = Fields::new();
    f.insert(b"a".to_vec(), b"1".to_vec());
    f.insert(b"b".to_vec(), b"2".to_vec());
    f.insert(b"a".to_vec(), b"3".to_vec());
    let pairs = f.into_inner();
    assert_eq!(
        pairs,
        vec![
            (b"a".to_vec(), b"3".to_vec()),
            (b"b".to_vec(), b"2".to_vec()),
        ]
    );
}
