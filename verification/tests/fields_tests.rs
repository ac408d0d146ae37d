use nomap::shared::Fields;

fn expected_pairs(ps: &[(&[u8], &[u8])]) -> Fields {
    let mut f = Fields::new();
    for (k, v) in ps {
        f.insert(k.to_vec(), v.to_vec());
    }
    f
}

#[test]
fn fields() {
    let input = r#""classname" "func_parser"
                "good" "yes""#;
    let (f, used) = Fields::parse(input.as_bytes(), 0);
    assert_eq!(used, input.len());
    assert_eq!(
        f,
        expected_pairs(&[(b"classname", b"func_parser"), (b"good", b"yes")])
    );
}

#[test]
fn fields_weird() {
    let input = r#""classname" // don't mind me, just commenting my entity fields
                        "func_parser"
               // no really
                "good" // SOMEONE's gotta find these comments helpful
                                                                                "no"
                                    "msg" // help, I'm horribly misaligned
                "evil message with \"quotes\" " // UH OH WATCH OUT
                "#;
    let (f, used) = Fields::parse(input.as_bytes(), 0);
    assert_eq!(used, input.len());
    assert_eq!(
        f,
        expected_pairs(&[
            (b"classname", b"func_parser"),
            (b"good", b"no"),
            (b"msg", br#"evil message with \"quotes\" "#),
        ])
    );
}

#[test]
fn fields_duplicate_key_last_wins() {
    let input = r#""a" "1" "b" "2" "a" "3""#;
    let (f, used) = Fields::parse(input.as_bytes(), 0);
    assert_eq!(used, input.len());
    assert_eq!(f.get(b"a"), Some(&b"3".to_vec()));
    assert_eq!(f.get(b"b"), Some(&b"2".to_vec()));
    assert_eq!(f.pairs.len(), 2);
}
