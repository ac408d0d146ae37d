use nomap::grammar::{Parse, Render};
use nomap::shared::{Brush, Entity, Fields, Number, Plane, Texture, Vector3};
use nomap::valve::{Axes, Axis, Scale, TextureAlignment};
use nomap::{MapFile, ParseError, Standard, Valve};

fn n(text: &[u8]) -> Number {
    Number {
        text: text.to_vec(),
    }
}

fn zero3() -> Vector3 {
    Vector3 {
        x: n(b"0"),
        y: n(b"0"),
        z: n(b"0"),
    }
}

fn zero_axis() -> Axis {
    Axis {
        normal: zero3(),
        offset: n(b"0"),
    }
}

#[test]
fn roundtrip() {
    let mut fields = Fields::new();
    fields.insert(b"k".to_vec(), b"v".to_vec());
    let map = MapFile::<Valve> {
        entities: vec![Entity {
            fields,
            brushes: vec![Brush {
                planes: vec![Plane {
                    points: [zero3(), zero3(), zero3()],
                    texture: Texture {
                        name: b"texture".to_vec(),
                        alignment: TextureAlignment {
                            axes: Axes {
                                u: zero_axis(),
                                v: zero_axis(),
                            },
                            rotation: n(b"0"),
                            scale: Scale {
                                u: n(b"0"),
                                v: n(b"0"),
                            },
                        },
                    },
                }],
            }],
        }],
    };
    let text = map.render();
    let reparsed = nomap::parse::<Valve>(&text).unwrap();
    assert_eq!(reparsed, map);
}

#[test]
fn roundtrip_standard() {
    let mut fields = Fields::new();
    fields.insert(b"classname".to_vec(), b"light".to_vec());
    fields.insert(b"light".to_vec(), b"600".to_vec());
    let map = MapFile::<Standard> {
        entities: vec![Entity {
            fields,
            brushes: vec![Brush {
                planes: vec![Plane {
                    points: [
                        Vector3 {
                            x: n(b"-3104"),
                            y: n(b"1736"),
                            z: n(b"384"),
                        },
                        Vector3 {
                            x: n(b"-3096"),
                            y: n(b"1752"),
                            z: n(b"384"),
                        },
                        Vector3 {
                            x: n(b"-3088"),
                            y: n(b"1744"),
                            z: n(b"3.84e2"),
                        },
                    ],
                    texture: Texture {
                        name: b"kn_floorp2".to_vec(),
                        alignment: nomap::standard::TextureAlignment {
                            offset: nomap::standard::Vector2 {
                                x: n(b"53"),
                                y: n(b"0"),
                            },
                            rotation: n(b"-63"),
                            scale: nomap::standard::Vector2 {
                                x: n(b"1.15"),
                                y: n(b".5"),
                            },
                        },
                    },
                }],
            }],
        }],
    };
    let text = map.render();
    let reparsed = nomap::parse::<Standard>(&text).unwrap();
    assert_eq!(reparsed, map);
}

#[test]
fn full_consumption_fails_on_trailing_text() {
    let input = b"{ } garbage";
    match nomap::parse::<Standard>(input) {
        Err(ParseError::Trailing { pos }) => {
            assert_eq!(&input[pos..], b"garbage");
        }
        other => panic!("expected a trailing-input error, got {:?}", other),
    }
}

#[test]
fn embeddable_parse_reports_the_rest() {
    let input = b"{ } garbage";
    let (map, used) = MapFile::<Standard>::parse(input, 0).unwrap();
    assert_eq!(map.entities.len(), 1);
    assert_eq!(&input[used..], b"garbage");
}

#[test]
fn empty_document_is_an_empty_map() {
    let map = nomap::parse::<Standard>(b"").unwrap();
    assert_eq!(map.entities.len(), 0);
    let map = nomap::parse::<Standard>(b"  // nothing here\n\t\n").unwrap();
    assert_eq!(map.entities.len(), 0);
}

#[test]
fn unparsable_document_is_a_syntax_error() {
    assert_eq!(nomap::parse::<Standard>(b"garbage"), Err(ParseError::Syntax));
    assert_eq!(nomap::parse::<Standard>(b"{ \"k\" \"v\" "), Err(ParseError::Syntax));
}

#[test]
fn render_is_exact() {
    let v = Vector3 {
        x: n(b"105252"),
        y: n(b"3.14"),
        z: n(b".04"),
    };
    assert_eq!(v.render(), b"105252 3.14 .04".to_vec());

    let mut fields = Fields::new();
    fields.insert(b"classname".to_vec(), b"light".to_vec());
    let map = MapFile::<Standard> {
        entities: vec![Entity {
            fields,
            brushes: vec![],
        }],
    };
    assert_eq!(map.render(), b"{\n\"classname\" \"light\"\n}\n".to_vec());
}

#[test]
fn comments_do_not_change_the_document() {
    let plain = br#"{ "classname" "light" }"#;
    let commented = b"{ // a comment\n \"classname\" // another\n \"light\"\n// and a last one\n }";
    let a = nomap::parse::<Standard>(plain).unwrap();
    let b = nomap::parse::<Standard>(commented).unwrap();
    assert_eq!(a, b);
}

#[test]
fn number_with_incomplete_exponent_stops_before_it() {
    // the exponent needs digits; a bare `e` stays unconsumed and breaks
    // the vector in the middle
    assert!(Vector3::parse(b"1e5 2e 3", 0).is_none());
    let (v, used) = Vector3::parse(b"1e5 2 3e", 0).unwrap();
    assert_eq!(used, 7);
    assert_eq!(v.z.text, b"3".to_vec());
}

#[test]
fn plane_with_four_points_is_rejected() {
    let input = b"( 0 0 0 ) ( 0 0 0 ) ( 0 0 0 ) ( 0 0 0 ) tex <texture alignment>";
    assert!(Plane::<nomap::stub::StubAlignment>::parse(input, 0).is_none());
}
