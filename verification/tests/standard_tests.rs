use nomap::grammar::Parse;
use nomap::shared::Number;
use nomap::standard::{TextureAlignment, Vector2};

fn num(n: &Number) -> f32 {
    std::str::from_utf8(&n.text).unwrap().parse().unwrap()
}

#[test]
fn vector2() {
    let input = r"105252 3.14";
    let (v, used) = Vector2::parse(input.as_bytes(), 0).unwrap();
    assert_eq!(used, input.len());
    assert_eq!((num(&v.x), num(&v.y)), (105252., 3.14));
}

#[test]
fn vector2_weird() {
    let input = r"105252
            // why would you do this

             3.14";
    let (v, used) = Vector2::parse(input.as_bytes(), 0).unwrap();
    assert_eq!(used, input.len());
    assert_eq!((num(&v.x), num(&v.y)), (105252., 3.14));
}

#[test]
fn standard_texture_alignment() {
    let input = r"1367 9.41 .54 14242 0.141";
    let (ta, used) = TextureAlignment::parse(input.as_bytes(), 0).unwrap();
    assert_eq!(used, input.len());
    assert_eq!((num(&ta.offset.x), num(&ta.offset.y)), (1367., 9.41));
    assert_eq!(num(&ta.rotation), 0.54);
    assert_eq!((num(&ta.scale.x), num(&ta.scale.y)), (14242., 0.141));
}

#[test]
fn standard_texture_alignment_weird() {
    let input = r"1367 // gudavdhgawdgawjfdvgh
                         9.41
            .54
             //no
             14242//e



            0.141";
    let (ta, used) = TextureAlignment::parse(input.as_bytes(), 0).unwrap();
    assert_eq!(used, input.len());
    assert_eq!((num(&ta.offset.x), num(&ta.offset.y)), (1367., 9.41));
    assert_eq!(num(&ta.rotation), 0.54);
    assert_eq!((num(&ta.scale.x), num(&ta.scale.y)), (14242., 0.141));
}
