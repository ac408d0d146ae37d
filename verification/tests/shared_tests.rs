use nomap::grammar::Parse;
use nomap::shared::{Brush, Entity, Number, Plane, Texture, Vector3};
use nomap::stub::{StubAlignment, StubBrush};

fn num(n: &Number) -> f32 {
    std::str::from_utf8(&n.text).unwrap().parse().unwrap()
}

fn vec3(v: &Vector3) -> (f32, f32, f32) {
    (num(&v.x), num(&v.y), num(&v.z))
}

#[test]
fn vector3() {
    let input = r"105252 3.14 .04";
    let (v, used) = Vector3::parse(input.as_bytes(), 0).unwrap();
    assert_eq!(used, input.len());
    assert_eq!(vec3(&v), (105252., 3.14, 0.04));
}

#[test]
fn vector3_weird() {
    let input = r"105252

            //
                    3.14
                    // weeeeeeeeeeeeeeeeeeeeeee
                 .04";
    let (v, used) = Vector3::parse(input.as_bytes(), 0).unwrap();
    assert_eq!(used, input.len());
    assert_eq!(vec3(&v), (105252., 3.14, 0.04));
}

#[test]
fn texture() {
    let input = r"wizmet1_2 <texture alignment>";
    let (t, used) = Texture::<StubAlignment>::parse(input.as_bytes(), 0).unwrap();
    assert_eq!(used, input.len());
    assert_eq!(t.name, b"wizmet1_2".to_vec());
    assert_eq!(t.alignment, StubAlignment);
}

#[test]
fn texture_weird() {
    let input = r"wizmet1_2 //
            // <texture alignment>
            <texture alignment>";
    let (t, used) = Texture::<StubAlignment>::parse(input.as_bytes(), 0).unwrap();
    assert_eq!(used, input.len());
    assert_eq!(t.name, b"wizmet1_2".to_vec());
    assert_eq!(t.alignment, StubAlignment);
}

#[test]
fn plane() {
    let input =
        r"( -3104 1736 384 ) ( -3096 1752 384 ) ( -3088 1744 384 ) kn_floorp2 <texture alignment>";
    let (p, used) = Plane::<StubAlignment>::parse(input.as_bytes(), 0).unwrap();
    assert_eq!(used, input.len());
    assert_eq!(vec3(&p.points[0]), (-3104., 1736., 384.));
    assert_eq!(vec3(&p.points[1]), (-3096., 1752., 384.));
    assert_eq!(vec3(&p.points[2]), (-3088., 1744., 384.));
    assert_eq!(p.texture.name, b"kn_floorp2".to_vec());
    assert_eq!(p.texture.alignment, StubAlignment);
}

#[test]
fn plane_weird() {
    let input: &[u8] = b"(-3104 1736 384)(\n            -3096 1752 384\n\n            )(\n\n             -3088 //A\xc3\x8c\xc3\x8d\xc2\xa4\xc3\x8c\xe2\x80\x9c\xc3\x8c\xc6\x92\xc3\x8c\xe2\x80\xa1\xc3\x8d\xc2\xaa\xc3\x8d\xc2\xac\xc3\x8c\xe2\x80\xa1\xc3\x8d\xc6\x92\xc3\x8d\xc5\x92\xc3\x8d\xc6\x92\xc3\x8c\xc6\x92\xc3\x8d\xe2\x80\x94\xc3\x8c\xe2\x82\xac\xc3\x8c\xcb\x86\xc3\x8c\xe2\x80\xa0\xc3\x8c\xc2\xbf\xc3\x8c\xe2\x80\xb0\xc3\x8c\xc3\x8d\xe2\x82\xac\xc3\x8d\xe2\x82\xac\xc3\x8d\xc3\x8c\xc2\xb6\xc3\x8d\xc3\x8c\xc2\xaf\xc3\x8c\xc2\xa4\xc3\x8c\xc2\xaa\xc3\x8c\xc2\xbc\xc3\x8c\xe2\x80\x94A\xc3\x8d\xc2\xa3\xc3\x8c\xc5\xa0\xc3\x8d\xc5\xa0\xc3\x8c\xe2\x80\x9d\xc3\x8c\xcb\x86\xc3\x8d\xc2\xa4\xc3\x8d\xc2\xa8\xc3\x8d\xc2\xac\xc3\x8c\xc2\xbf\xc3\x8c\xe2\x80\xa1\xc3\x8c\xc2\xb8\xc3\x8c\xc2\xa2\xc3\x8c\xc2\xb5\xc3\x8c\xe2\x80\xba\xc3\x8c\xc2\xb2\xc3\x8c\xcb\x9c\xc3\x8c\xc2\xa0\xc3\x8c\xc2\xa3\xc3\x8d\xe2\x80\xa2\xc3\x8d\xc3\x8c\xc2\xbc\xc3\x8c\xc5\x93\xc3\x8c\xc2\xaa\xc3\x8d\xc5\xa1\xc3\x8c\xc2\xb2\xc3\x8d\xc5\xa1\xc3\x8c\xc3\x8c\xc2\xae\xc3\x8c\xc2\xa3\xc3\x8c\xc2\xba\xc3\x8c\xc2\xabA\xc3\x8d\xe2\x80\x94\xc3\x8d\xc2\xab\xc3\x8d\xc2\xae\xc3\x8c\xe2\x80\x9d\xc3\x8d\xe2\x80\xb9\xc3\x8c\xc2\xbd\xc3\x8c\xe2\x80\x9d\xc3\x8c\xe2\x80\x9c\xc3\x8d\xe2\x80\x94\xc3\x8c\xe2\x80\xa6\xc3\x8d\xc2\xa9\xc3\x8c\xc5\xa1\xc3\x8d\xc2\xab\xc3\x8d\xc3\x8c\xe2\x80\x98\xc3\x8c\xe2\x80\x9a\xc3\x8d\xc2\xa4\xc3\x8c\xc5\x92\xc3\x8c\xe2\x80\x9a\xc3\x8c\xc2\xb4\xc3\x8d\xc2\xa2\xc3\x8d\xe2\x80\xa2\xc3\x8c\xc2\xaa\xc3\x8c\xc2\xac\xc3\x8c\xcb\x9c\xc3\x8c\xc2\xac\xc3\x8d\xe2\x80\x9d\xc3\x8c\xcb\x9c\xc3\x8d\xe2\x80\xa6\xc3\x8d\xe2\x80\xa1\xc3\x8c\xc2\xad\xc3\x8c\xc2\xa0A\xc3\x8d\xc2\xa7\xc3\x8c\xc3\x8d\xc3\x8d\xc2\xa9\xc3\x8c\xc3\x8d\xc2\xa4\xc3\x8d\xe2\x82\xac\xc3\x8c\xc2\xb8\xc3\x8c\xc2\xad\xc3\x8c\xc2\xac\xc3\x8d\xc5\xa1\xc3\x8c\xc5\xb8\xc3\x8c\xc2\xbc\xc3\x8d\xe2\x80\xb0\xc3\x8c\xc2\xaaA\xc3\x8c\xe2\x80\x98\xc3\x8d\xe2\x80\xa0\xc3\x8d\xc2\xae\xc3\x8c\xc5\xa0\xc3\x8d\xe2\x80\x94\xc3\x8d\xc3\x8d\xc3\x8d\xc2\xa0\xc3\x8d\xc5\x93\xc3\x8d\xcb\x9c\xc3\x8d\xcb\x86\xc3\x8c\xc2\xa3\xc3\x8c\xe2\x80\x94\xc3\x8d\xe2\x80\x9d\xc3\x8c\xc2\xb0\xc3\x8c\xc2\xb2\xc3\x8d\xe2\x80\xa6\xc3\x8d\xe2\x80\x9d\xc3\x8c\xc2\xbb\xc3\x8c\xc2\xa3\xc3\x8c\xc2\xac\xc3\x8c\xc2\xbb\xc3\x8d\xe2\x80\x9c\xc3\x8c\xc2\xa6\xc3\x8c\xc2\xa0\xc3\x8c\xc2\xb9\xc3\x8c\xc2\xa5\n                    1744\n             384)kn_floorp2 <texture alignment>";
    let (p, used) = Plane::<StubAlignment>::parse(input, 0).unwrap();
    assert_eq!(used, input.len());
    assert_eq!(vec3(&p.points[0]), (-3104., 1736., 384.));
    assert_eq!(vec3(&p.points[1]), (-3096., 1752., 384.));
    assert_eq!(vec3(&p.points[2]), (-3088., 1744., 384.));
    assert_eq!(p.texture.name, b"kn_floorp2".to_vec());
    assert_eq!(p.texture.alignment, StubAlignment);
}

#[test]
fn brush() {
    let input = r"{
( -95.75 61 -16 ) ( 31.75 3.75 -16 ) ( -60.5 53.5 10 ) __TB_empty <texture alignment>
( -32.5 -29 -16 ) ( -95.75 61 -16 ) ( -60.5 53.5 10 ) yeeeeeeeeee <texture alignment>
}";
    let (b, used) = Brush::<StubAlignment>::parse(input.as_bytes(), 0).unwrap();
    assert_eq!(used, input.len());
    assert_eq!(b.planes.len(), 2);
    assert_eq!(vec3(&b.planes[0].points[0]), (-95.75, 61., -16.));
    assert_eq!(vec3(&b.planes[0].points[1]), (31.75, 3.75, -16.));
    assert_eq!(vec3(&b.planes[0].points[2]), (-60.5, 53.5, 10.));
    assert_eq!(b.planes[0].texture.name, b"__TB_empty".to_vec());
    assert_eq!(vec3(&b.planes[1].points[0]), (-32.5, -29., -16.));
    assert_eq!(vec3(&b.planes[1].points[1]), (-95.75, 61., -16.));
    assert_eq!(vec3(&b.planes[1].points[2]), (-60.5, 53.5, 10.));
    assert_eq!(b.planes[1].texture.name, b"yeeeeeeeeee".to_vec());
}

#[test]
fn brush_weird() {
    let input: &[u8] = b"{(-95.75 61 -16 ) ( 31.75 3.75 -16 )\n                 ( -60.5 53.5 10 ) __TB_empty <texture alignment>\n( -32.5 -29 -16 )\n ( -95.75 61 -16 )                   ( -60.5 53.5 10 )\n  yeeeeeeeeee <texture alignment>\n  // \xc4\x9f\xc5\xb8\xc2\xa6\xe2\x82\xac\xc4\x9f\xc5\xb8\xc2\xa6\xe2\x82\xac\xc4\x9f\xc5\xb8\xc2\xa6\xe2\x82\xac\xc4\x9f\xc5\xb8\xc2\xa6\xe2\x82\xac\xc4\x9f\xc5\xb8\xc2\xa6\xe2\x82\xac\xc4\x9f\xc5\xb8\xc2\xa6\xe2\x82\xac\xc4\x9f\xc5\xb8\xc2\xa6\xe2\x82\xac\xc4\x9f\xc5\xb8\xc2\xa6\xe2\x82\xac\xc4\x9f\xc5\xb8\xc2\xa6\xe2\x82\xac\xc4\x9f\xc5\xb8\xc2\xa6\xe2\x82\xac\xc4\x9f\xc5\xb8\xc2\xa6\xe2\x82\xac\xc4\x9f\xc5\xb8\xc2\xa6\xe2\x82\xac\xc4\x9f\xc5\xb8\xc2\xa6\xe2\x82\xac\xc4\x9f\xc5\xb8\xc2\xa6\xe2\x82\xac\n}";
    let (b, used) = Brush::<StubAlignment>::parse(input, 0).unwrap();
    assert_eq!(used, input.len());
    assert_eq!(b.planes.len(), 2);
    assert_eq!(vec3(&b.planes[0].points[0]), (-95.75, 61., -16.));
    assert_eq!(vec3(&b.planes[0].points[1]), (31.75, 3.75, -16.));
    assert_eq!(vec3(&b.planes[0].points[2]), (-60.5, 53.5, 10.));
    assert_eq!(b.planes[0].texture.name, b"__TB_empty".to_vec());
    assert_eq!(vec3(&b.planes[1].points[0]), (-32.5, -29., -16.));
    assert_eq!(vec3(&b.planes[1].points[1]), (-95.75, 61., -16.));
    assert_eq!(vec3(&b.planes[1].points[2]), (-60.5, 53.5, 10.));
    assert_eq!(b.planes[1].texture.name, b"yeeeeeeeeee".to_vec());
}

#[test]
fn entity() {
    let input = r#"{
            "classname" "func_parser"
            "good" "yes"
            BBB
            }"#;
    let (e, used) = Entity::<StubBrush>::parse(input.as_bytes(), 0).unwrap();
    assert_eq!(used, input.len());
    assert_eq!(e.fields.get(b"classname"), Some(&b"func_parser".to_vec()));
    assert_eq!(e.fields.get(b"good"), Some(&b"yes".to_vec()));
    assert_eq!(e.fields.pairs.len(), 2);
    assert_eq!(e.brushes, vec![StubBrush, StubBrush, StubBrush]);
}

#[test]
fn plane_with_two_points_is_rejected() {
    let input = r"( -3104 1736 384 ) ( -3096 1752 384 ) kn_floorp2 <texture alignment>";
    assert!(Plane::<StubAlignment>::parse(input.as_bytes(), 0).is_none());
}
