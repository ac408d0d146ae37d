use nomap::grammar::Parse;
use nomap::shared::{Number, Vector3};
use nomap::valve::{Axes, Axis, TextureAlignment};

fn num(n: &Number) -> f32 {
    std::str::from_utf8(&n.text).unwrap().parse().unwrap()
}

fn vec3(v: &Vector3) -> (f32, f32, f32) {
    (num(&v.x), num(&v.y), num(&v.z))
}

#[test]
fn axis() {
    let input = r"[ -41 541 -876.2 8 ]";
    let (a, used) = Axis::parse(input.as_bytes(), 0).unwrap();
    assert_eq!(used, input.len());
    assert_eq!(vec3(&a.normal), (-41., 541., -876.2));
    assert_eq!(num(&a.offset), 8.);
}

#[test]
fn axis_weird() {
    let input = r"[-41
             541 // j


            -876.2
            8]";
    let (a, used) = Axis::parse(input.as_bytes(), 0).unwrap();
    assert_eq!(used, input.len());
    assert_eq!(vec3(&a.normal), (-41., 541., -876.2));
    assert_eq!(num(&a.offset), 8.);
}

#[test]
fn axes() {
    let input = r"[ -41 541 -876.2 8 ] [ 82 -1082 1752.4 -16 ]";
    let (a, used) = Axes::parse(input.as_bytes(), 0).unwrap();
    assert_eq!(used, input.len());
    assert_eq!(vec3(&a.u.normal), (-41., 541., -876.2));
    assert_eq!(num(&a.u.offset), 8.);
    assert_eq!(vec3(&a.v.normal), (82., -1082., 1752.4));
    assert_eq!(num(&a.v.offset), -16.);
}

#[test]
fn axes_weird() {
    let input = r"[
             -20.5 270.5 -438.1 4
             ][
              82 -1082 1752.4 -16
              ]";
    let (a, used) = Axes::parse(input.as_bytes(), 0).unwrap();
    assert_eq!(used, input.len());
    assert_eq!(vec3(&a.u.normal), (-20.5, 270.5, -438.1));
    assert_eq!(num(&a.u.offset), 4.);
    assert_eq!(vec3(&a.v.normal), (82., -1082., 1752.4));
    assert_eq!(num(&a.v.offset), -16.);
}

#[test]
fn valve_texture_alignment() {
    let input = r"[ 0 -1 33 -31.4111 ] [ 0.242536 0 -0.970143 -31.4109 ] .1 1 1.03078";
    let (ta, used) = TextureAlignment::parse(input.as_bytes(), 0).unwrap();
    assert_eq!(used, input.len());
    assert_eq!(vec3(&ta.axes.u.normal), (0., -1., 33.));
    assert_eq!(num(&ta.axes.u.offset), -31.4111);
    assert_eq!(vec3(&ta.axes.v.normal), (0.242536, 0., -0.970143));
    assert_eq!(num(&ta.axes.v.offset), -31.4109);
    assert_eq!(num(&ta.rotation), 0.1);
    assert_eq!((num(&ta.scale.u), num(&ta.scale.v)), (1., 1.03078));
}

#[test]
fn valve_texture_alignment_weird() {
    let input = r"[ 0 -1 33 -31.4111 ] [ 0.242536 0 -0.970143 -31.4109 ].1
            // HUH
             1 1.03078";
    let (ta, used) = TextureAlignment::parse(input.as_bytes(), 0).unwrap();
    assert_eq!(used, input.len());
    assert_eq!(vec3(&ta.axes.u.normal), (0., -1., 33.));
    assert_eq!(num(&ta.axes.u.offset), -31.4111);
    assert_eq!(vec3(&ta.axes.v.normal), (0.242536, 0., -0.970143));
    assert_eq!(num(&ta.axes.v.offset), -31.4109);
    assert_eq!(num(&ta.rotation), 0.1);
    assert_eq!((num(&ta.scale.u), num(&ta.scale.v)), (1., 1.03078));
}
