//! Valve Software's map format used in Half-Life 1: texture alignment as
//! two bracket-delimited axes, a rotation and a scale.

use vstd::prelude::*;
use crate::lexer::{spec_skip_sep, separator, lemma_skip_skip};
use crate::grammar::{
    Parse, Render, suffix_of, lemma_suffix_of_trans, lemma_skip_sep_suffix_of, push_bytes,
};
use crate::lexer::{
    sep_opaque, num_opaque, lemma_skip_sep_blank, lemma_skip_sep_opaque, lemma_number_extends,
};
use crate::shared::{is_number_lexeme, lemma_number_lexeme_head};
use crate::shared;
use crate::shared::{Number, Vector3, Vector3V};
use crate::standard::{Vector2, Vector2V};

verus! {

/// Format tag for the Valve format.
#[derive(Debug, Clone, Copy, PartialEq)]
pub struct Valve;

impl crate::formats::Format for Valve {
    type Entity = Entity;
}

/// The Valve format's entity type.
pub type Entity = shared::Entity<Brush>;

/// The Valve format's brush type.
pub type Brush = shared::Brush<TextureAlignment>;

/// The Valve format's plane type.
pub type Plane = shared::Plane<TextureAlignment>;

/// The Valve format's texture type.
pub type Texture = shared::Texture<TextureAlignment>;

/// A texture scale at the specification level.
#[verifier::ext_equal]
pub ghost struct ScaleV {
    pub u: Seq<u8>,
    pub v: Seq<u8>,
}

/// The scale of a Valve format texture: the u and v factors.
#[derive(Debug, Clone, PartialEq)]
pub struct Scale {
    pub u: Number,
    pub v: Number,
}

impl View for Scale {
    type V = ScaleV;

    open spec fn view(&self) -> ScaleV {
        ScaleV { u: self.u@, v: self.v@ }
    }
}

impl Parse for Scale {
    /// The same grammar as a two-dimensional vector, relabelled u/v.
    open spec fn spec_parse(s: Seq<u8>) -> Option<(ScaleV, Seq<u8>)> {
        match Vector2::spec_parse(s) {
            Some((w, r)) => Some((ScaleV { u: w.x, v: w.y }, r)),
            None => None,
        }
    }

    open spec fn wont_parse(s: Seq<u8>) -> bool {
        Vector2::wont_parse(s)
    }

    proof fn lemma_parse_shrinks(s: Seq<u8>) {
        Vector2::lemma_parse_shrinks(s);
    }

    proof fn lemma_wont_parse(s: Seq<u8>) {
        Vector2::lemma_wont_parse(s);
    }

    fn parse(s: &[u8], i: usize) -> (r: Option<(Self, usize)>) {
        match Vector2::parse(s, i) {
            Some((w, j)) => Some((Scale { u: w.x, v: w.y }, j)),
            None => None,
        }
    }
}

/// A texture alignment axis at the specification level.
#[verifier::ext_equal]
pub ghost struct AxisV {
    pub normal: Vector3V,
    pub offset: Seq<u8>,
}

/// One texture alignment axis: a normal vector and an offset, delimited by
/// brackets, as in `[ -41 541 -876.2 8 ]`.
#[derive(Debug, Clone, PartialEq)]
pub struct Axis {
    pub normal: Vector3,
    pub offset: Number,
}

impl View for Axis {
    type V = AxisV;

    open spec fn view(&self) -> AxisV {
        AxisV { normal: self.normal@, offset: self.offset@ }
    }
}

impl Parse for Axis {
    /// `[`, optional separator, a separator-terminated normal, the offset,
    /// optional separator, `]`.
    open spec fn spec_parse(s: Seq<u8>) -> Option<(AxisV, Seq<u8>)> {
        if s.len() > 0 && s[0] == 91 {
            let r1 = spec_skip_sep(s.skip(1));
            match Vector3::spec_parse(r1) {
                Some((n, r2)) => {
                    let r3 = spec_skip_sep(r2);
                    match Number::spec_parse(r3) {
                        Some((o, r4)) => {
                            let r5 = spec_skip_sep(r4);
                            if r5.len() > 0 && r5[0] == 93 {
                                Some((AxisV { normal: n, offset: o }, r5.skip(1)))
                            } else {
                                None
                            }
                        },
                        None => None,
                    }
                },
                None => None,
            }
        } else {
            None
        }
    }

    open spec fn wont_parse(s: Seq<u8>) -> bool {
        s.len() == 0 || s[0] != 91
    }

    proof fn lemma_parse_shrinks(s: Seq<u8>) {
        if s.len() > 0 && s[0] == 91 {
            let r1 = spec_skip_sep(s.skip(1));
            lemma_skip_sep_suffix_of(s.skip(1));
            assert(suffix_of(s.skip(1), s)) by {
                assert(s.skip(1) == s.skip(1));
            }
            lemma_suffix_of_trans(s, s.skip(1), r1);
            if Vector3::spec_parse(r1) is Some {
                let (n, r2) = Vector3::spec_parse(r1)->Some_0;
                Vector3::lemma_parse_shrinks(r1);
                lemma_suffix_of_trans(s, r1, r2);
                let r3 = spec_skip_sep(r2);
                lemma_skip_sep_suffix_of(r2);
                lemma_suffix_of_trans(s, r2, r3);
                if Number::spec_parse(r3) is Some {
                    let (o, r4) = Number::spec_parse(r3)->Some_0;
                    Number::lemma_parse_shrinks(r3);
                    lemma_suffix_of_trans(s, r3, r4);
                    let r5 = spec_skip_sep(r4);
                    lemma_skip_sep_suffix_of(r4);
                    lemma_suffix_of_trans(s, r4, r5);
                    if r5.len() > 0 && r5[0] == 93 {
                        assert(suffix_of(r5.skip(1), r5)) by {
                            assert(r5.skip(1) == r5.skip(1));
                        }
                        lemma_suffix_of_trans(s, r5, r5.skip(1));
                    }
                }
            }
        }
    }

    proof fn lemma_wont_parse(s: Seq<u8>) {
    }

    fn parse(s: &[u8], i: usize) -> (r: Option<(Self, usize)>) {
        if i == s.len() || s[i] != 91 {
            return None;
        }
        proof {
            lemma_skip_skip(s@, i as int, 1);
        }
        let j1 = separator(s, i + 1);
        let (n, j2) = match Vector3::parse(s, j1) {
            Some(p) => p,
            None => {
                return None;
            },
        };
        let j3 = separator(s, j2);
        let (o, j4) = match Number::parse(s, j3) {
            Some(p) => p,
            None => {
                return None;
            },
        };
        let j5 = separator(s, j4);
        if j5 == s.len() || s[j5] != 93 {
            return None;
        }
        proof {
            lemma_skip_skip(s@, j5 as int, 1);
        }
        Some((Axis { normal: n, offset: o }, j5 + 1))
    }
}

/// The two texture alignment axes at the specification level.
#[verifier::ext_equal]
pub ghost struct AxesV {
    pub u: AxisV,
    pub v: AxisV,
}

/// The u and v axes of a Valve format texture alignment.
#[derive(Debug, Clone, PartialEq)]
pub struct Axes {
    pub u: Axis,
    pub v: Axis,
}

impl View for Axes {
    type V = AxesV;

    open spec fn view(&self) -> AxesV {
        AxesV { u: self.u@, v: self.v@ }
    }
}

impl Parse for Axes {
    /// Two axes, the first followed by an optional separator.
    open spec fn spec_parse(s: Seq<u8>) -> Option<(AxesV, Seq<u8>)> {
        match Axis::spec_parse(s) {
            Some((u, r1)) => {
                let r2 = spec_skip_sep(r1);
                match Axis::spec_parse(r2) {
                    Some((v, r3)) => Some((AxesV { u, v }, r3)),
                    None => None,
                }
            },
            None => None,
        }
    }

    open spec fn wont_parse(s: Seq<u8>) -> bool {
        Axis::wont_parse(s)
    }

    proof fn lemma_parse_shrinks(s: Seq<u8>) {
        if Axis::spec_parse(s) is Some {
            let (u, r1) = Axis::spec_parse(s)->Some_0;
            Axis::lemma_parse_shrinks(s);
            let r2 = spec_skip_sep(r1);
            lemma_skip_sep_suffix_of(r1);
            lemma_suffix_of_trans(s, r1, r2);
            if Axis::spec_parse(r2) is Some {
                let (v, r3) = Axis::spec_parse(r2)->Some_0;
                Axis::lemma_parse_shrinks(r2);
                lemma_suffix_of_trans(s, r2, r3);
            }
        }
    }

    proof fn lemma_wont_parse(s: Seq<u8>) {
        Axis::lemma_wont_parse(s);
    }

    fn parse(s: &[u8], i: usize) -> (r: Option<(Self, usize)>) {
        let (u, j1) = match Axis::parse(s, i) {
            Some(p) => p,
            None => {
                return None;
            },
        };
        let j2 = separator(s, j1);
        let (v, j3) = match Axis::parse(s, j2) {
            Some(p) => p,
            None => {
                return None;
            },
        };
        Some((Axes { u, v }, j3))
    }
}

/// Valve texture alignment at the specification level.
#[verifier::ext_equal]
pub ghost struct TextureAlignmentV {
    pub axes: AxesV,
    pub rotation: Seq<u8>,
    pub scale: ScaleV,
}

/// The Valve format's texture alignment: the two axes, a rotation and a
/// scale.
#[derive(Debug, Clone, PartialEq)]
pub struct TextureAlignment {
    pub axes: Axes,
    pub rotation: Number,
    pub scale: Scale,
}

impl View for TextureAlignment {
    type V = TextureAlignmentV;

    open spec fn view(&self) -> TextureAlignmentV {
        TextureAlignmentV { axes: self.axes@, rotation: self.rotation@, scale: self.scale@ }
    }
}

impl Parse for TextureAlignment {
    /// The axes, an optional separator, a separator-terminated rotation,
    /// then the scale.
    open spec fn spec_parse(s: Seq<u8>) -> Option<(TextureAlignmentV, Seq<u8>)> {
        match Axes::spec_parse(s) {
            Some((ax, r1)) => {
                let r2 = spec_skip_sep(r1);
                match Number::spec_parse(r2) {
                    Some((rot, r3)) => {
                        let r4 = spec_skip_sep(r3);
                        match Scale::spec_parse(r4) {
                            Some((sc, r5)) => Some(
                                (TextureAlignmentV { axes: ax, rotation: rot, scale: sc }, r5),
                            ),
                            None => None,
                        }
                    },
                    None => None,
                }
            },
            None => None,
        }
    }

    open spec fn wont_parse(s: Seq<u8>) -> bool {
        Axes::wont_parse(s)
    }

    proof fn lemma_parse_shrinks(s: Seq<u8>) {
        if Axes::spec_parse(s) is Some {
            let (ax, r1) = Axes::spec_parse(s)->Some_0;
            Axes::lemma_parse_shrinks(s);
            let r2 = spec_skip_sep(r1);
            lemma_skip_sep_suffix_of(r1);
            lemma_suffix_of_trans(s, r1, r2);
            if Number::spec_parse(r2) is Some {
                let (rot, r3) = Number::spec_parse(r2)->Some_0;
                Number::lemma_parse_shrinks(r2);
                lemma_suffix_of_trans(s, r2, r3);
                let r4 = spec_skip_sep(r3);
                lemma_skip_sep_suffix_of(r3);
                lemma_suffix_of_trans(s, r3, r4);
                if Scale::spec_parse(r4) is Some {
                    let (sc, r5) = Scale::spec_parse(r4)->Some_0;
                    Scale::lemma_parse_shrinks(r4);
                    lemma_suffix_of_trans(s, r4, r5);
                }
            }
        }
    }

    proof fn lemma_wont_parse(s: Seq<u8>) {
        Axes::lemma_wont_parse(s);
    }

    fn parse(s: &[u8], i: usize) -> (r: Option<(Self, usize)>) {
        let (ax, j1) = match Axes::parse(s, i) {
            Some(p) => p,
            None => {
                return None;
            },
        };
        let j2 = separator(s, j1);
        let (rot, j3) = match Number::parse(s, j2) {
            Some(p) => p,
            None => {
                return None;
            },
        };
        let j4 = separator(s, j3);
        let (sc, j5) = match Scale::parse(s, j4) {
            Some(p) => p,
            None => {
                return None;
            },
        };
        Some((TextureAlignment { axes: ax, rotation: rot, scale: sc }, j5))
    }
}


impl Render for Scale {
    open spec fn wf(v: ScaleV) -> bool {
        is_number_lexeme(v.u) && is_number_lexeme(v.v)
    }

    open spec fn can_follow(rest: Seq<u8>) -> bool {
        num_opaque(rest)
    }

    /// The factors space-separated: `u v`.
    open spec fn spec_render(v: ScaleV) -> Seq<u8> {
        v.u + seq![32u8] + v.v
    }

    fn render(&self) -> (r: Vec<u8>) {
        let mut out: Vec<u8> = Vec::new();
        push_bytes(&mut out, self.u.text.as_slice());
        out.push(32);
        push_bytes(&mut out, self.v.text.as_slice());
        proof {
            assert(out@ =~= Self::spec_render(self@));
        }
        out
    }

    proof fn lemma_render_parse(v: ScaleV, rest: Seq<u8>) {
        let w = Vector2V { x: v.u, y: v.v };
        assert(Vector2::spec_render(w) == Self::spec_render(v));
        Vector2::lemma_render_parse(w, rest);
        assert(ScaleV { u: w.x, v: w.y } == v);
    }

    proof fn lemma_render_head(v: ScaleV, t: Seq<u8>) {
        lemma_number_lexeme_head(v.u);
        assert((Self::spec_render(v) + t)[0] == v.u[0]);
    }

    proof fn lemma_can_follow_line(t: Seq<u8>) {
        assert((seq![10u8] + t)[0] == 10);
    }
}

impl Render for Axis {
    open spec fn wf(v: AxisV) -> bool {
        Vector3::wf(v.normal) && is_number_lexeme(v.offset)
    }

    open spec fn can_follow(rest: Seq<u8>) -> bool {
        true
    }

    /// The bracketed axis: `[ x y z o ]`.
    open spec fn spec_render(v: AxisV) -> Seq<u8> {
        seq![91u8, 32u8] + Vector3::spec_render(v.normal) + seq![32u8] + v.offset + seq![
            32u8,
            93u8,
        ]
    }

    fn render(&self) -> (r: Vec<u8>) {
        let mut out: Vec<u8> = Vec::new();
        out.push(91);
        out.push(32);
        let n = self.normal.render();
        push_bytes(&mut out, n.as_slice());
        out.push(32);
        push_bytes(&mut out, self.offset.text.as_slice());
        out.push(32);
        out.push(93);
        proof {
            assert(out@ =~= Self::spec_render(self@));
        }
        out
    }

    proof fn lemma_render_parse(v: AxisV, rest: Seq<u8>) {
        let nr = Vector3::spec_render(v.normal);
        let s = Self::spec_render(v) + rest;
        assert(s[0] == 91);
        assert(s.skip(1) =~= seq![32u8] + (nr + (seq![32u8] + (v.offset + (seq![32u8, 93u8]
            + rest)))));
        Vector3::lemma_render_head(v.normal, seq![32u8] + (v.offset + (seq![32u8, 93u8]
            + rest)));
        assert(sep_opaque(nr + (seq![32u8] + (v.offset + (seq![32u8, 93u8] + rest))))) by {
            assert(nr + (seq![32u8] + (v.offset + (seq![32u8, 93u8] + rest))) =~= nr + (
            seq![32u8] + (v.offset + (seq![32u8, 93u8] + rest))));
        }
        lemma_skip_sep_blank(32u8, nr + (seq![32u8] + (v.offset + (seq![32u8, 93u8] + rest))));
        assert(num_opaque(seq![32u8] + (v.offset + (seq![32u8, 93u8] + rest)))) by {
            assert((seq![32u8] + (v.offset + (seq![32u8, 93u8] + rest)))[0] == 32);
        }
        Vector3::lemma_render_parse(v.normal, seq![32u8] + (v.offset + (seq![32u8, 93u8]
            + rest)));
        lemma_number_lexeme_head(v.offset);
        assert(sep_opaque(v.offset + (seq![32u8, 93u8] + rest))) by {
            assert((v.offset + (seq![32u8, 93u8] + rest))[0] == v.offset[0]);
        }
        lemma_skip_sep_blank(32u8, v.offset + (seq![32u8, 93u8] + rest));
        assert(num_opaque(seq![32u8, 93u8] + rest)) by {
            assert((seq![32u8, 93u8] + rest)[0] == 32);
        }
        lemma_number_extends(v.offset, seq![32u8, 93u8] + rest);
        assert((seq![32u8, 93u8] + rest).skip(1) =~= seq![93u8] + rest);
        assert(sep_opaque(seq![93u8] + rest)) by {
            assert((seq![93u8] + rest)[0] == 93);
        }
        assert(spec_skip_sep(seq![32u8, 93u8] + rest) == seq![93u8] + rest) by {
            assert((seq![32u8, 93u8] + rest)[0] == 32);
            lemma_skip_sep_opaque(seq![93u8] + rest);
        }
        assert((seq![93u8] + rest)[0] == 93);
        assert((seq![93u8] + rest).skip(1) =~= rest);
        assert(AxisV { normal: v.normal, offset: v.offset } == v);
    }

    proof fn lemma_render_head(v: AxisV, t: Seq<u8>) {
        let s = Self::spec_render(v) + t;
        assert(s[0] == 91);
        assert(s[1] == 32);
    }

    proof fn lemma_can_follow_line(t: Seq<u8>) {
    }
}

impl Render for Axes {
    open spec fn wf(v: AxesV) -> bool {
        Axis::wf(v.u) && Axis::wf(v.v)
    }

    open spec fn can_follow(rest: Seq<u8>) -> bool {
        true
    }

    /// The two axes space-separated.
    open spec fn spec_render(v: AxesV) -> Seq<u8> {
        Axis::spec_render(v.u) + seq![32u8] + Axis::spec_render(v.v)
    }

    fn render(&self) -> (r: Vec<u8>) {
        let mut out: Vec<u8> = Vec::new();
        let u = self.u.render();
        push_bytes(&mut out, u.as_slice());
        out.push(32);
        let w = self.v.render();
        push_bytes(&mut out, w.as_slice());
        proof {
            assert(out@ =~= Self::spec_render(self@));
        }
        out
    }

    proof fn lemma_render_parse(v: AxesV, rest: Seq<u8>) {
        let vr = Axis::spec_render(v.v);
        let s = Self::spec_render(v) + rest;
        let r1 = seq![32u8] + (vr + rest);
        assert(s =~= Axis::spec_render(v.u) + r1);
        Axis::lemma_render_parse(v.u, r1);
        Axis::lemma_render_head(v.v, rest);
        lemma_skip_sep_blank(32u8, vr + rest);
        Axis::lemma_render_parse(v.v, rest);
        assert(AxesV { u: v.u, v: v.v } == v);
    }

    proof fn lemma_render_head(v: AxesV, t: Seq<u8>) {
        let s = Self::spec_render(v) + t;
        assert(s[0] == 91);
        assert(s[1] == 32);
    }

    proof fn lemma_can_follow_line(t: Seq<u8>) {
    }
}

impl Render for TextureAlignment {
    open spec fn wf(v: TextureAlignmentV) -> bool {
        Axes::wf(v.axes) && is_number_lexeme(v.rotation) && Scale::wf(v.scale)
    }

    open spec fn can_follow(rest: Seq<u8>) -> bool {
        num_opaque(rest)
    }

    /// Axes, rotation and scale space-separated.
    open spec fn spec_render(v: TextureAlignmentV) -> Seq<u8> {
        Axes::spec_render(v.axes) + seq![32u8] + v.rotation + seq![32u8] + Scale::spec_render(
            v.scale,
        )
    }

    fn render(&self) -> (r: Vec<u8>) {
        let mut out: Vec<u8> = Vec::new();
        let ax = self.axes.render();
        push_bytes(&mut out, ax.as_slice());
        out.push(32);
        push_bytes(&mut out, self.rotation.text.as_slice());
        out.push(32);
        let sc = self.scale.render();
        push_bytes(&mut out, sc.as_slice());
        proof {
            assert(out@ =~= Self::spec_render(self@));
        }
        out
    }

    proof fn lemma_render_parse(v: TextureAlignmentV, rest: Seq<u8>) {
        let sr = Scale::spec_render(v.scale);
        let s = Self::spec_render(v) + rest;
        let r1 = seq![32u8] + (v.rotation + (seq![32u8] + (sr + rest)));
        assert(s =~= Axes::spec_render(v.axes) + r1);
        Axes::lemma_render_parse(v.axes, r1);
        lemma_number_lexeme_head(v.rotation);
        assert(sep_opaque(v.rotation + (seq![32u8] + (sr + rest)))) by {
            assert((v.rotation + (seq![32u8] + (sr + rest)))[0] == v.rotation[0]);
        }
        lemma_skip_sep_blank(32u8, v.rotation + (seq![32u8] + (sr + rest)));
        let r2 = seq![32u8] + (sr + rest);
        assert(num_opaque(r2)) by {
            assert(r2[0] == 32);
        }
        lemma_number_extends(v.rotation, r2);
        Scale::lemma_render_head(v.scale, rest);
        lemma_skip_sep_blank(32u8, sr + rest);
        Scale::lemma_render_parse(v.scale, rest);
        assert(TextureAlignmentV { axes: v.axes, rotation: v.rotation, scale: v.scale } == v);
    }

    proof fn lemma_render_head(v: TextureAlignmentV, t: Seq<u8>) {
        let s = Self::spec_render(v) + t;
        assert(s[0] == 91);
        assert(s[1] == 32);
    }

    proof fn lemma_can_follow_line(t: Seq<u8>) {
        assert((seq![10u8] + t)[0] == 10);
    }
}

} // verus!
