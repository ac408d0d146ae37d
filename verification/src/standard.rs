//! The standard map format created by id Software: texture alignment as a
//! flat offset / rotation / scale run of numbers.

use vstd::prelude::*;
use crate::lexer::spec_skip_sep;
use crate::lexer::separator;
use crate::grammar::{Parse, Render, lemma_suffix_of_trans, lemma_skip_sep_suffix_of, push_bytes};
use crate::lexer::{sep_opaque, num_opaque, lemma_skip_sep_blank, lemma_number_extends};
use crate::shared::{is_number_lexeme, lemma_number_lexeme_head};
use crate::shared;
use crate::shared::Number;

verus! {

/// Format tag for the standard format.
#[derive(Debug, Clone, Copy, PartialEq)]
pub struct Standard;

impl crate::formats::Format for Standard {
    type Entity = Entity;
}

/// The standard format's entity type.
pub type Entity = shared::Entity<Brush>;

/// The standard format's brush type.
pub type Brush = shared::Brush<TextureAlignment>;

/// The standard format's plane type.
pub type Plane = shared::Plane<TextureAlignment>;

/// The standard format's texture type.
pub type Texture = shared::Texture<TextureAlignment>;

/// A two-component vector at the specification level.
#[verifier::ext_equal]
pub ghost struct Vector2V {
    pub x: Seq<u8>,
    pub y: Seq<u8>,
}

/// A simple two-dimensional vector; each component keeps its source text.
#[derive(Debug, Clone, PartialEq)]
pub struct Vector2 {
    pub x: Number,
    pub y: Number,
}

impl View for Vector2 {
    type V = Vector2V;

    open spec fn view(&self) -> Vector2V {
        Vector2V { x: self.x@, y: self.y@ }
    }
}

impl Parse for Vector2 {
    /// Two numeric literals, the first separator-terminated.
    open spec fn spec_parse(s: Seq<u8>) -> Option<(Vector2V, Seq<u8>)> {
        match Number::spec_parse(s) {
            Some((x, r1)) => {
                let r2 = spec_skip_sep(r1);
                match Number::spec_parse(r2) {
                    Some((y, r3)) => Some((Vector2V { x, y }, r3)),
                    None => None,
                }
            },
            None => None,
        }
    }

    open spec fn wont_parse(s: Seq<u8>) -> bool {
        Number::wont_parse(s)
    }

    proof fn lemma_parse_shrinks(s: Seq<u8>) {
        if Number::spec_parse(s) is Some {
            let (x, r1) = Number::spec_parse(s)->Some_0;
            Number::lemma_parse_shrinks(s);
            let r2 = spec_skip_sep(r1);
            lemma_skip_sep_suffix_of(r1);
            lemma_suffix_of_trans(s, r1, r2);
            if Number::spec_parse(r2) is Some {
                let (y, r3) = Number::spec_parse(r2)->Some_0;
                Number::lemma_parse_shrinks(r2);
                lemma_suffix_of_trans(s, r2, r3);
            }
        }
    }

    proof fn lemma_wont_parse(s: Seq<u8>) {
        Number::lemma_wont_parse(s);
    }

    fn parse(s: &[u8], i: usize) -> (r: Option<(Self, usize)>) {
        let (x, j1) = match Number::parse(s, i) {
            Some(p) => p,
            None => {
                return None;
            },
        };
        let j2 = separator(s, j1);
        let (y, j3) = match Number::parse(s, j2) {
            Some(p) => p,
            None => {
                return None;
            },
        };
        Some((Vector2 { x, y }, j3))
    }
}

/// Standard texture alignment at the specification level.
#[verifier::ext_equal]
pub ghost struct TextureAlignmentV {
    pub offset: Vector2V,
    pub rotation: Seq<u8>,
    pub scale: Vector2V,
}

/// The standard format's texture alignment: offset, rotation and scale as
/// a flat run of numbers, no delimiters.
#[derive(Debug, Clone, PartialEq)]
pub struct TextureAlignment {
    pub offset: Vector2,
    pub rotation: Number,
    pub scale: Vector2,
}

impl View for TextureAlignment {
    type V = TextureAlignmentV;

    open spec fn view(&self) -> TextureAlignmentV {
        TextureAlignmentV { offset: self.offset@, rotation: self.rotation@, scale: self.scale@ }
    }
}

impl Parse for TextureAlignment {
    /// A separator-terminated offset vector, a separator-terminated
    /// rotation, then the scale vector.
    open spec fn spec_parse(s: Seq<u8>) -> Option<(TextureAlignmentV, Seq<u8>)> {
        match Vector2::spec_parse(s) {
            Some((off, r1)) => {
                let r2 = spec_skip_sep(r1);
                match Number::spec_parse(r2) {
                    Some((rot, r3)) => {
                        let r4 = spec_skip_sep(r3);
                        match Vector2::spec_parse(r4) {
                            Some((sc, r5)) => Some(
                                (TextureAlignmentV { offset: off, rotation: rot, scale: sc }, r5),
                            ),
                            None => None,
                        }
                    },
                    None => None,
                }
            },
            None => None,
        }
    }

    open spec fn wont_parse(s: Seq<u8>) -> bool {
        Number::wont_parse(s)
    }

    proof fn lemma_parse_shrinks(s: Seq<u8>) {
        if Vector2::spec_parse(s) is Some {
            let (off, r1) = Vector2::spec_parse(s)->Some_0;
            Vector2::lemma_parse_shrinks(s);
            let r2 = spec_skip_sep(r1);
            lemma_skip_sep_suffix_of(r1);
            lemma_suffix_of_trans(s, r1, r2);
            if Number::spec_parse(r2) is Some {
                let (rot, r3) = Number::spec_parse(r2)->Some_0;
                Number::lemma_parse_shrinks(r2);
                lemma_suffix_of_trans(s, r2, r3);
                let r4 = spec_skip_sep(r3);
                lemma_skip_sep_suffix_of(r3);
                lemma_suffix_of_trans(s, r3, r4);
                if Vector2::spec_parse(r4) is Some {
                    let (sc, r5) = Vector2::spec_parse(r4)->Some_0;
                    Vector2::lemma_parse_shrinks(r4);
                    lemma_suffix_of_trans(s, r4, r5);
                }
            }
        }
    }

    proof fn lemma_wont_parse(s: Seq<u8>) {
        Vector2::lemma_wont_parse(s);
    }

    fn parse(s: &[u8], i: usize) -> (r: Option<(Self, usize)>) {
        let (off, j1) = match Vector2::parse(s, i) {
            Some(p) => p,
            None => {
                return None;
            },
        };
        let j2 = separator(s, j1);
        let (rot, j3) = match Number::parse(s, j2) {
            Some(p) => p,
            None => {
                return None;
            },
        };
        let j4 = separator(s, j3);
        let (sc, j5) = match Vector2::parse(s, j4) {
            Some(p) => p,
            None => {
                return None;
            },
        };
        Some((TextureAlignment { offset: off, rotation: rot, scale: sc }, j5))
    }
}


impl Render for Vector2 {
    open spec fn wf(v: Vector2V) -> bool {
        is_number_lexeme(v.x) && is_number_lexeme(v.y)
    }

    open spec fn can_follow(rest: Seq<u8>) -> bool {
        num_opaque(rest)
    }

    /// The components space-separated: `x y`.
    open spec fn spec_render(v: Vector2V) -> Seq<u8> {
        v.x + seq![32u8] + v.y
    }

    fn render(&self) -> (r: Vec<u8>) {
        let mut out: Vec<u8> = Vec::new();
        push_bytes(&mut out, self.x.text.as_slice());
        out.push(32);
        push_bytes(&mut out, self.y.text.as_slice());
        proof {
            assert(out@ =~= Self::spec_render(self@));
        }
        out
    }

    proof fn lemma_render_parse(v: Vector2V, rest: Seq<u8>) {
        let s = Self::spec_render(v) + rest;
        let r1 = seq![32u8] + (v.y + rest);
        assert(s =~= v.x + r1);
        assert(num_opaque(r1)) by {
            assert(r1[0] == 32);
        }
        lemma_number_extends(v.x, r1);
        lemma_number_lexeme_head(v.y);
        assert(sep_opaque(v.y + rest)) by {
            assert((v.y + rest)[0] == v.y[0]);
        }
        lemma_skip_sep_blank(32u8, v.y + rest);
        lemma_number_extends(v.y, rest);
        assert(Vector2V { x: v.x, y: v.y } == v);
    }

    proof fn lemma_render_head(v: Vector2V, t: Seq<u8>) {
        lemma_number_lexeme_head(v.x);
        assert((Self::spec_render(v) + t)[0] == v.x[0]);
    }

    proof fn lemma_can_follow_line(t: Seq<u8>) {
        assert((seq![10u8] + t)[0] == 10);
    }
}

impl Render for TextureAlignment {
    open spec fn wf(v: TextureAlignmentV) -> bool {
        Vector2::wf(v.offset) && is_number_lexeme(v.rotation) && Vector2::wf(v.scale)
    }

    open spec fn can_follow(rest: Seq<u8>) -> bool {
        num_opaque(rest)
    }

    /// Offset, rotation and scale space-separated: `x y r x y`.
    open spec fn spec_render(v: TextureAlignmentV) -> Seq<u8> {
        Vector2::spec_render(v.offset) + seq![32u8] + v.rotation + seq![32u8]
            + Vector2::spec_render(v.scale)
    }

    fn render(&self) -> (r: Vec<u8>) {
        let mut out: Vec<u8> = Vec::new();
        let o = self.offset.render();
        push_bytes(&mut out, o.as_slice());
        out.push(32);
        push_bytes(&mut out, self.rotation.text.as_slice());
        out.push(32);
        let sc = self.scale.render();
        push_bytes(&mut out, sc.as_slice());
        proof {
            assert(out@ =~= Self::spec_render(self@));
        }
        out
    }

    proof fn lemma_render_parse(v: TextureAlignmentV, rest: Seq<u8>) {
        let sr = Vector2::spec_render(v.scale);
        let s = Self::spec_render(v) + rest;
        let r1 = seq![32u8] + (v.rotation + (seq![32u8] + (sr + rest)));
        assert(s =~= Vector2::spec_render(v.offset) + r1);
        assert(num_opaque(r1)) by {
            assert(r1[0] == 32);
        }
        Vector2::lemma_render_parse(v.offset, r1);
        lemma_number_lexeme_head(v.rotation);
        assert(sep_opaque(v.rotation + (seq![32u8] + (sr + rest)))) by {
            assert((v.rotation + (seq![32u8] + (sr + rest)))[0] == v.rotation[0]);
        }
        lemma_skip_sep_blank(32u8, v.rotation + (seq![32u8] + (sr + rest)));
        let r2 = seq![32u8] + (sr + rest);
        assert(num_opaque(r2)) by {
            assert(r2[0] == 32);
        }
        lemma_number_extends(v.rotation, r2);
        Vector2::lemma_render_head(v.scale, rest);
        lemma_skip_sep_blank(32u8, sr + rest);
        Vector2::lemma_render_parse(v.scale, rest);
        assert(TextureAlignmentV { offset: v.offset, rotation: v.rotation, scale: v.scale }
            == v);
    }

    proof fn lemma_render_head(v: TextureAlignmentV, t: Seq<u8>) {
        lemma_number_lexeme_head(v.offset.x);
        assert((Self::spec_render(v) + t)[0] == v.offset.x[0]);
    }

    proof fn lemma_can_follow_line(t: Seq<u8>) {
        assert((seq![10u8] + t)[0] == 10);
    }
}

} // verus!
