//! Stand-in grammar nodes that exercise the shared skeleton on its own:
//! an alignment that matches the literal `<texture alignment>` and a brush
//! that matches the literal `B`.

use vstd::prelude::*;
use crate::grammar::{Parse, Render, suffix_of};

verus! {

/// The bytes of the literal `<texture alignment>`.
pub open spec fn stub_alignment_token() -> Seq<u8> {
    seq![60u8, 116, 101, 120, 116, 117, 114, 101, 32, 97, 108, 105, 103, 110, 109, 101, 110, 116, 62]
}

/// Build the literal `<texture alignment>` as bytes.
pub fn stub_alignment_bytes() -> (r: Vec<u8>)
    ensures
        r@ == stub_alignment_token(),
{
    let mut r: Vec<u8> = Vec::new();
    r.push(60);
    r.push(116);
    r.push(101);
    r.push(120);
    r.push(116);
    r.push(117);
    r.push(114);
    r.push(101);
    r.push(32);
    r.push(97);
    r.push(108);
    r.push(105);
    r.push(103);
    r.push(110);
    r.push(109);
    r.push(101);
    r.push(110);
    r.push(116);
    r.push(62);
    proof {
        assert(r@ =~= stub_alignment_token());
    }
    r
}

/// An alignment that carries no data: it matches the literal
/// `<texture alignment>` and nothing else.
#[derive(Debug, Clone, Copy, PartialEq)]
pub struct StubAlignment;

impl View for StubAlignment {
    type V = ();

    open spec fn view(&self) -> () {
        ()
    }
}

impl Parse for StubAlignment {
    open spec fn spec_parse(s: Seq<u8>) -> Option<((), Seq<u8>)> {
        if s.len() >= 19 && s.take(19) == stub_alignment_token() {
            Some(((), s.skip(19)))
        } else {
            None
        }
    }

    open spec fn wont_parse(s: Seq<u8>) -> bool {
        s.len() == 0 || s[0] != 60
    }

    proof fn lemma_parse_shrinks(s: Seq<u8>) {
        if s.len() >= 19 && s.take(19) == stub_alignment_token() {
            assert(s.skip(19) == s.skip(19));
        }
    }

    proof fn lemma_wont_parse(s: Seq<u8>) {
        if s.len() >= 19 {
            assert(s.take(19)[0] == s[0]);
        }
    }

    fn parse(s: &[u8], i: usize) -> (r: Option<(Self, usize)>) {
        if s.len() - i < 19 {
            proof {
                assert(s@.skip(i as int).len() < 19);
            }
            return None;
        }
        let lit = stub_alignment_bytes();
        let window = vstd::slice::slice_subrange(s, i, i + 19);
        if crate::shared::bytes_eq(window, lit.as_slice()) {
            proof {
                crate::lexer::lemma_skip_take(s@, i as int, 19);
                crate::lexer::lemma_skip_skip(s@, i as int, 19);
            }
            Some((StubAlignment, i + 19))
        } else {
            proof {
                crate::lexer::lemma_skip_take(s@, i as int, 19);
            }
            None
        }
    }
}

/// A brush that carries no data: it matches the literal `B` and nothing
/// else.
#[derive(Debug, Clone, Copy, PartialEq)]
pub struct StubBrush;

impl View for StubBrush {
    type V = ();

    open spec fn view(&self) -> () {
        ()
    }
}

impl Parse for StubBrush {
    open spec fn spec_parse(s: Seq<u8>) -> Option<((), Seq<u8>)> {
        if s.len() > 0 && s[0] == 66 {
            Some(((), s.skip(1)))
        } else {
            None
        }
    }

    open spec fn wont_parse(s: Seq<u8>) -> bool {
        s.len() == 0 || s[0] != 66
    }

    proof fn lemma_parse_shrinks(s: Seq<u8>) {
        if s.len() > 0 && s[0] == 66 {
            assert(s.skip(1) == s.skip(1));
        }
    }

    proof fn lemma_wont_parse(s: Seq<u8>) {
    }

    fn parse(s: &[u8], i: usize) -> (r: Option<(Self, usize)>) {
        if i < s.len() && s[i] == 66 {
            proof {
                crate::lexer::lemma_skip_skip(s@, i as int, 1);
            }
            Some((StubBrush, i + 1))
        } else {
            None
        }
    }
}


impl Render for StubAlignment {
    open spec fn wf(v: ()) -> bool {
        true
    }

    open spec fn can_follow(rest: Seq<u8>) -> bool {
        true
    }

    open spec fn spec_render(v: ()) -> Seq<u8> {
        stub_alignment_token()
    }

    fn render(&self) -> (r: Vec<u8>) {
        stub_alignment_bytes()
    }

    proof fn lemma_render_parse(v: (), rest: Seq<u8>) {
        let s = stub_alignment_token() + rest;
        assert(s.take(19) =~= stub_alignment_token());
        assert(s.skip(19) =~= rest);
    }

    proof fn lemma_render_head(v: (), t: Seq<u8>) {
        let s = stub_alignment_token() + t;
        assert(s[0] == 60);
        assert(s[1] == 116);
    }

    proof fn lemma_can_follow_line(t: Seq<u8>) {
    }
}

impl Render for StubBrush {
    open spec fn wf(v: ()) -> bool {
        true
    }

    open spec fn can_follow(rest: Seq<u8>) -> bool {
        true
    }

    open spec fn spec_render(v: ()) -> Seq<u8> {
        seq![66u8]
    }

    fn render(&self) -> (r: Vec<u8>) {
        let mut out: Vec<u8> = Vec::new();
        out.push(66);
        proof {
            assert(out@ =~= seq![66u8]);
        }
        out
    }

    proof fn lemma_render_parse(v: (), rest: Seq<u8>) {
        let s = seq![66u8] + rest;
        assert(s[0] == 66);
        assert(s.skip(1) =~= rest);
    }

    proof fn lemma_render_head(v: (), t: Seq<u8>) {
        let s = seq![66u8] + t;
        assert(s[0] == 66);
        assert(!crate::lexer::is_space(s[0]) && !(s.len() >= 2 && s[0] == 47 && s[1] == 47));
    }

    proof fn lemma_can_follow_line(t: Seq<u8>) {
    }
}

} // verus!
