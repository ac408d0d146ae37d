//! Format selection: a format fixes the concrete entity type at the type
//! level, so Standard and Valve trees can never mix in one document.

use vstd::prelude::*;
use crate::lexer::{spec_skip_sep, separator};
use crate::grammar::{
    Parse, Render, spec_parse_list, parse_list, views, spec_render_list, render_list,
    lemma_render_parse_list,
};
use crate::lexer::{sep_opaque, lemma_skip_sep_opaque, lemma_skip_sep_absorbs};

verus! {

/// A map format, defined by the entity type that its documents contain.
pub trait Format {
    type Entity: Parse;
}

/// A whole document at the specification level: its entities in source
/// order.
#[verifier::ext_equal]
pub ghost struct MapFileV<EV> {
    pub entities: Seq<EV>,
}

/// A whole map document: a sequence of entities of the format's entity
/// type.
#[derive(Debug, Clone, PartialEq)]
pub struct MapFile<F: Format> {
    pub entities: Vec<F::Entity>,
}

impl<F: Format> View for MapFile<F> {
    type V = MapFileV<<F::Entity as View>::V>;

    open spec fn view(&self) -> MapFileV<<F::Entity as View>::V> {
        MapFileV { entities: Seq::new(self.entities@.len(), |t: int| self.entities@[t]@) }
    }
}

impl<F: Format> MapFile<F> {
    /// The document grammar: an optional leading separator, then entities.
    /// An input that holds nothing but separators is the empty document;
    /// otherwise at least one entity is required.
    pub open spec fn spec_parse(s: Seq<u8>) -> Option<
        (MapFileV<<F::Entity as View>::V>, Seq<u8>),
    > {
        let r0 = spec_skip_sep(s);
        if r0.len() == 0 {
            Some((MapFileV { entities: Seq::empty() }, r0))
        } else {
            let (es, r1) = spec_parse_list::<F::Entity>(r0);
            if es.len() == 0 {
                None
            } else {
                Some((MapFileV { entities: es }, r1))
            }
        }
    }

    /// Parse a document starting at `i`.  This is the embeddable entry
    /// point: trailing input that is no entity is left unconsumed and
    /// reported through the returned position.
    pub fn parse(s: &[u8], i: usize) -> (r: Option<(Self, usize)>)
        requires
            i <= s@.len(),
        ensures
            match r {
                Some((m, j)) => i <= j <= s@.len() && Self::spec_parse(s@.skip(i as int))
                    == Some((m@, s@.skip(j as int))),
                None => Self::spec_parse(s@.skip(i as int)) is None,
            },
    {
        let j0 = separator(s, i);
        if j0 == s.len() {
            let m = MapFile { entities: Vec::new() };
            proof {
                assert(m@.entities =~= Seq::<<F::Entity as View>::V>::empty());
                assert(s@.skip(j0 as int).len() == 0);
            }
            return Some((m, j0));
        }
        let (entities, j1) = parse_list::<F::Entity>(s, j0);
        if entities.len() == 0 {
            proof {
                assert(s@.skip(j0 as int).len() > 0);
                assert(views(entities@).len() == 0);
            }
            return None;
        }
        let m = MapFile { entities };
        proof {
            assert(m@.entities =~= views(m.entities@));
            assert(m@.entities.len() > 0);
        }
        Some((m, j1))
    }
}


impl<F: Format> MapFile<F> where <F as Format>::Entity: Render {
    /// Documents that render back faithfully: every entity is well-formed,
    /// and the format's entity grammar never matches at the end of the
    /// input, so the entity list stops exactly there.
    pub open spec fn wf(v: MapFileV<<F::Entity as View>::V>) -> bool {
        &&& forall|k: int|
            0 <= k < v.entities.len() ==> <F::Entity as Render>::wf(#[trigger] v.entities[k])
        &&& <F::Entity as Parse>::wont_parse(Seq::empty())
    }

    /// The text of a document: one entity per line.
    pub open spec fn spec_render(v: MapFileV<<F::Entity as View>::V>) -> Seq<u8> {
        spec_render_list::<F::Entity>(v.entities)
    }

    /// Render a whole document.
    pub fn render(&self) -> (r: Vec<u8>)
        ensures
            r@ == Self::spec_render(self@),
    {
        let r = render_list::<F::Entity>(&self.entities);
        proof {
            assert(self@.entities =~= views(self.entities@));
        }
        r
    }

    /// Round trip: a well-formed document tree parses back from its own
    /// rendering, as the same tree, with nothing left over.
    pub proof fn lemma_render_parse(v: MapFileV<<F::Entity as View>::V>)
        requires
            Self::wf(v),
        ensures
            Self::spec_parse(Self::spec_render(v)) == Some((v, Seq::<u8>::empty())),
    {
        let s = Self::spec_render(v);
        if v.entities.len() == 0 {
            assert(s.len() == 0);
            lemma_skip_sep_opaque(s);
            assert(MapFileV::<<F::Entity as View>::V> { entities: Seq::empty() } == v) by {
                assert(v.entities =~= Seq::<<F::Entity as View>::V>::empty());
            }
        } else {
            let e0 = v.entities[0];
            assert(sep_opaque(s)) by {
                <F::Entity as Render>::lemma_render_head(
                    e0,
                    seq![10u8] + spec_render_list::<F::Entity>(v.entities.skip(1)),
                );
                assert(s =~= <F::Entity as Render>::spec_render(e0) + (seq![10u8]
                    + spec_render_list::<F::Entity>(v.entities.skip(1))));
            }
            lemma_skip_sep_opaque(s);
            assert(s.len() > 0) by {
                <F::Entity as Render>::lemma_render_head(
                    e0,
                    seq![10u8] + spec_render_list::<F::Entity>(v.entities.skip(1)),
                );
            }
            lemma_render_parse_list::<F::Entity>(v.entities, Seq::empty());
            assert(spec_render_list::<F::Entity>(v.entities) + Seq::<u8>::empty() =~= s);
            assert(MapFileV::<<F::Entity as View>::V> { entities: v.entities } == v);
        }
    }
}


/// Separator transparency at the document level: pure separator text
/// (blanks and complete line comments) put in front of a document changes
/// nothing about how it parses.  Together with
/// [`crate::lexer::lemma_skip_sep_absorbs`] this covers every
/// separator-legal position, since each one is consumed by some separator
/// skip and parsing depends only on the suffix that the skip leaves.
pub proof fn lemma_separator_insertion<F: Format>(w: Seq<u8>, s: Seq<u8>)
    requires
        crate::lexer::spec_skip_sep(w) == Seq::<u8>::empty(),
    ensures
        MapFile::<F>::spec_parse(w + s) == MapFile::<F>::spec_parse(s),
{
    lemma_skip_sep_absorbs(w, s);
}

} // verus!
