//! The grammar-node capability: every node of the document tree parses from
//! bytes and is specified against a grammar function over `Seq<u8>`, and the
//! generic repetition used for plane, brush and entity lists.

use vstd::prelude::*;
use crate::lexer::{
    spec_skip_sep, separator, lemma_skip_sep_suffix, sep_opaque, lemma_skip_sep_blank,
};

verus! {

/// Views of a sequence of nodes.
pub open spec fn views<T: View>(items: Seq<T>) -> Seq<T::V> {
    Seq::new(items.len(), |t: int| items[t]@)
}

/// `r` is what remains of `s` after dropping some prefix.
pub open spec fn suffix_of(r: Seq<u8>, s: Seq<u8>) -> bool {
    exists|n: int| 0 <= n <= s.len() && r == #[trigger] s.skip(n)
}

/// Being a suffix carries over across two steps.
pub proof fn lemma_suffix_of_trans(a: Seq<u8>, b: Seq<u8>, c: Seq<u8>)
    requires
        suffix_of(b, a),
        suffix_of(c, b),
    ensures
        suffix_of(c, a),
{
    let n1 = choose|n: int| 0 <= n <= a.len() && b == a.skip(n);
    let n2 = choose|n: int| 0 <= n <= b.len() && c == b.skip(n);
    crate::lexer::lemma_skip_skip(a, n1, n2);
    assert(c == a.skip(n1 + n2));
}

/// Separator skipping leaves a suffix.
pub proof fn lemma_skip_sep_suffix_of(s: Seq<u8>)
    ensures
        suffix_of(spec_skip_sep(s), s),
        spec_skip_sep(s).len() <= s.len(),
{
    lemma_skip_sep_suffix(s);
}

/// A node of the document grammar.
///
/// `spec_parse` is the node's grammar: the value recognised at the start of
/// a suffix together with what remains.  The executable `parse` is proved
/// to agree with it exactly, on success and on failure.
pub trait Parse: View + Sized {
    /// The node's grammar at the start of `s`.
    spec fn spec_parse(s: Seq<u8>) -> Option<(Self::V, Seq<u8>)>;

    /// Suffixes on which this node surely does not parse; used to show
    /// where a repetition stops.
    spec fn wont_parse(s: Seq<u8>) -> bool;

    /// A successful parse consumes at least one byte and leaves a suffix of
    /// its input.
    proof fn lemma_parse_shrinks(s: Seq<u8>)
        ensures
            Self::spec_parse(s) matches Some((v, r)) ==> suffix_of(r, s) && r.len() < s.len(),
    ;

    /// [`Parse::wont_parse`] is sound.
    proof fn lemma_wont_parse(s: Seq<u8>)
        requires
            Self::wont_parse(s),
        ensures
            Self::spec_parse(s) is None,
    ;

    /// Parse one node starting at `i`.
    fn parse(s: &[u8], i: usize) -> (r: Option<(Self, usize)>)
        requires
            i <= s@.len(),
        ensures
            match r {
                Some((v, j)) => i < j <= s@.len() && Self::spec_parse(s@.skip(i as int))
                    == Some((v@, s@.skip(j as int))),
                None => Self::spec_parse(s@.skip(i as int)) is None,
            },
    ;
}

/// Zero or more nodes, each followed by an optional separator.  Never
/// fails; stops at the first suffix where the node does not parse.
pub open spec fn spec_parse_list<T: Parse>(s: Seq<u8>) -> (Seq<T::V>, Seq<u8>)
    decreases s.len(),
{
    match T::spec_parse(s) {
        Some((v, r0)) => {
            let r = spec_skip_sep(r0);
            if r.len() < s.len() {
                let (vs, rest) = spec_parse_list::<T>(r);
                (seq![v] + vs, rest)
            } else {
                (seq![], s)
            }
        },
        None => (seq![], s),
    }
}

/// A node list leaves a suffix of its input.
pub proof fn lemma_parse_list_suffix<T: Parse>(s: Seq<u8>)
    ensures
        suffix_of(spec_parse_list::<T>(s).1, s),
        spec_parse_list::<T>(s).1.len() <= s.len(),
    decreases s.len(),
{
    match T::spec_parse(s) {
        Some((v, r0)) => {
            T::lemma_parse_shrinks(s);
            let r = spec_skip_sep(r0);
            lemma_skip_sep_suffix_of(r0);
            lemma_suffix_of_trans(s, r0, r);
            if r.len() < s.len() {
                lemma_parse_list_suffix::<T>(r);
                lemma_suffix_of_trans(s, r, spec_parse_list::<T>(r).1);
            } else {
                assert(s == s.skip(0));
            }
        },
        None => {
            assert(s == s.skip(0));
        },
    }
}

/// Parse a node list starting at `i`: as many separator-terminated nodes
/// as the input offers.
pub fn parse_list<T: Parse>(s: &[u8], i: usize) -> (r: (Vec<T>, usize))
    requires
        i <= s@.len(),
    ensures
        i <= r.1 <= s@.len(),
        spec_parse_list::<T>(s@.skip(i as int)).0 == views(r.0@),
        spec_parse_list::<T>(s@.skip(i as int)).1 == s@.skip(r.1 as int),
{
    let mut items: Vec<T> = Vec::new();
    let mut cur = i;
    proof {
        assert(views(items@) =~= Seq::<T::V>::empty());
        assert(Seq::<T::V>::empty() + spec_parse_list::<T>(s@.skip(i as int)).0
            =~= spec_parse_list::<T>(s@.skip(i as int)).0);
    }
    loop
        invariant
            i <= cur <= s@.len(),
            spec_parse_list::<T>(s@.skip(i as int)).0 == views(items@) + spec_parse_list::<T>(
                s@.skip(cur as int),
            ).0,
            spec_parse_list::<T>(s@.skip(i as int)).1 == spec_parse_list::<T>(
                s@.skip(cur as int),
            ).1,
        decreases s@.len() - cur,
    {
        let ghost scur = s@.skip(cur as int);
        let (v, j1) = match T::parse(s, cur) {
            Some(p) => p,
            None => {
                proof {
                    assert(spec_parse_list::<T>(scur).0 == Seq::<T::V>::empty());
                    assert(views(items@) + Seq::<T::V>::empty() =~= views(items@));
                }
                return (items, cur);
            },
        };
        let j2 = separator(s, j1);
        let ghost vv = v@;
        let ghost prev = views(items@);
        items.push(v);
        proof {
            let tail = spec_parse_list::<T>(s@.skip(j2 as int));
            assert(spec_parse_list::<T>(scur).0 == seq![vv] + tail.0);
            assert(spec_parse_list::<T>(scur).1 == tail.1);
            assert(views(items@) =~= prev.push(vv));
            assert(prev + (seq![vv] + tail.0) =~= prev.push(vv) + tail.0);
        }
        cur = j2;
    }
}


/// A grammar node that also renders back to text.
///
/// `spec_render` is the node's inverse grammar.  For every tree that
/// satisfies `wf`, parsing the rendering yields the tree back, whatever
/// suffix in `can_follow` comes after it: that is the round-trip theorem
/// each implementation proves.
pub trait Render: Parse {
    /// Trees whose rendering parses back to the same tree.
    spec fn wf(v: Self::V) -> bool;

    /// Suffixes that may follow this node's rendering without changing how
    /// it parses back.
    spec fn can_follow(rest: Seq<u8>) -> bool;

    /// The text of a tree.
    spec fn spec_render(v: Self::V) -> Seq<u8>;

    /// Render one node.  Rendering is total: it needs no well-formedness.
    fn render(&self) -> (r: Vec<u8>)
        ensures
            r@ == Self::spec_render(self@),
    ;

    /// Round trip: parsing the rendering of a well-formed tree yields the
    /// tree back and stops exactly where the rendering ends.
    proof fn lemma_render_parse(v: Self::V, rest: Seq<u8>)
        requires
            Self::wf(v),
            Self::can_follow(rest),
        ensures
            Self::spec_parse(Self::spec_render(v) + rest) == Some((v, rest)),
    ;

    /// A rendering is never empty, never begins with a separator, and
    /// never begins with a quote (so a field block never mistakes it for
    /// another pair).
    proof fn lemma_render_head(v: Self::V, t: Seq<u8>)
        requires
            Self::wf(v),
        ensures
            Self::spec_render(v).len() > 0,
            sep_opaque(Self::spec_render(v) + t),
            (Self::spec_render(v) + t)[0] != 34,
    ;

    /// A line break may always follow this node's rendering.
    proof fn lemma_can_follow_line(t: Seq<u8>)
        ensures
            Self::can_follow(seq![10u8] + t),
    ;
}

/// Append bytes to a buffer.
pub fn push_bytes(out: &mut Vec<u8>, b: &[u8])
    ensures
        final(out)@ == old(out)@ + b@,
{
    let mut other = vstd::slice::slice_to_vec(b);
    out.append(&mut other);
}

/// The text of a node list: each node's rendering on a line of its own.
pub open spec fn spec_render_list<T: Render>(items: Seq<T::V>) -> Seq<u8>
    decreases items.len(),
{
    if items.len() == 0 {
        Seq::empty()
    } else {
        T::spec_render(items[0]) + seq![10u8] + spec_render_list::<T>(items.skip(1))
    }
}

/// Extending a list by one node appends its line.
pub proof fn lemma_render_list_push<T: Render>(items: Seq<T::V>, v: T::V)
    ensures
        spec_render_list::<T>(items.push(v)) == spec_render_list::<T>(items) + T::spec_render(v)
            + seq![10u8],
    decreases items.len(),
{
    let ext = items.push(v);
    if items.len() == 0 {
        assert(ext[0] == v);
        assert(ext.skip(1) =~= Seq::<T::V>::empty());
        assert(spec_render_list::<T>(ext.skip(1)) == Seq::<u8>::empty());
        assert(spec_render_list::<T>(items) == Seq::<u8>::empty());
        assert(spec_render_list::<T>(ext) =~= Seq::<u8>::empty() + T::spec_render(v)
            + seq![10u8]);
    } else {
        assert(ext[0] == items[0]);
        assert(ext.skip(1) =~= items.skip(1).push(v));
        lemma_render_list_push::<T>(items.skip(1), v);
        assert(T::spec_render(items[0]) + seq![10u8] + (spec_render_list::<T>(items.skip(1))
            + T::spec_render(v) + seq![10u8]) =~= spec_render_list::<T>(items)
            + T::spec_render(v) + seq![10u8]);
    }
}

/// Render a node list, one node per line.
pub fn render_list<T: Render>(items: &Vec<T>) -> (r: Vec<u8>)
    ensures
        r@ == spec_render_list::<T>(views(items@)),
{
    let mut out: Vec<u8> = Vec::new();
    let mut t: usize = 0;
    proof {
        assert(views(items@).take(0) =~= Seq::<T::V>::empty());
        assert(out@ =~= spec_render_list::<T>(views(items@).take(0)));
    }
    loop
        invariant
            t <= items@.len(),
            out@ == spec_render_list::<T>(views(items@).take(t as int)),
        decreases items@.len() - t,
    {
        if t == items.len() {
            proof {
                assert(views(items@).take(t as int) =~= views(items@));
            }
            return out;
        }
        let piece = items[t].render();
        push_bytes(&mut out, piece.as_slice());
        out.push(10);
        proof {
            lemma_render_list_push::<T>(views(items@).take(t as int), items@[t as int]@);
            assert(views(items@).take(t + 1) =~= views(items@).take(t as int).push(
                items@[t as int]@,
            ));
            assert(spec_render_list::<T>(views(items@).take(t as int)) + piece@ + seq![10u8]
                =~= out@);
        }
        t = t + 1;
    }
}

/// Round trip of a node list: the rendered lines parse back to the same
/// nodes and stop at a suffix on which the node surely does not parse.
pub proof fn lemma_render_parse_list<T: Render>(items: Seq<T::V>, rest: Seq<u8>)
    requires
        forall|k: int| 0 <= k < items.len() ==> T::wf(#[trigger] items[k]),
        T::wont_parse(rest),
        sep_opaque(rest),
    ensures
        spec_parse_list::<T>(spec_render_list::<T>(items) + rest) == (items, rest),
    decreases items.len(),
{
    let s = spec_render_list::<T>(items) + rest;
    if items.len() == 0 {
        assert(s =~= rest);
        T::lemma_wont_parse(rest);
        assert(items =~= Seq::<T::V>::empty());
        assert(spec_parse_list::<T>(rest).0 =~= items);
    } else {
        let v0 = items[0];
        let tail = spec_render_list::<T>(items.skip(1));
        let after = seq![10u8] + (tail + rest);
        assert(s =~= T::spec_render(v0) + after);
        T::lemma_can_follow_line(tail + rest);
        T::lemma_render_parse(v0, after);
        assert(T::spec_parse(s) == Some((v0, after)));
        if items.len() == 1 {
            assert(tail + rest =~= rest);
            lemma_skip_sep_blank(10u8, tail + rest);
        } else {
            assert(items.skip(1)[0] == items[1]);
            assert(tail + rest =~= T::spec_render(items[1]) + (seq![10u8] + (
            spec_render_list::<T>(items.skip(1).skip(1)) + rest)));
            T::lemma_render_head(
                items[1],
                seq![10u8] + (spec_render_list::<T>(items.skip(1).skip(1)) + rest),
            );
            lemma_skip_sep_blank(10u8, tail + rest);
        }
        assert(spec_skip_sep(after) == tail + rest);
        T::lemma_render_head(v0, after);
        assert((tail + rest).len() < s.len());
        lemma_render_parse_list::<T>(items.skip(1), rest);
        assert(seq![v0] + items.skip(1) =~= items);
    }
}

} // verus!
