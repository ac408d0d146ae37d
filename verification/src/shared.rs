//! Grammar nodes shared by every map format: key/value fields, vectors,
//! textures, planes, brushes and entities.

use vstd::prelude::*;
use crate::lexer::{
    spec_skip_sep, spec_lex_qstring, spec_qbody, spec_lex_number, spec_lex_name,
    spec_mantissa_len, spec_exponent_len, digits_len, nonblank_len, is_digit,
    lemma_skip_sep_suffix, lemma_number_parts_bound, lemma_digits_len_bound,
    lemma_nonblank_len_bound, lemma_skip_skip, separator, qstring, number, name,
};
use crate::grammar::{
    Parse, Render, suffix_of, lemma_suffix_of_trans, lemma_skip_sep_suffix_of, spec_parse_list,
    parse_list, lemma_parse_list_suffix, views, push_bytes, spec_render_list, render_list,
    lemma_render_parse_list,
};
use crate::lexer::{
    sep_opaque, num_opaque, qbody_ok, is_space, lemma_skip_sep_opaque, lemma_skip_sep_blank,
    lemma_number_extends, lemma_qstring_closes, lemma_nonblank_len_concat,
};

verus! {

/// A numeric literal kept verbatim as its source text, so that a parsed
/// document renders back exactly.  The text always satisfies
/// [`is_number_lexeme`] when it came out of a parse.
#[derive(Debug, Clone, PartialEq)]
pub struct Number {
    pub text: Vec<u8>,
}

impl View for Number {
    type V = Seq<u8>;

    open spec fn view(&self) -> Seq<u8> {
        self.text@
    }
}

/// `t` is exactly one numeric literal, nothing more.
pub open spec fn is_number_lexeme(t: Seq<u8>) -> bool {
    spec_lex_number(t) == Some((t, Seq::<u8>::empty()))
}

impl Parse for Number {
    open spec fn spec_parse(s: Seq<u8>) -> Option<(Seq<u8>, Seq<u8>)> {
        spec_lex_number(s)
    }

    open spec fn wont_parse(s: Seq<u8>) -> bool {
        s.len() == 0 || !(is_digit(s[0]) || s[0] == 43 || s[0] == 45 || s[0] == 46)
    }

    proof fn lemma_parse_shrinks(s: Seq<u8>) {
        let sg: int = if s.len() > 0 && (s[0] == 43 || s[0] == 45) {
            1
        } else {
            0
        };
        let t = s.skip(sg);
        lemma_number_parts_bound(t);
        let m = spec_mantissa_len(t);
        if m >= 0 {
            lemma_digits_len_bound(t);
            if digits_len(t) == 0 {
                lemma_digits_len_bound(t.skip(1));
            } else {
                if t.len() > digits_len(t) && t[digits_len(t)] == 46 {
                    lemma_digits_len_bound(t.skip(digits_len(t) + 1));
                }
            }
            assert(1 <= m <= t.len());
            lemma_number_parts_bound(t.skip(m));
            assert(t.skip(m).len() == t.len() - m);
            let n = sg + m + spec_exponent_len(t.skip(m));
            assert(1 <= n <= s.len());
            assert(spec_lex_number(s) == Some((s.take(n), s.skip(n))));
        }
    }

    proof fn lemma_wont_parse(s: Seq<u8>) {
        assert(digits_len(s) == 0);
    }

    fn parse(s: &[u8], i: usize) -> (r: Option<(Self, usize)>) {
        match number(s, i) {
            Some((v, j)) => Some((Number { text: v }, j)),
            None => None,
        }
    }
}

/// A three-component vector at the specification level: each component is
/// the text of its numeric literal.
#[verifier::ext_equal]
pub ghost struct Vector3V {
    pub x: Seq<u8>,
    pub y: Seq<u8>,
    pub z: Seq<u8>,
}

/// A simple three-dimensional vector; each component keeps its source
/// text.
#[derive(Debug, Clone, PartialEq)]
pub struct Vector3 {
    pub x: Number,
    pub y: Number,
    pub z: Number,
}

impl View for Vector3 {
    type V = Vector3V;

    open spec fn view(&self) -> Vector3V {
        Vector3V { x: self.x@, y: self.y@, z: self.z@ }
    }
}

impl Parse for Vector3 {
    /// Three numeric literals, the first two separator-terminated.
    open spec fn spec_parse(s: Seq<u8>) -> Option<(Vector3V, Seq<u8>)> {
        match Number::spec_parse(s) {
            Some((x, r1)) => {
                let r2 = spec_skip_sep(r1);
                match Number::spec_parse(r2) {
                    Some((y, r3)) => {
                        let r4 = spec_skip_sep(r3);
                        match Number::spec_parse(r4) {
                            Some((z, r5)) => Some((Vector3V { x, y, z }, r5)),
                            None => None,
                        }
                    },
                    None => None,
                }
            },
            None => None,
        }
    }

    open spec fn wont_parse(s: Seq<u8>) -> bool {
        Number::wont_parse(s)
    }

    proof fn lemma_parse_shrinks(s: Seq<u8>) {
        if Number::spec_parse(s) is Some {
            let (x, r1) = Number::spec_parse(s)->Some_0;
            Number::lemma_parse_shrinks(s);
            let r2 = spec_skip_sep(r1);
            lemma_skip_sep_suffix_of(r1);
            lemma_suffix_of_trans(s, r1, r2);
            if Number::spec_parse(r2) is Some {
                let (y, r3) = Number::spec_parse(r2)->Some_0;
                Number::lemma_parse_shrinks(r2);
                let r4 = spec_skip_sep(r3);
                lemma_skip_sep_suffix_of(r3);
                lemma_suffix_of_trans(r2, r3, r4);
                lemma_suffix_of_trans(s, r2, r4);
                if Number::spec_parse(r4) is Some {
                    let (z, r5) = Number::spec_parse(r4)->Some_0;
                    Number::lemma_parse_shrinks(r4);
                    lemma_suffix_of_trans(s, r4, r5);
                }
            }
        }
    }

    proof fn lemma_wont_parse(s: Seq<u8>) {
        Number::lemma_wont_parse(s);
    }

    fn parse(s: &[u8], i: usize) -> (r: Option<(Self, usize)>) {
        let (x, j1) = match Number::parse(s, i) {
            Some(p) => p,
            None => {
                return None;
            },
        };
        let j2 = separator(s, j1);
        let (y, j3) = match Number::parse(s, j2) {
            Some(p) => p,
            None => {
                return None;
            },
        };
        let j4 = separator(s, j3);
        let (z, j5) = match Number::parse(s, j4) {
            Some(p) => p,
            None => {
                return None;
            },
        };
        Some((Vector3 { x, y, z }, j5))
    }
}

/// One key/value pair at the specification level: the key and the value as
/// byte text.
pub type PairV = (Seq<u8>, Seq<u8>);

/// Insert a pair into an accumulated pair list: when the key is already
/// present its value is overwritten in place, otherwise the pair goes to
/// the end.  This is the visible last-write-wins rule for duplicate keys.
pub open spec fn fields_insert(ps: Seq<PairV>, k: Seq<u8>, v: Seq<u8>) -> Seq<PairV>
    decreases ps.len(),
{
    if ps.len() == 0 {
        seq![(k, v)]
    } else if ps[0].0 == k {
        seq![(k, v)] + ps.skip(1)
    } else {
        seq![ps[0]] + fields_insert(ps.skip(1), k, v)
    }
}

/// Fold a raw pair list, in order, into an accumulated list by repeated
/// [`fields_insert`].
pub open spec fn fields_fold(acc: Seq<PairV>, ps: Seq<PairV>) -> Seq<PairV>
    decreases ps.len(),
{
    if ps.len() == 0 {
        acc
    } else {
        fields_fold(fields_insert(acc, ps[0].0, ps[0].1), ps.skip(1))
    }
}

/// Raw pair list at the start of `s`: zero or more `"key" "value"` pairs,
/// each pair and each key followed by an optional separator.  Never fails;
/// yields the pairs in source order and the remaining suffix.
pub open spec fn spec_parse_pairs(s: Seq<u8>) -> (Seq<PairV>, Seq<u8>)
    decreases s.len(),
{
    match spec_lex_qstring(s) {
        Some((k, r1)) => {
            let r2 = spec_skip_sep(r1);
            match spec_lex_qstring(r2) {
                Some((v, r3)) => {
                    let r4 = spec_skip_sep(r3);
                    if r4.len() < s.len() {
                        let (ps, rest) = spec_parse_pairs(r4);
                        (seq![(k, v)] + ps, rest)
                    } else {
                        (seq![], s)
                    }
                },
                None => (seq![], s),
            }
        },
        None => (seq![], s),
    }
}

/// A raw pair list leaves a suffix of its input.
pub proof fn lemma_parse_pairs_suffix(s: Seq<u8>)
    ensures
        suffix_of(spec_parse_pairs(s).1, s),
        spec_parse_pairs(s).1.len() <= s.len(),
    decreases s.len(),
{
    if spec_lex_qstring(s) is Some {
        let (k, r1) = spec_lex_qstring(s)->Some_0;
        let r2 = spec_skip_sep(r1);
        if spec_lex_qstring(r2) is Some {
            let (v, r3) = spec_lex_qstring(r2)->Some_0;
            let r4 = spec_skip_sep(r3);
            if r4.len() < s.len() {
                lemma_parse_pairs_suffix(r4);
                lemma_qstring_suffix(s);
                lemma_skip_sep_suffix_of(r1);
                lemma_suffix_of_trans(s, r1, r2);
                lemma_qstring_suffix(r2);
                lemma_suffix_of_trans(s, r2, r3);
                lemma_skip_sep_suffix_of(r3);
                lemma_suffix_of_trans(s, r3, r4);
                lemma_suffix_of_trans(s, r4, spec_parse_pairs(r4).1);
            } else {
                assert(s == s.skip(0));
            }
        } else {
            assert(s == s.skip(0));
        }
    } else {
        assert(s == s.skip(0));
    }
}

/// A quoted run leaves a suffix of its input, at least two bytes shorter.
pub proof fn lemma_qstring_suffix(s: Seq<u8>)
    ensures
        spec_lex_qstring(s) matches Some((b, r)) ==> suffix_of(r, s) && r.len() + 2 <= s.len(),
{
    if s.len() > 0 && s[0] == 34 {
        lemma_qbody_suffix(s.skip(1));
        if spec_qbody(s.skip(1)) is Some {
            let (b, r) = spec_qbody(s.skip(1))->Some_0;
            let n = choose|n: int|
                1 <= n <= s.skip(1).len() && r == #[trigger] s.skip(1).skip(n);
            lemma_skip_skip(s, 1, n);
            assert(r == s.skip(1 + n));
        }
    }
}

/// The body of a quoted run, closing quote included, takes at least one
/// byte and leaves a suffix.
proof fn lemma_qbody_suffix(s: Seq<u8>)
    ensures
        spec_qbody(s) matches Some((b, r)) ==> exists|n: int|
            1 <= n <= s.len() && r == #[trigger] s.skip(n),
    decreases s.len(),
{
    if s.len() == 0 {
    } else if s[0] == 34 {
        assert(spec_qbody(s)->Some_0.1 == s.skip(1));
    } else if s[0] == 92 {
        if s.len() >= 2 {
            lemma_qbody_suffix(s.skip(2));
            if spec_qbody(s.skip(2)) is Some {
                let (b, r) = spec_qbody(s.skip(2))->Some_0;
                let n = choose|n: int|
                    1 <= n <= s.skip(2).len() && r == #[trigger] s.skip(2).skip(n);
                lemma_skip_skip(s, 2, n);
                assert(r == s.skip(2 + n));
            }
        }
    } else {
        lemma_qbody_suffix(s.skip(1));
        if spec_qbody(s.skip(1)) is Some {
            let (b, r) = spec_qbody(s.skip(1))->Some_0;
            let n = choose|n: int|
                1 <= n <= s.skip(1).len() && r == #[trigger] s.skip(1).skip(n);
            lemma_skip_skip(s, 1, n);
            assert(r == s.skip(1 + n));
        }
    }
}

/// Folding a pair list extended by one pair is one insert into the folded
/// list.
pub proof fn lemma_fields_fold_snoc(acc: Seq<PairV>, ps: Seq<PairV>, k: Seq<u8>, v: Seq<u8>)
    ensures
        fields_fold(acc, ps.push((k, v))) == fields_insert(fields_fold(acc, ps), k, v),
    decreases ps.len(),
{
    let ext = ps.push((k, v));
    if ps.len() == 0 {
        assert(ext[0] == (k, v));
        assert(ext.skip(1) =~= Seq::<PairV>::empty());
        assert(fields_fold(acc, ext) == fields_fold(
            fields_insert(acc, ext[0].0, ext[0].1),
            ext.skip(1),
        ));
        assert(fields_fold(fields_insert(acc, k, v), ext.skip(1)) == fields_insert(acc, k, v));
    } else {
        assert(ext[0] == ps[0]);
        assert(ext.skip(1) =~= ps.skip(1).push((k, v)));
        assert(fields_fold(acc, ext) == fields_fold(
            fields_insert(acc, ext[0].0, ext[0].1),
            ext.skip(1),
        ));
        lemma_fields_fold_snoc(fields_insert(acc, ps[0].0, ps[0].1), ps.skip(1), k, v);
        assert(fields_fold(acc, ps) == fields_fold(
            fields_insert(acc, ps[0].0, ps[0].1),
            ps.skip(1),
        ));
    }
}

/// An entity's key/value pairs, keys unique, in first-occurrence order.
/// In a map file they look like
/// ```plain
/// "classname" "light"
/// "light" "600"
/// ```
#[derive(Debug, Clone, PartialEq)]
pub struct Fields {
    pub pairs: Vec<(Vec<u8>, Vec<u8>)>,
}

impl View for Fields {
    type V = Seq<PairV>;

    open spec fn view(&self) -> Seq<PairV> {
        Seq::new(self.pairs@.len(), |t: int| (self.pairs@[t].0@, self.pairs@[t].1@))
    }
}

/// No key occurs twice in the pair list.
pub open spec fn keys_unique(ps: Seq<PairV>) -> bool {
    forall|a: int, b: int| 0 <= a < b < ps.len() ==> (#[trigger] ps[a]).0 != (#[trigger] ps[b]).0
}

/// Byte-wise equality of two slices.
pub fn bytes_eq(a: &[u8], b: &[u8]) -> (r: bool)
    ensures
        r == (a@ == b@),
{
    if a.len() != b.len() {
        assert(a@ != b@) by {
            assert(a@.len() != b@.len());
        }
        return false;
    }
    let mut t: usize = 0;
    loop
        invariant
            t <= a@.len(),
            a@.len() == b@.len(),
            forall|q: int| 0 <= q < t ==> a@[q] == b@[q],
        decreases a@.len() - t,
    {
        if t == a.len() {
            assert(a@ =~= b@);
            return true;
        }
        if a[t] != b[t] {
            return false;
        }
        t = t + 1;
    }
}

impl Fields {
    /// An empty field set.
    pub fn new() -> (r: Fields)
        ensures
            r@ == Seq::<PairV>::empty(),
    {
        let r = Fields { pairs: Vec::new() };
        proof {
            assert(r@ =~= Seq::<PairV>::empty());
        }
        r
    }

    /// Insert a pair, overwriting in place when the key is already present.
    pub fn insert(&mut self, k: Vec<u8>, v: Vec<u8>)
        ensures
            final(self)@ == fields_insert(old(self)@, k@, v@),
    {
        let ghost ps0 = old(self)@;
        let mut t: usize = 0;
        let mut pos: Option<usize> = None;
        proof {
            assert(ps0.skip(0) =~= ps0);
            assert(ps0.take(0) + fields_insert(ps0, k@, v@) =~= fields_insert(ps0, k@, v@));
        }
        loop
            invariant_except_break
                pos is None,
            invariant
                t <= self.pairs@.len(),
                self@ == ps0,
                forall|q: int| 0 <= q < t ==> ps0[q].0 != k@,
                fields_insert(ps0, k@, v@) == ps0.take(t as int) + fields_insert(
                    ps0.skip(t as int),
                    k@,
                    v@,
                ),
            ensures
                t <= self.pairs@.len(),
                self@ == ps0,
                fields_insert(ps0, k@, v@) == ps0.take(t as int) + fields_insert(
                    ps0.skip(t as int),
                    k@,
                    v@,
                ),
                match pos {
                    Some(w) => w == t && t < self.pairs@.len() && ps0[t as int].0 == k@,
                    None => t == self.pairs@.len(),
                },
            decreases self.pairs@.len() - t,
        {
            if t == self.pairs.len() {
                break ;
            }
            if bytes_eq(self.pairs[t].0.as_slice(), k.as_slice()) {
                pos = Some(t);
                break ;
            }
            proof {
                let tail = ps0.skip(t as int);
                assert(tail.len() > 0 && tail[0].0 != k@);
                assert(fields_insert(tail, k@, v@) == seq![tail[0]] + fields_insert(
                    tail.skip(1),
                    k@,
                    v@,
                ));
                lemma_skip_skip(ps0, t as int, 1);
                assert(ps0.take(t as int) + (seq![tail[0]] + fields_insert(
                    ps0.skip(t + 1),
                    k@,
                    v@,
                )) =~= ps0.take(t + 1) + fields_insert(ps0.skip(t + 1), k@, v@));
            }
            t = t + 1;
        }
        match pos {
            Some(w) => {
                proof {
                    assert(w == t);
                    let tail = ps0.skip(w as int);
                    assert(tail.len() > 0 && tail[0].0 == k@);
                    assert(fields_insert(tail, k@, v@) == seq![(k@, v@)] + tail.skip(1));
                }
                self.pairs.set(w, (k, v));
                proof {
                    assert(self@ =~= ps0.take(w as int) + (seq![(k@, v@)] + ps0.skip(
                        w as int,
                    ).skip(1)));
                }
            },
            None => {
                proof {
                    assert(ps0.skip(t as int).len() == 0);
                    assert(fields_insert(ps0.skip(t as int), k@, v@) == seq![(k@, v@)]);
                }
                self.pairs.push((k, v));
                proof {
                    assert(self@ =~= ps0.take(t as int) + seq![(k@, v@)]);
                }
            },
        }
    }

    /// Look up the value stored under `k`.
    pub fn get(&self, k: &[u8]) -> (r: Option<&Vec<u8>>)
        ensures
            match r {
                Some(v) => spec_lookup(self@, k@) == Some(v@),
                None => spec_lookup(self@, k@) is None,
            },
    {
        let mut t: usize = 0;
        proof {
            assert(self@.skip(0) =~= self@);
        }
        loop
            invariant
                t <= self.pairs@.len(),
                spec_lookup(self@, k@) == spec_lookup(self@.skip(t as int), k@),
            decreases self.pairs@.len() - t,
        {
            if t == self.pairs.len() {
                proof {
                    assert(self@.skip(t as int).len() == 0);
                }
                return None;
            }
            if bytes_eq(self.pairs[t].0.as_slice(), k) {
                proof {
                    assert(self@.skip(t as int)[0] == (k@, self.pairs@[t as int].1@));
                }
                return Some(&self.pairs[t].1);
            }
            proof {
                assert(self@.skip(t as int)[0] == self@[t as int]);
                assert(self@[t as int].0 != k@);
                lemma_skip_skip(self@, t as int, 1);
            }
            t = t + 1;
        }
    }

    /// The parsed field block at the start of `s`: the folded pair list and
    /// the remaining suffix.  A field block never fails; at worst it is
    /// empty.
    pub open spec fn spec_parse(s: Seq<u8>) -> (Seq<PairV>, Seq<u8>) {
        let (ps, rest) = spec_parse_pairs(s);
        (fields_fold(seq![], ps), rest)
    }

    /// Parse a field block starting at `i`: zero or more `"key" "value"`
    /// pairs folded with the last-write-wins rule.
    pub fn parse(s: &[u8], i: usize) -> (r: (Fields, usize))
        requires
            i <= s@.len(),
        ensures
            i <= r.1 <= s@.len(),
            Fields::spec_parse(s@.skip(i as int)).0 == r.0@,
            Fields::spec_parse(s@.skip(i as int)).1 == s@.skip(r.1 as int),
    {
        let mut f = Fields::new();
        let mut cur = i;
        let ghost mut gps: Seq<PairV> = Seq::empty();
        proof {
            assert(Seq::<PairV>::empty() + spec_parse_pairs(s@.skip(i as int)).0
                =~= spec_parse_pairs(s@.skip(i as int)).0);
        }
        loop
            invariant
                i <= cur <= s@.len(),
                f@ == fields_fold(Seq::empty(), gps),
                spec_parse_pairs(s@.skip(i as int)).0 == gps + spec_parse_pairs(
                    s@.skip(cur as int),
                ).0,
                spec_parse_pairs(s@.skip(i as int)).1 == spec_parse_pairs(
                    s@.skip(cur as int),
                ).1,
            decreases s@.len() - cur,
        {
            let ghost scur = s@.skip(cur as int);
            let (k, j1) = match qstring(s, cur) {
                Some(p) => p,
                None => {
                    proof {
                        assert(spec_parse_pairs(scur) == (Seq::<PairV>::empty(), scur));
                        assert(gps + Seq::<PairV>::empty() =~= gps);
                    }
                    return (f, cur);
                },
            };
            let j2 = separator(s, j1);
            let (v, j3) = match qstring(s, j2) {
                Some(p) => p,
                None => {
                    proof {
                        assert(spec_parse_pairs(scur) == (Seq::<PairV>::empty(), scur));
                        assert(gps + Seq::<PairV>::empty() =~= gps);
                    }
                    return (f, cur);
                },
            };
            let j4 = separator(s, j3);
            let ghost kk = k@;
            let ghost vv = v@;
            f.insert(k, v);
            proof {
                let tail = spec_parse_pairs(s@.skip(j4 as int));
                assert(spec_parse_pairs(scur).0 == seq![(kk, vv)] + tail.0);
                assert(spec_parse_pairs(scur).1 == tail.1);
                lemma_fields_fold_snoc(Seq::empty(), gps, kk, vv);
                assert(gps + (seq![(kk, vv)] + tail.0) =~= gps.push((kk, vv)) + tail.0);
                gps = gps.push((kk, vv));
            }
            cur = j4;
        }
    }

    /// Give the pair list up.
    pub fn into_inner(self) -> (r: Vec<(Vec<u8>, Vec<u8>)>)
        ensures
            Seq::new(r@.len(), |t: int| (r@[t].0@, r@[t].1@)) =~= self@,
    {
        self.pairs
    }
}


/// A texture at the specification level: its name and the format-specific
/// alignment payload.
#[verifier::ext_equal]
pub ghost struct TextureV<A> {
    pub name: Seq<u8>,
    pub alignment: A,
}

/// A texture: its name (any non-blank run) and a format-specific
/// alignment.
#[derive(Debug, Clone, PartialEq)]
pub struct Texture<TA> {
    pub name: Vec<u8>,
    pub alignment: TA,
}

impl<TA: View> View for Texture<TA> {
    type V = TextureV<TA::V>;

    open spec fn view(&self) -> TextureV<TA::V> {
        TextureV { name: self.name@, alignment: self.alignment@ }
    }
}

impl<TA: Parse> Parse for Texture<TA> {
    /// A separator-terminated non-blank name, then the alignment.
    open spec fn spec_parse(s: Seq<u8>) -> Option<(TextureV<TA::V>, Seq<u8>)> {
        let (nm, r1) = spec_lex_name(s);
        let r2 = spec_skip_sep(r1);
        match TA::spec_parse(r2) {
            Some((a, r3)) => Some((TextureV { name: nm, alignment: a }, r3)),
            None => None,
        }
    }

    open spec fn wont_parse(s: Seq<u8>) -> bool {
        false
    }

    proof fn lemma_parse_shrinks(s: Seq<u8>) {
        let (nm, r1) = spec_lex_name(s);
        lemma_nonblank_len_bound(s);
        assert(r1 == s.skip(nonblank_len(s)));
        let r2 = spec_skip_sep(r1);
        lemma_skip_sep_suffix_of(r1);
        lemma_suffix_of_trans(s, r1, r2);
        if TA::spec_parse(r2) is Some {
            TA::lemma_parse_shrinks(r2);
            let (a, r3) = TA::spec_parse(r2)->Some_0;
            lemma_suffix_of_trans(s, r2, r3);
        }
    }

    proof fn lemma_wont_parse(s: Seq<u8>) {
    }

    fn parse(s: &[u8], i: usize) -> (r: Option<(Self, usize)>) {
        let (nm, j1) = name(s, i);
        let j2 = separator(s, j1);
        match TA::parse(s, j2) {
            Some((a, j3)) => Some((Texture { name: nm, alignment: a }, j3)),
            None => None,
        }
    }
}

/// One parenthesised point of a plane: `(`, optional separator, a vector,
/// optional separator, `)`.
pub open spec fn spec_parse_point(s: Seq<u8>) -> Option<(Vector3V, Seq<u8>)> {
    if s.len() > 0 && s[0] == 40 {
        let r1 = spec_skip_sep(s.skip(1));
        match Vector3::spec_parse(r1) {
            Some((v, r2)) => {
                let r3 = spec_skip_sep(r2);
                if r3.len() > 0 && r3[0] == 41 {
                    Some((v, r3.skip(1)))
                } else {
                    None
                }
            },
            None => None,
        }
    } else {
        None
    }
}

/// A point leaves a suffix of its input, at least one byte shorter.
pub proof fn lemma_point_shrinks(s: Seq<u8>)
    ensures
        spec_parse_point(s) matches Some((v, r)) ==> suffix_of(r, s) && r.len() < s.len(),
{
    if s.len() > 0 && s[0] == 40 {
        let r1 = spec_skip_sep(s.skip(1));
        lemma_skip_sep_suffix_of(s.skip(1));
        assert(suffix_of(s.skip(1), s)) by {
            assert(s.skip(1) == s.skip(1));
        }
        lemma_suffix_of_trans(s, s.skip(1), r1);
        if Vector3::spec_parse(r1) is Some {
            let (v, r2) = Vector3::spec_parse(r1)->Some_0;
            Vector3::lemma_parse_shrinks(r1);
            lemma_suffix_of_trans(s, r1, r2);
            let r3 = spec_skip_sep(r2);
            lemma_skip_sep_suffix_of(r2);
            lemma_suffix_of_trans(s, r2, r3);
            if r3.len() > 0 && r3[0] == 41 {
                assert(suffix_of(r3.skip(1), r3)) by {
                    assert(r3.skip(1) == r3.skip(1));
                }
                lemma_suffix_of_trans(s, r3, r3.skip(1));
            }
        }
    }
}

/// Parse one parenthesised point starting at `i`.
pub fn parse_point(s: &[u8], i: usize) -> (r: Option<(Vector3, usize)>)
    requires
        i <= s@.len(),
    ensures
        match r {
            Some((v, j)) => i < j <= s@.len() && spec_parse_point(s@.skip(i as int)) == Some(
                (v@, s@.skip(j as int)),
            ),
            None => spec_parse_point(s@.skip(i as int)) is None,
        },
{
    let ghost si = s@.skip(i as int);
    if i == s.len() || s[i] != 40 {
        return None;
    }
    proof {
        lemma_skip_skip(s@, i as int, 1);
    }
    let j1 = separator(s, i + 1);
    let (v, j2) = match Vector3::parse(s, j1) {
        Some(p) => p,
        None => {
            return None;
        },
    };
    let j3 = separator(s, j2);
    if j3 == s.len() || s[j3] != 41 {
        return None;
    }
    proof {
        lemma_skip_skip(s@, j3 as int, 1);
    }
    Some((v, j3 + 1))
}

/// A plane at the specification level: its three points and its texture.
#[verifier::ext_equal]
pub ghost struct PlaneV<A> {
    pub points: Seq<Vector3V>,
    pub texture: TextureV<A>,
}

/// A half-space boundary: exactly three points and a texture.  In a map
/// file it looks like
/// ```plain
/// ( 1704 1412 592 ) ( 1688 1424 592 ) ( 1680 1420 592 ) kn_floorp2 53 0 -63 1.15 1
/// ```
#[derive(Debug, Clone, PartialEq)]
pub struct Plane<TA> {
    pub points: [Vector3; 3],
    pub texture: Texture<TA>,
}

impl<TA: View> View for Plane<TA> {
    type V = PlaneV<TA::V>;

    open spec fn view(&self) -> PlaneV<TA::V> {
        PlaneV {
            points: seq![self.points[0]@, self.points[1]@, self.points[2]@],
            texture: self.texture@,
        }
    }
}

impl<TA: Parse> Parse for Plane<TA> {
    /// Exactly three separator-terminated parenthesised points, then the
    /// texture.  A fourth point is never attempted: whatever follows the
    /// third point is handed to the texture grammar.
    open spec fn spec_parse(s: Seq<u8>) -> Option<(PlaneV<TA::V>, Seq<u8>)> {
        match spec_parse_point(s) {
            Some((p1, q1)) => {
                let r1 = spec_skip_sep(q1);
                match spec_parse_point(r1) {
                    Some((p2, q2)) => {
                        let r2 = spec_skip_sep(q2);
                        match spec_parse_point(r2) {
                            Some((p3, q3)) => {
                                let r3 = spec_skip_sep(q3);
                                match Texture::<TA>::spec_parse(r3) {
                                    Some((tex, r4)) => Some(
                                        (PlaneV { points: seq![p1, p2, p3], texture: tex }, r4),
                                    ),
                                    None => None,
                                }
                            },
                            None => None,
                        }
                    },
                    None => None,
                }
            },
            None => None,
        }
    }

    open spec fn wont_parse(s: Seq<u8>) -> bool {
        s.len() == 0 || s[0] != 40
    }

    proof fn lemma_parse_shrinks(s: Seq<u8>) {
        if spec_parse_point(s) is Some {
            let (p1, q1) = spec_parse_point(s)->Some_0;
            lemma_point_shrinks(s);
            let r1 = spec_skip_sep(q1);
            lemma_skip_sep_suffix_of(q1);
            lemma_suffix_of_trans(s, q1, r1);
            if spec_parse_point(r1) is Some {
                let (p2, q2) = spec_parse_point(r1)->Some_0;
                lemma_point_shrinks(r1);
                lemma_suffix_of_trans(s, r1, q2);
                let r2 = spec_skip_sep(q2);
                lemma_skip_sep_suffix_of(q2);
                lemma_suffix_of_trans(s, q2, r2);
                if spec_parse_point(r2) is Some {
                    let (p3, q3) = spec_parse_point(r2)->Some_0;
                    lemma_point_shrinks(r2);
                    lemma_suffix_of_trans(s, r2, q3);
                    let r3 = spec_skip_sep(q3);
                    lemma_skip_sep_suffix_of(q3);
                    lemma_suffix_of_trans(s, q3, r3);
                    if Texture::<TA>::spec_parse(r3) is Some {
                        let (tex, r4) = Texture::<TA>::spec_parse(r3)->Some_0;
                        Texture::<TA>::lemma_parse_shrinks(r3);
                        lemma_suffix_of_trans(s, r3, r4);
                    }
                }
            }
        }
    }

    proof fn lemma_wont_parse(s: Seq<u8>) {
    }

    fn parse(s: &[u8], i: usize) -> (r: Option<(Self, usize)>) {
        let (p1, j1) = match parse_point(s, i) {
            Some(p) => p,
            None => {
                return None;
            },
        };
        let j1b = separator(s, j1);
        let (p2, j2) = match parse_point(s, j1b) {
            Some(p) => p,
            None => {
                return None;
            },
        };
        let j2b = separator(s, j2);
        let (p3, j3) = match parse_point(s, j2b) {
            Some(p) => p,
            None => {
                return None;
            },
        };
        let j3b = separator(s, j3);
        let (tex, j4) = match Texture::<TA>::parse(s, j3b) {
            Some(p) => p,
            None => {
                return None;
            },
        };
        let plane = Plane { points: [p1, p2, p3], texture: tex };
        proof {
            assert(plane@.points =~= seq![plane.points[0]@, plane.points[1]@, plane.points[2]@]);
        }
        Some((plane, j4))
    }
}

/// A brush at the specification level: its plane list in source order.
#[verifier::ext_equal]
pub ghost struct BrushV<A> {
    pub planes: Seq<PlaneV<A>>,
}

/// A convex solid: `{`, any number of planes, `}`.
#[derive(Debug, Clone, PartialEq)]
pub struct Brush<TA> {
    pub planes: Vec<Plane<TA>>,
}

impl<TA: View> View for Brush<TA> {
    type V = BrushV<TA::V>;

    open spec fn view(&self) -> BrushV<TA::V> {
        BrushV { planes: Seq::new(self.planes@.len(), |t: int| self.planes@[t]@) }
    }
}

impl<TA: Parse> Parse for Brush<TA> {
    /// `{`, optional separator, separator-terminated planes, optional
    /// separator, `}`.
    open spec fn spec_parse(s: Seq<u8>) -> Option<(BrushV<TA::V>, Seq<u8>)> {
        if s.len() > 0 && s[0] == 123 {
            let r1 = spec_skip_sep(s.skip(1));
            let (ps, r2) = spec_parse_list::<Plane<TA>>(r1);
            let r3 = spec_skip_sep(r2);
            if r3.len() > 0 && r3[0] == 125 {
                Some((BrushV { planes: ps }, r3.skip(1)))
            } else {
                None
            }
        } else {
            None
        }
    }

    open spec fn wont_parse(s: Seq<u8>) -> bool {
        s.len() == 0 || s[0] != 123
    }

    proof fn lemma_parse_shrinks(s: Seq<u8>) {
        if s.len() > 0 && s[0] == 123 {
            let r1 = spec_skip_sep(s.skip(1));
            lemma_skip_sep_suffix_of(s.skip(1));
            assert(suffix_of(s.skip(1), s)) by {
                assert(s.skip(1) == s.skip(1));
            }
            lemma_suffix_of_trans(s, s.skip(1), r1);
            let (ps, r2) = spec_parse_list::<Plane<TA>>(r1);
            lemma_parse_list_suffix::<Plane<TA>>(r1);
            lemma_suffix_of_trans(s, r1, r2);
            let r3 = spec_skip_sep(r2);
            lemma_skip_sep_suffix_of(r2);
            lemma_suffix_of_trans(s, r2, r3);
            if r3.len() > 0 && r3[0] == 125 {
                assert(suffix_of(r3.skip(1), r3)) by {
                    assert(r3.skip(1) == r3.skip(1));
                }
                lemma_suffix_of_trans(s, r3, r3.skip(1));
            }
        }
    }

    proof fn lemma_wont_parse(s: Seq<u8>) {
    }

    fn parse(s: &[u8], i: usize) -> (r: Option<(Self, usize)>) {
        if i == s.len() || s[i] != 123 {
            return None;
        }
        proof {
            lemma_skip_skip(s@, i as int, 1);
        }
        let j1 = separator(s, i + 1);
        let (planes, j2) = parse_list::<Plane<TA>>(s, j1);
        let j3 = separator(s, j2);
        if j3 == s.len() || s[j3] != 125 {
            return None;
        }
        proof {
            lemma_skip_skip(s@, j3 as int, 1);
        }
        let brush = Brush { planes };
        proof {
            assert(brush@.planes =~= views(brush.planes@));
        }
        Some((brush, j3 + 1))
    }
}

/// An entity at the specification level: its folded fields and its brush
/// list.
#[verifier::ext_equal]
pub ghost struct EntityV<BV> {
    pub fields: Seq<PairV>,
    pub brushes: Seq<BV>,
}

/// A map entity: key/value fields and any number of brushes, which may be
/// none for a point entity such as a light.
#[derive(Debug, Clone, PartialEq)]
pub struct Entity<B> {
    pub fields: Fields,
    pub brushes: Vec<B>,
}

impl<B: View> View for Entity<B> {
    type V = EntityV<B::V>;

    open spec fn view(&self) -> EntityV<B::V> {
        EntityV {
            fields: self.fields@,
            brushes: Seq::new(self.brushes@.len(), |t: int| self.brushes@[t]@),
        }
    }
}

impl<B: Parse> Parse for Entity<B> {
    /// `{`, optional separator, the field block, separator-terminated
    /// brushes, `}`.
    open spec fn spec_parse(s: Seq<u8>) -> Option<(EntityV<B::V>, Seq<u8>)> {
        if s.len() > 0 && s[0] == 123 {
            let r1 = spec_skip_sep(s.skip(1));
            let (fs, q1) = Fields::spec_parse(r1);
            let r2 = spec_skip_sep(q1);
            let (bs, r3) = spec_parse_list::<B>(r2);
            if r3.len() > 0 && r3[0] == 125 {
                Some((EntityV { fields: fs, brushes: bs }, r3.skip(1)))
            } else {
                None
            }
        } else {
            None
        }
    }

    open spec fn wont_parse(s: Seq<u8>) -> bool {
        s.len() == 0 || s[0] != 123
    }

    proof fn lemma_parse_shrinks(s: Seq<u8>) {
        if s.len() > 0 && s[0] == 123 {
            let r1 = spec_skip_sep(s.skip(1));
            lemma_skip_sep_suffix_of(s.skip(1));
            assert(suffix_of(s.skip(1), s)) by {
                assert(s.skip(1) == s.skip(1));
            }
            lemma_suffix_of_trans(s, s.skip(1), r1);
            let (fs, q1) = Fields::spec_parse(r1);
            lemma_parse_pairs_suffix(r1);
            lemma_suffix_of_trans(s, r1, q1);
            let r2 = spec_skip_sep(q1);
            lemma_skip_sep_suffix_of(q1);
            lemma_suffix_of_trans(s, q1, r2);
            let (bs, r3) = spec_parse_list::<B>(r2);
            lemma_parse_list_suffix::<B>(r2);
            lemma_suffix_of_trans(s, r2, r3);
            if r3.len() > 0 && r3[0] == 125 {
                assert(suffix_of(r3.skip(1), r3)) by {
                    assert(r3.skip(1) == r3.skip(1));
                }
                lemma_suffix_of_trans(s, r3, r3.skip(1));
            }
        }
    }

    proof fn lemma_wont_parse(s: Seq<u8>) {
    }

    fn parse(s: &[u8], i: usize) -> (r: Option<(Self, usize)>) {
        if i == s.len() || s[i] != 123 {
            return None;
        }
        proof {
            lemma_skip_skip(s@, i as int, 1);
        }
        let j1 = separator(s, i + 1);
        let (fs, j2) = Fields::parse(s, j1);
        let j3 = separator(s, j2);
        let (brushes, j4) = parse_list::<B>(s, j3);
        if j4 == s.len() || s[j4] != 125 {
            return None;
        }
        proof {
            lemma_skip_skip(s@, j4 as int, 1);
        }
        let ent = Entity { fields: fs, brushes };
        proof {
            assert(ent@.brushes =~= views(ent.brushes@));
        }
        Some((ent, j4 + 1))
    }
}


/// A numeric lexeme is never empty and never begins with a separator.
pub proof fn lemma_number_lexeme_head(v: Seq<u8>)
    requires
        is_number_lexeme(v),
    ensures
        v.len() > 0,
        !is_space(v[0]),
        v[0] != 47,
        v[0] != 123,
        v[0] != 34,
{
    let sg: int = if v.len() > 0 && (v[0] == 43 || v[0] == 45) {
        1
    } else {
        0
    };
    let t = v.skip(sg);
    lemma_number_parts_bound(t);
    let m = spec_mantissa_len(t);
    assert(m >= 0);
    lemma_digits_len_bound(t);
    if digits_len(t) == 0 {
        lemma_digits_len_bound(t.skip(1));
    }
    assert(v.len() > 0);
    if sg == 0 {
        assert(t == v);
        if digits_len(t) > 0 {
            assert(is_digit(t[0]));
        } else {
            assert(t[0] == 46);
        }
    }
}

impl Render for Number {
    open spec fn wf(v: Seq<u8>) -> bool {
        is_number_lexeme(v)
    }

    open spec fn can_follow(rest: Seq<u8>) -> bool {
        num_opaque(rest)
    }

    open spec fn spec_render(v: Seq<u8>) -> Seq<u8> {
        v
    }

    fn render(&self) -> (r: Vec<u8>) {
        vstd::slice::slice_to_vec(self.text.as_slice())
    }

    proof fn lemma_render_parse(v: Seq<u8>, rest: Seq<u8>) {
        lemma_number_extends(v, rest);
    }

    proof fn lemma_render_head(v: Seq<u8>, t: Seq<u8>) {
        lemma_number_lexeme_head(v);
        assert((v + t)[0] == v[0]);
    }

    proof fn lemma_can_follow_line(t: Seq<u8>) {
        assert((seq![10u8] + t)[0] == 10);
    }
}

impl Render for Vector3 {
    open spec fn wf(v: Vector3V) -> bool {
        is_number_lexeme(v.x) && is_number_lexeme(v.y) && is_number_lexeme(v.z)
    }

    open spec fn can_follow(rest: Seq<u8>) -> bool {
        num_opaque(rest)
    }

    /// The components space-separated: `x y z`.
    open spec fn spec_render(v: Vector3V) -> Seq<u8> {
        v.x + seq![32u8] + v.y + seq![32u8] + v.z
    }

    fn render(&self) -> (r: Vec<u8>) {
        let mut out: Vec<u8> = Vec::new();
        push_bytes(&mut out, self.x.text.as_slice());
        out.push(32);
        push_bytes(&mut out, self.y.text.as_slice());
        out.push(32);
        push_bytes(&mut out, self.z.text.as_slice());
        proof {
            assert(out@ =~= Self::spec_render(self@));
        }
        out
    }

    proof fn lemma_render_parse(v: Vector3V, rest: Seq<u8>) {
        let s = Self::spec_render(v) + rest;
        let r1 = seq![32u8] + (v.y + (seq![32u8] + (v.z + rest)));
        assert(s =~= v.x + r1);
        assert(num_opaque(r1)) by {
            assert(r1[0] == 32);
        }
        lemma_number_extends(v.x, r1);
        lemma_number_lexeme_head(v.y);
        assert(sep_opaque(v.y + (seq![32u8] + (v.z + rest)))) by {
            assert((v.y + (seq![32u8] + (v.z + rest)))[0] == v.y[0]);
        }
        lemma_skip_sep_blank(32u8, v.y + (seq![32u8] + (v.z + rest)));
        let r2 = seq![32u8] + (v.z + rest);
        assert(num_opaque(r2)) by {
            assert(r2[0] == 32);
        }
        lemma_number_extends(v.y, r2);
        lemma_number_lexeme_head(v.z);
        assert(sep_opaque(v.z + rest)) by {
            assert((v.z + rest)[0] == v.z[0]);
        }
        lemma_skip_sep_blank(32u8, v.z + rest);
        lemma_number_extends(v.z, rest);
        assert(Self::spec_parse(s) == Some((Vector3V { x: v.x, y: v.y, z: v.z }, rest)));
        assert(Vector3V { x: v.x, y: v.y, z: v.z } == v);
    }

    proof fn lemma_render_head(v: Vector3V, t: Seq<u8>) {
        lemma_number_lexeme_head(v.x);
        assert(Self::spec_render(v).len() > 0);
        assert((Self::spec_render(v) + t)[0] == v.x[0]);
    }

    proof fn lemma_can_follow_line(t: Seq<u8>) {
        assert((seq![10u8] + t)[0] == 10);
    }
}


/// Texture names that render back faithfully: non-empty, all non-blank,
/// not opening like a comment and not opening like a quoted string.
pub open spec fn name_wf(n: Seq<u8>) -> bool {
    &&& n.len() > 0
    &&& nonblank_len(n) == n.len()
    &&& !(n.len() >= 2 && n[0] == 47 && n[1] == 47)
    &&& n[0] != 34
}

impl<TA: Render> Render for Texture<TA> {
    open spec fn wf(v: TextureV<TA::V>) -> bool {
        name_wf(v.name) && TA::wf(v.alignment)
    }

    open spec fn can_follow(rest: Seq<u8>) -> bool {
        TA::can_follow(rest)
    }

    /// The name and the alignment, space-separated.
    open spec fn spec_render(v: TextureV<TA::V>) -> Seq<u8> {
        v.name + seq![32u8] + TA::spec_render(v.alignment)
    }

    fn render(&self) -> (r: Vec<u8>) {
        let mut out: Vec<u8> = Vec::new();
        push_bytes(&mut out, self.name.as_slice());
        out.push(32);
        let a = self.alignment.render();
        push_bytes(&mut out, a.as_slice());
        proof {
            assert(out@ =~= Self::spec_render(self@));
        }
        out
    }

    proof fn lemma_render_parse(v: TextureV<TA::V>, rest: Seq<u8>) {
        let ar = TA::spec_render(v.alignment);
        let s = Self::spec_render(v) + rest;
        let w = seq![32u8] + (ar + rest);
        assert(s =~= v.name + w);
        lemma_nonblank_len_concat(v.name, w);
        assert(nonblank_len(w) == 0) by {
            assert(is_space(w[0]));
        }
        assert(nonblank_len(s) == v.name.len());
        assert(spec_lex_name(s).0 =~= v.name);
        assert(spec_lex_name(s).1 =~= w);
        TA::lemma_render_head(v.alignment, rest);
        lemma_skip_sep_blank(32u8, ar + rest);
        TA::lemma_render_parse(v.alignment, rest);
        assert(TextureV { name: v.name, alignment: v.alignment } == v);
    }

    proof fn lemma_render_head(v: TextureV<TA::V>, t: Seq<u8>) {
        let s = Self::spec_render(v) + t;
        assert(s[0] == v.name[0]);
        assert(nonblank_len(v.name) == v.name.len() ==> !is_space(v.name[0]));
        if v.name.len() >= 2 {
            assert(s[1] == v.name[1]);
        } else {
            assert(s[1] == 32);
        }
    }

    proof fn lemma_can_follow_line(t: Seq<u8>) {
        TA::lemma_can_follow_line(t);
    }
}

/// The text of one parenthesised plane point: `( x y z )`.
pub open spec fn spec_render_point(p: Vector3V) -> Seq<u8> {
    seq![40u8, 32u8] + Vector3::spec_render(p) + seq![32u8, 41u8]
}

/// A rendered point parses back to the same point, whatever follows the
/// closing parenthesis.
pub proof fn lemma_render_parse_point(p: Vector3V, rest: Seq<u8>)
    requires
        is_number_lexeme(p.x),
        is_number_lexeme(p.y),
        is_number_lexeme(p.z),
    ensures
        spec_parse_point(spec_render_point(p) + rest) == Some((p, rest)),
{
    let vr = Vector3::spec_render(p);
    let s = spec_render_point(p) + rest;
    assert(s[0] == 40);
    assert(s.skip(1) =~= seq![32u8] + (vr + (seq![32u8, 41u8] + rest)));
    Vector3::lemma_render_head(p, seq![32u8, 41u8] + rest);
    lemma_skip_sep_blank(32u8, vr + (seq![32u8, 41u8] + rest));
    assert(num_opaque(seq![32u8, 41u8] + rest)) by {
        assert((seq![32u8, 41u8] + rest)[0] == 32);
    }
    Vector3::lemma_render_parse(p, seq![32u8, 41u8] + rest);
    assert((seq![32u8, 41u8] + rest).skip(1) =~= seq![41u8] + rest);
    assert(sep_opaque(seq![41u8] + rest)) by {
        assert((seq![41u8] + rest)[0] == 41);
    }
    assert(spec_skip_sep(seq![32u8, 41u8] + rest) == seq![41u8] + rest) by {
        assert((seq![32u8, 41u8] + rest)[0] == 32);
        lemma_skip_sep_opaque(seq![41u8] + rest);
    }
    assert((seq![41u8] + rest)[0] == 41);
    assert((seq![41u8] + rest).skip(1) =~= rest);
}

impl<TA: Render> Render for Plane<TA> {
    open spec fn wf(v: PlaneV<TA::V>) -> bool {
        &&& v.points.len() == 3
    &&& is_number_lexeme(v.points[0].x) && is_number_lexeme(v.points[0].y) && is_number_lexeme(
        v.points[0].z,
    )
    &&& is_number_lexeme(v.points[1].x) && is_number_lexeme(v.points[1].y) && is_number_lexeme(
        v.points[1].z,
    )
    &&& is_number_lexeme(v.points[2].x) && is_number_lexeme(v.points[2].y) && is_number_lexeme(
        v.points[2].z,
    )
        &&& Texture::<TA>::wf(v.texture)
    }

    open spec fn can_follow(rest: Seq<u8>) -> bool {
        TA::can_follow(rest)
    }

    /// The three points, each parenthesised, then the texture, all
    /// space-separated.
    open spec fn spec_render(v: PlaneV<TA::V>) -> Seq<u8> {
        spec_render_point(v.points[0]) + seq![32u8] + spec_render_point(v.points[1])
            + seq![32u8] + spec_render_point(v.points[2]) + seq![32u8] + Texture::<
            TA,
        >::spec_render(v.texture)
    }

    fn render(&self) -> (r: Vec<u8>) {
        let mut out: Vec<u8> = Vec::new();
        out.push(40);
        out.push(32);
        let p0 = self.points[0].render();
        push_bytes(&mut out, p0.as_slice());
        out.push(32);
        out.push(41);
        out.push(32);
        out.push(40);
        out.push(32);
        let p1 = self.points[1].render();
        push_bytes(&mut out, p1.as_slice());
        out.push(32);
        out.push(41);
        out.push(32);
        out.push(40);
        out.push(32);
        let p2 = self.points[2].render();
        push_bytes(&mut out, p2.as_slice());
        out.push(32);
        out.push(41);
        out.push(32);
        let tex = self.texture.render();
        push_bytes(&mut out, tex.as_slice());
        proof {
            assert(out@ =~= Self::spec_render(self@));
        }
        out
    }

    proof fn lemma_render_parse(v: PlaneV<TA::V>, rest: Seq<u8>) {
        let tr = Texture::<TA>::spec_render(v.texture);
        let s = Self::spec_render(v) + rest;
        let after1 = seq![32u8] + (spec_render_point(v.points[1]) + (seq![32u8] + (
        spec_render_point(v.points[2]) + (seq![32u8] + (tr + rest)))));
        assert(s =~= spec_render_point(v.points[0]) + after1);
        lemma_render_parse_point(v.points[0], after1);
        let at2 = spec_render_point(v.points[1]) + (seq![32u8] + (spec_render_point(
            v.points[2],
        ) + (seq![32u8] + (tr + rest))));
        assert(sep_opaque(at2)) by {
            assert(at2[0] == 40);
            assert(at2[1] == 32);
        }
        lemma_skip_sep_blank(32u8, at2);
        let after2 = seq![32u8] + (spec_render_point(v.points[2]) + (seq![32u8] + (tr
            + rest)));
        assert(at2 =~= spec_render_point(v.points[1]) + after2);
        lemma_render_parse_point(v.points[1], after2);
        let at3 = spec_render_point(v.points[2]) + (seq![32u8] + (tr + rest));
        assert(sep_opaque(at3)) by {
            assert(at3[0] == 40);
            assert(at3[1] == 32);
        }
        lemma_skip_sep_blank(32u8, at3);
        let after3 = seq![32u8] + (tr + rest);
        assert(at3 =~= spec_render_point(v.points[2]) + after3);
        lemma_render_parse_point(v.points[2], after3);
        Texture::<TA>::lemma_render_head(v.texture, rest);
        lemma_skip_sep_blank(32u8, tr + rest);
        Texture::<TA>::lemma_render_parse(v.texture, rest);
        assert(seq![v.points[0], v.points[1], v.points[2]] =~= v.points);
        assert(PlaneV { points: seq![v.points[0], v.points[1], v.points[2]], texture: v.texture }
            == v);
    }

    proof fn lemma_render_head(v: PlaneV<TA::V>, t: Seq<u8>) {
        let s = Self::spec_render(v) + t;
        assert(s[0] == 40);
        assert(s[1] == 32);
    }

    proof fn lemma_can_follow_line(t: Seq<u8>) {
        TA::lemma_can_follow_line(t);
    }
}


impl<TA: Render> Render for Brush<TA> {
    open spec fn wf(v: BrushV<TA::V>) -> bool {
        forall|k: int| 0 <= k < v.planes.len() ==> Plane::<TA>::wf(#[trigger] v.planes[k])
    }

    open spec fn can_follow(rest: Seq<u8>) -> bool {
        true
    }

    /// `{`, one plane per line, `}`.
    open spec fn spec_render(v: BrushV<TA::V>) -> Seq<u8> {
        seq![123u8, 10u8] + spec_render_list::<Plane<TA>>(v.planes) + seq![125u8]
    }

    fn render(&self) -> (r: Vec<u8>) {
        let mut out: Vec<u8> = Vec::new();
        out.push(123);
        out.push(10);
        let body = render_list::<Plane<TA>>(&self.planes);
        push_bytes(&mut out, body.as_slice());
        out.push(125);
        proof {
            assert(self@.planes =~= views(self.planes@));
            assert(out@ =~= Self::spec_render(self@));
        }
        out
    }

    #[verifier::rlimit(60)]
    proof fn lemma_render_parse(v: BrushV<TA::V>, rest: Seq<u8>) {
        let body = spec_render_list::<Plane<TA>>(v.planes);
        let s = Self::spec_render(v) + rest;
        assert(s[0] == 123);
        assert(s.skip(1) =~= seq![10u8] + (body + (seq![125u8] + rest)));
        assert(sep_opaque(body + (seq![125u8] + rest))) by {
            if v.planes.len() > 0 {
                Plane::<TA>::lemma_render_head(
                    v.planes[0],
                    seq![10u8] + (spec_render_list::<Plane<TA>>(v.planes.skip(1)) + (
                    seq![125u8] + rest)),
                );
                assert(body + (seq![125u8] + rest) =~= Plane::<TA>::spec_render(v.planes[0]) + (
                seq![10u8] + (spec_render_list::<Plane<TA>>(v.planes.skip(1)) + (seq![125u8]
                    + rest))));
            } else {
                assert(body + (seq![125u8] + rest) =~= seq![125u8] + rest);
                assert((seq![125u8] + rest)[0] == 125);
            }
        }
        lemma_skip_sep_blank(10u8, body + (seq![125u8] + rest));
        assert(sep_opaque(seq![125u8] + rest)) by {
            assert((seq![125u8] + rest)[0] == 125);
        }
        lemma_render_parse_list::<Plane<TA>>(v.planes, seq![125u8] + rest);
        assert(body + (seq![125u8] + rest) =~= body + seq![125u8] + rest);
        lemma_skip_sep_opaque(seq![125u8] + rest);
        assert((seq![125u8] + rest)[0] == 125);
        assert((seq![125u8] + rest).skip(1) =~= rest);
        assert(BrushV { planes: v.planes } == v);
    }

    proof fn lemma_render_head(v: BrushV<TA::V>, t: Seq<u8>) {
        let s = Self::spec_render(v) + t;
        assert(s[0] == 123);
        assert(s[1] == 10);
    }

    proof fn lemma_can_follow_line(t: Seq<u8>) {
    }
}

/// The text of one field pair: `"key" "value"` on a line of its own.
pub open spec fn spec_render_pair(p: PairV) -> Seq<u8> {
    seq![34u8] + p.0 + seq![34u8, 32u8, 34u8] + p.1 + seq![34u8, 10u8]
}

/// The text of a field block, one pair per line.
pub open spec fn spec_render_pairs(ps: Seq<PairV>) -> Seq<u8>
    decreases ps.len(),
{
    if ps.len() == 0 {
        Seq::empty()
    } else {
        spec_render_pair(ps[0]) + spec_render_pairs(ps.skip(1))
    }
}

/// Every key and value in the list can stand as a quoted body.
pub open spec fn pairs_wf(ps: Seq<PairV>) -> bool {
    forall|k: int| 0 <= k < ps.len() ==> qbody_ok((#[trigger] ps[k]).0) && qbody_ok(ps[k].1)
}

/// A rendered field block parses back to the same raw pair list and stops
/// at a suffix that opens no further quoted string.
pub proof fn lemma_render_parse_pairs(ps: Seq<PairV>, rest: Seq<u8>)
    requires
        pairs_wf(ps),
        rest.len() == 0 || rest[0] != 34,
        sep_opaque(rest),
    ensures
        spec_parse_pairs(spec_render_pairs(ps) + rest) == (ps, rest),
    decreases ps.len(),
{
    let s = spec_render_pairs(ps) + rest;
    if ps.len() == 0 {
        assert(s =~= rest);
        assert(spec_lex_qstring(rest) is None);
        assert(ps =~= Seq::<PairV>::empty());
        assert(spec_parse_pairs(rest).0 =~= ps);
    } else {
        let (k, v) = ps[0];
        let tail = spec_render_pairs(ps.skip(1));
        let afterk = seq![32u8] + (seq![34u8] + (v + (seq![34u8] + (seq![10u8] + (tail
            + rest)))));
        assert(s =~= seq![34u8] + k + seq![34u8] + afterk);
        lemma_qstring_closes(k, afterk);
        assert(sep_opaque(seq![34u8] + (v + (seq![34u8] + (seq![10u8] + (tail + rest))))))
            by {
            assert((seq![34u8] + (v + (seq![34u8] + (seq![10u8] + (tail + rest)))))[0] == 34);
        }
        lemma_skip_sep_blank(32u8, seq![34u8] + (v + (seq![34u8] + (seq![10u8] + (tail
            + rest)))));
        let afterv = seq![10u8] + (tail + rest);
        assert(seq![34u8] + (v + (seq![34u8] + afterv)) =~= seq![34u8] + v + seq![34u8]
            + afterv);
        lemma_qstring_closes(v, afterv);
        assert(sep_opaque(tail + rest)) by {
            if ps.len() > 1 {
                assert(tail =~= spec_render_pair(ps[1]) + spec_render_pairs(ps.skip(1).skip(1)));
                assert((tail + rest)[0] == 34);
            } else {
                assert(tail + rest =~= rest);
            }
        }
        lemma_skip_sep_blank(10u8, tail + rest);
        lemma_render_parse_pairs(ps.skip(1), rest);
        assert(tail + rest =~= spec_render_pairs(ps.skip(1)) + rest);
        assert((tail + rest).len() < s.len());
        assert(seq![(k, v)] + ps.skip(1) =~= ps);
        assert(spec_parse_pairs(s).0 =~= ps);
    }
}

/// Inserting a key that is not yet present appends the pair.
pub proof fn lemma_insert_fresh(acc: Seq<PairV>, k: Seq<u8>, v: Seq<u8>)
    requires
        forall|t: int| 0 <= t < acc.len() ==> (#[trigger] acc[t]).0 != k,
    ensures
        fields_insert(acc, k, v) == acc.push((k, v)),
    decreases acc.len(),
{
    if acc.len() == 0 {
        assert(acc.push((k, v)) =~= seq![(k, v)]);
    } else {
        assert(acc[0].0 != k);
        lemma_insert_fresh(acc.skip(1), k, v);
        assert(seq![acc[0]] + acc.skip(1).push((k, v)) =~= acc.push((k, v)));
    }
}

/// Folding a pair list whose keys are unique reproduces the list.
pub proof fn lemma_fold_unique(acc: Seq<PairV>, ps: Seq<PairV>)
    requires
        keys_unique(acc + ps),
    ensures
        fields_fold(acc, ps) == acc + ps,
    decreases ps.len(),
{
    if ps.len() == 0 {
        assert(acc + ps =~= acc);
    } else {
        let whole = acc + ps;
        assert(forall|t: int| 0 <= t < acc.len() ==> (#[trigger] acc[t]).0 != ps[0].0) by {
            assert(forall|t: int| 0 <= t < acc.len() ==> acc[t] == whole[t]);
            assert(ps[0] == whole[acc.len() as int]);
        }
        lemma_insert_fresh(acc, ps[0].0, ps[0].1);
        assert(acc.push(ps[0]) + ps.skip(1) =~= acc + ps);
        lemma_fold_unique(acc.push(ps[0]), ps.skip(1));
    }
}


/// Extending a pair list by one pair appends its line.
pub proof fn lemma_render_pairs_push(ps: Seq<PairV>, p: PairV)
    ensures
        spec_render_pairs(ps.push(p)) == spec_render_pairs(ps) + spec_render_pair(p),
    decreases ps.len(),
{
    let ext = ps.push(p);
    if ps.len() == 0 {
        assert(ext[0] == p);
        assert(ext.skip(1) =~= Seq::<PairV>::empty());
        assert(spec_render_pairs(ext.skip(1)) == Seq::<u8>::empty());
        assert(spec_render_pairs(ps) == Seq::<u8>::empty());
        assert(spec_render_pairs(ext) =~= Seq::<u8>::empty() + spec_render_pair(p));
    } else {
        assert(ext[0] == ps[0]);
        assert(ext.skip(1) =~= ps.skip(1).push(p));
        lemma_render_pairs_push(ps.skip(1), p);
        assert(spec_render_pair(ps[0]) + (spec_render_pairs(ps.skip(1)) + spec_render_pair(p))
            =~= spec_render_pairs(ps) + spec_render_pair(p));
    }
}

impl Fields {
    /// Render the field block, one `"key" "value"` pair per line.
    pub fn render(&self) -> (r: Vec<u8>)
        ensures
            r@ == spec_render_pairs(self@),
    {
        let mut out: Vec<u8> = Vec::new();
        let mut t: usize = 0;
        proof {
            assert(self@.take(0) =~= Seq::<PairV>::empty());
            assert(out@ =~= spec_render_pairs(self@.take(0)));
        }
        loop
            invariant
                t <= self.pairs@.len(),
                out@ == spec_render_pairs(self@.take(t as int)),
            decreases self.pairs@.len() - t,
        {
            if t == self.pairs.len() {
                proof {
                    assert(self@.take(t as int) =~= self@);
                }
                return out;
            }
            let ghost prev = out@;
            out.push(34);
            push_bytes(&mut out, self.pairs[t].0.as_slice());
            out.push(34);
            out.push(32);
            out.push(34);
            push_bytes(&mut out, self.pairs[t].1.as_slice());
            out.push(34);
            out.push(10);
            proof {
                lemma_render_pairs_push(self@.take(t as int), self@[t as int]);
                assert(self@.take(t + 1) =~= self@.take(t as int).push(self@[t as int]));
                assert(out@ =~= prev + spec_render_pair(self@[t as int]));
            }
            t = t + 1;
        }
    }
}

impl<B: Render> Render for Entity<B> {
    open spec fn wf(v: EntityV<B::V>) -> bool {
        &&& keys_unique(v.fields)
        &&& pairs_wf(v.fields)
        &&& forall|k: int| 0 <= k < v.brushes.len() ==> B::wf(#[trigger] v.brushes[k])
        &&& forall|t: Seq<u8>| #[trigger] B::wont_parse(seq![125u8] + t)
    }

    open spec fn can_follow(rest: Seq<u8>) -> bool {
        true
    }

    /// `{`, the field block, one brush per line, `}`.
    open spec fn spec_render(v: EntityV<B::V>) -> Seq<u8> {
        seq![123u8, 10u8] + spec_render_pairs(v.fields) + spec_render_list::<B>(v.brushes)
            + seq![125u8]
    }

    fn render(&self) -> (r: Vec<u8>) {
        let mut out: Vec<u8> = Vec::new();
        out.push(123);
        out.push(10);
        let fs = self.fields.render();
        push_bytes(&mut out, fs.as_slice());
        let bs = render_list::<B>(&self.brushes);
        push_bytes(&mut out, bs.as_slice());
        out.push(125);
        proof {
            assert(self@.brushes =~= views(self.brushes@));
            assert(out@ =~= Self::spec_render(self@));
        }
        out
    }

    #[verifier::rlimit(60)]
    proof fn lemma_render_parse(v: EntityV<B::V>, rest: Seq<u8>) {
        let fr = spec_render_pairs(v.fields);
        let br = spec_render_list::<B>(v.brushes);
        let s = Self::spec_render(v) + rest;
        assert(s[0] == 123);
        let inner = fr + (br + (seq![125u8] + rest));
        assert(s.skip(1) =~= seq![10u8] + inner);
        assert(sep_opaque(br + (seq![125u8] + rest)) && (br + (seq![125u8] + rest)).len() == 0
            || (br + (seq![125u8] + rest))[0] != 34 && sep_opaque(br + (seq![125u8] + rest)))
            by {
            if v.brushes.len() > 0 {
                B::lemma_render_head(
                    v.brushes[0],
                    seq![10u8] + (spec_render_list::<B>(v.brushes.skip(1)) + (seq![125u8]
                        + rest)),
                );
                assert(br + (seq![125u8] + rest) =~= B::spec_render(v.brushes[0]) + (seq![10u8]
                    + (spec_render_list::<B>(v.brushes.skip(1)) + (seq![125u8] + rest))));
            } else {
                assert(br + (seq![125u8] + rest) =~= seq![125u8] + rest);
                assert((seq![125u8] + rest)[0] == 125);
            }
        }
        assert(sep_opaque(inner)) by {
            if v.fields.len() > 0 {
                assert(inner =~= spec_render_pair(v.fields[0]) + (spec_render_pairs(
                    v.fields.skip(1),
                ) + (br + (seq![125u8] + rest))));
                assert(inner[0] == 34);
            } else {
                assert(inner =~= br + (seq![125u8] + rest));
            }
        }
        lemma_skip_sep_blank(10u8, inner);
        assert(inner =~= fr + (br + (seq![125u8] + rest)));
        lemma_render_parse_pairs(v.fields, br + (seq![125u8] + rest));
        lemma_fold_unique(Seq::empty(), v.fields);
        assert(Seq::<PairV>::empty() + v.fields =~= v.fields);
        assert(Fields::spec_parse(inner).0 == v.fields);
        assert(Fields::spec_parse(inner).1 == br + (seq![125u8] + rest));
        lemma_skip_sep_opaque(br + (seq![125u8] + rest));
        assert(sep_opaque(seq![125u8] + rest)) by {
            assert((seq![125u8] + rest)[0] == 125);
        }
        assert(B::wont_parse(seq![125u8] + rest));
        lemma_render_parse_list::<B>(v.brushes, seq![125u8] + rest);
        assert(br + (seq![125u8] + rest) =~= br + seq![125u8] + rest);
        assert((seq![125u8] + rest)[0] == 125);
        assert((seq![125u8] + rest).skip(1) =~= rest);
        assert(EntityV { fields: v.fields, brushes: v.brushes } == v);
    }

    proof fn lemma_render_head(v: EntityV<B::V>, t: Seq<u8>) {
        let s = Self::spec_render(v) + t;
        assert(s[0] == 123);
        assert(s[1] == 10);
    }

    proof fn lemma_can_follow_line(t: Seq<u8>) {
    }
}


/// The value an accumulated pair list stores under `k`: that of its first
/// (and, with unique keys, only) pair with that key.
pub open spec fn spec_lookup(ps: Seq<PairV>, k: Seq<u8>) -> Option<Seq<u8>>
    decreases ps.len(),
{
    if ps.len() == 0 {
        None
    } else if ps[0].0 == k {
        Some(ps[0].1)
    } else {
        spec_lookup(ps.skip(1), k)
    }
}

/// The value of the last occurrence of `k` in a raw pair list.
pub open spec fn last_value(ps: Seq<PairV>, k: Seq<u8>) -> Option<Seq<u8>>
    decreases ps.len(),
{
    if ps.len() == 0 {
        None
    } else if ps.last().0 == k {
        Some(ps.last().1)
    } else {
        last_value(ps.drop_last(), k)
    }
}

/// Inserting a pair overwrites exactly its own key and no other.
pub proof fn lemma_lookup_insert(l: Seq<PairV>, k: Seq<u8>, v: Seq<u8>, q: Seq<u8>)
    ensures
        spec_lookup(fields_insert(l, k, v), q) == if q == k {
            Some(v)
        } else {
            spec_lookup(l, q)
        },
    decreases l.len(),
{
    if l.len() == 0 {
        let ins = fields_insert(l, k, v);
        assert(ins == seq![(k, v)]);
        assert(ins[0] == (k, v));
        assert(ins.skip(1) =~= Seq::<PairV>::empty());
        if q == k {
            assert(spec_lookup(ins, q) == Some(v));
        } else {
            assert(spec_lookup(ins, q) == spec_lookup(ins.skip(1), q));
            assert(spec_lookup(ins.skip(1), q) is None);
            assert(spec_lookup(l, q) is None);
        }
    } else if l[0].0 == k {
        let ins = seq![(k, v)] + l.skip(1);
        assert(fields_insert(l, k, v) == ins);
        assert(ins[0] == (k, v));
        assert(ins.skip(1) =~= l.skip(1));
        if q == k {
            assert(spec_lookup(ins, q) == Some(v));
        } else {
            assert(spec_lookup(ins, q) == spec_lookup(l.skip(1), q));
            assert(spec_lookup(l, q) == spec_lookup(l.skip(1), q));
        }
    } else {
        let ins = seq![l[0]] + fields_insert(l.skip(1), k, v);
        assert(fields_insert(l, k, v) == ins);
        assert(ins.len() > 0);
        assert(ins[0] == l[0]);
        assert(ins.skip(1) =~= fields_insert(l.skip(1), k, v));
        lemma_lookup_insert(l.skip(1), k, v, q);
        if q == l[0].0 {
            assert(spec_lookup(ins, q) == Some(l[0].1));
            assert(spec_lookup(l, q) == Some(l[0].1));
        } else {
            assert(spec_lookup(ins, q) == spec_lookup(fields_insert(l.skip(1), k, v), q));
            assert(spec_lookup(l, q) == spec_lookup(l.skip(1), q));
        }
    }
}

/// Duplicate keys: after folding a raw pair list, the value stored under
/// any key is the value of its last occurrence in the list.
pub proof fn lemma_last_key_wins(ps: Seq<PairV>, k: Seq<u8>)
    ensures
        spec_lookup(fields_fold(Seq::empty(), ps), k) == last_value(ps, k),
    decreases ps.len(),
{
    if ps.len() == 0 {
    } else {
        let pre = ps.drop_last();
        let (lk, lv) = ps.last();
        assert(pre.push((lk, lv)) =~= ps);
        lemma_fields_fold_snoc(Seq::empty(), pre, lk, lv);
        lemma_lookup_insert(fields_fold(Seq::empty(), pre), lk, lv, k);
        lemma_last_key_wins(pre, k);
    }
}

/// Duplicate keys at the parser level: the field block stores, under every
/// key, the value of that key's last occurrence in the input text.
pub proof fn lemma_parse_last_key_wins(s: Seq<u8>, k: Seq<u8>)
    ensures
        spec_lookup(Fields::spec_parse(s).0, k) == last_value(spec_parse_pairs(s).0, k),
{
    lemma_last_key_wins(spec_parse_pairs(s).0, k);
}


/// What the quoted-string lexer hands out can stand verbatim as a quoted
/// body again.
pub proof fn lemma_parsed_qbody_ok(s: Seq<u8>)
    ensures
        spec_qbody(s) matches Some((b, r)) ==> qbody_ok(b),
    decreases s.len(),
{
    if s.len() == 0 {
    } else if s[0] == 34 {
        assert(qbody_ok(Seq::<u8>::empty()));
    } else if s[0] == 92 {
        if s.len() >= 2 && spec_qbody(s.skip(2)) is Some {
            let (b2, r) = spec_qbody(s.skip(2))->Some_0;
            lemma_parsed_qbody_ok(s.skip(2));
            let b = s.take(2) + b2;
            assert(b[0] == 92);
            assert(b.len() >= 2);
            assert(b.skip(2) =~= b2);
        }
    } else {
        if spec_qbody(s.skip(1)) is Some {
            let (b1, r) = spec_qbody(s.skip(1))->Some_0;
            lemma_parsed_qbody_ok(s.skip(1));
            let b = s.take(1) + b1;
            assert(b[0] == s[0]);
            assert(b.skip(1) =~= b1);
        }
    }
}

/// Inserting a well-formed pair keeps the accumulated list well-formed:
/// keys stay unique, bodies stay renderable, and every key in the result
/// is the inserted key or one that was already there.
pub proof fn lemma_insert_preserves(ps: Seq<PairV>, k: Seq<u8>, v: Seq<u8>)
    requires
        keys_unique(ps),
        pairs_wf(ps),
        qbody_ok(k),
        qbody_ok(v),
    ensures
        keys_unique(fields_insert(ps, k, v)),
        pairs_wf(fields_insert(ps, k, v)),
        forall|t: int|
            0 <= t < fields_insert(ps, k, v).len() ==> (#[trigger] fields_insert(ps, k, v)[t]).0
                == k || exists|u: int| 0 <= u < ps.len() && (#[trigger] ps[u]).0 == fields_insert(
                ps,
                k,
                v,
            )[t].0,
    decreases ps.len(),
{
    let ins = fields_insert(ps, k, v);
    if ps.len() == 0 {
        assert(ins == seq![(k, v)]);
        assert(forall|t: int| 0 <= t < ins.len() ==> (#[trigger] ins[t]) == (k, v));
    } else if ps[0].0 == k {
        assert(ins == seq![(k, v)] + ps.skip(1));
        assert(forall|t: int|
            1 <= t < ins.len() ==> (#[trigger] ins[t]) == ps[t]);
        assert(ins[0] == (k, v));
    } else {
        let tail = fields_insert(ps.skip(1), k, v);
        assert(ins == seq![ps[0]] + tail);
        assert(keys_unique(ps.skip(1))) by {
            assert(forall|a: int, b: int|
                0 <= a < b < ps.skip(1).len() ==> (#[trigger] ps.skip(1)[a]).0 != (
                #[trigger] ps.skip(1)[b]).0) by {
                assert(forall|a: int|
                    0 <= a < ps.skip(1).len() ==> (#[trigger] ps.skip(1)[a]) == ps[a + 1]);
            }
        }
        assert(pairs_wf(ps.skip(1))) by {
            assert(forall|a: int|
                0 <= a < ps.skip(1).len() ==> (#[trigger] ps.skip(1)[a]) == ps[a + 1]);
        }
        lemma_insert_preserves(ps.skip(1), k, v);
        assert(ins[0] == ps[0]);
        assert(forall|t: int| 1 <= t < ins.len() ==> (#[trigger] ins[t]) == tail[t - 1]);
        assert(forall|t: int| 1 <= t < ins.len() ==> ins[0].0 != (#[trigger] ins[t]).0) by {
            assert forall|t: int| 1 <= t < ins.len() implies ins[0].0 != (
            #[trigger] ins[t]).0 by {
                assert(ins[t] == tail[t - 1]);
                if tail[t - 1].0 == k {
                } else {
                    let u = choose|u: int|
                        0 <= u < ps.skip(1).len() && (#[trigger] ps.skip(1)[u]).0 == tail[t
                            - 1].0;
                    assert(ps.skip(1)[u] == ps[u + 1]);
                }
            }
        }
        assert forall|t: int| 0 <= t < ins.len() implies (#[trigger] ins[t]).0 == k || exists|
            u: int,
        | 0 <= u < ps.len() && (#[trigger] ps[u]).0 == ins[t].0 by {
            if t == 0 {
                assert(ps[0].0 == ins[0].0);
            } else {
                assert(ins[t] == tail[t - 1]);
                if tail[t - 1].0 == k {
                } else {
                    let u = choose|u: int|
                        0 <= u < ps.skip(1).len() && (#[trigger] ps.skip(1)[u]).0 == tail[t
                            - 1].0;
                    assert(ps.skip(1)[u] == ps[u + 1]);
                    assert(ps[u + 1].0 == ins[t].0);
                }
            }
        }
    }
}

/// Folding any well-formed raw pair list yields a well-formed field
/// block: unique keys and renderable bodies.
pub proof fn lemma_fold_wf(acc: Seq<PairV>, ps: Seq<PairV>)
    requires
        keys_unique(acc),
        pairs_wf(acc),
        pairs_wf(ps),
    ensures
        keys_unique(fields_fold(acc, ps)),
        pairs_wf(fields_fold(acc, ps)),
    decreases ps.len(),
{
    if ps.len() == 0 {
    } else {
        assert(qbody_ok(ps[0].0) && qbody_ok(ps[0].1));
        lemma_insert_preserves(acc, ps[0].0, ps[0].1);
        assert(pairs_wf(ps.skip(1))) by {
            assert(forall|a: int|
                0 <= a < ps.skip(1).len() ==> (#[trigger] ps.skip(1)[a]) == ps[a + 1]);
        }
        lemma_fold_wf(fields_insert(acc, ps[0].0, ps[0].1), ps.skip(1));
    }
}

/// Every pair the raw pair grammar hands out has renderable bodies.
pub proof fn lemma_parse_pairs_ok(s: Seq<u8>)
    ensures
        pairs_wf(spec_parse_pairs(s).0),
    decreases s.len(),
{
    if spec_lex_qstring(s) is Some {
        let (k, r1) = spec_lex_qstring(s)->Some_0;
        let r2 = spec_skip_sep(r1);
        if spec_lex_qstring(r2) is Some {
            let (v, r3) = spec_lex_qstring(r2)->Some_0;
            let r4 = spec_skip_sep(r3);
            if r4.len() < s.len() {
                lemma_parse_pairs_ok(r4);
                assert(qbody_ok(k)) by {
                    lemma_parsed_qbody_ok(s.skip(1));
                }
                assert(qbody_ok(v)) by {
                    lemma_parsed_qbody_ok(r2.skip(1));
                }
                let ps = spec_parse_pairs(s).0;
                let tail = spec_parse_pairs(r4).0;
                assert(ps == seq![(k, v)] + tail);
                assert(forall|a: int| 1 <= a < ps.len() ==> (#[trigger] ps[a]) == tail[a - 1]);
                assert(ps[0] == (k, v));
            }
        }
    }
}

/// A parsed field block is always well-formed: its keys are unique and
/// every key and value can be rendered back verbatim.
pub proof fn lemma_parse_fields_wf(s: Seq<u8>)
    ensures
        keys_unique(Fields::spec_parse(s).0),
        pairs_wf(Fields::spec_parse(s).0),
{
    lemma_parse_pairs_ok(s);
    lemma_fold_wf(Seq::empty(), spec_parse_pairs(s).0);
}

} // verus!
