//! Glob expressions: the compiled form of one pattern segment, and the
//! matching of segments and whole paths against them.
//!
//! A pattern is split at `/` into segments.  Each segment is either the
//! double-star segment, which spans any number of whole path segments, or a
//! sequence of tokens matched character by character within one path segment:
//! literals, `?`, `*` and character classes.

use vstd::prelude::*;

verus! {

/// One inclusive character range of a character class; a single member
/// character is the range from itself to itself.
#[derive(Clone, Copy)]
pub struct ClassRange {
    pub lo: char,
    pub hi: char,
}

/// One compiled glob token, matched within a single path segment.
pub enum Tok {
    /// A literal character (escapes already resolved).
    Lit(char),
    /// `?`: exactly one character.
    AnyChar,
    /// `*`: any run of characters, possibly empty.
    Star,
    /// `[...]`: one character inside (or, when negated, outside) the ranges.
    Class { negated: bool, ranges: Vec<ClassRange> },
}

/// The mathematical form of a token.
pub enum TokView {
    Lit(char),
    AnyChar,
    Star,
    Class { negated: bool, ranges: Seq<ClassRange> },
}

impl View for Tok {
    type V = TokView;

    open spec fn view(&self) -> TokView {
        match self {
            Tok::Lit(c) => TokView::Lit(*c),
            Tok::AnyChar => TokView::AnyChar,
            Tok::Star => TokView::Star,
            Tok::Class { negated, ranges } => TokView::Class {
                negated: *negated,
                ranges: ranges@,
            },
        }
    }
}

/// One compiled pattern segment.
pub enum SegPat {
    /// `**` standing alone as a segment: spans any number of path segments.
    DoubleStar,
    /// An ordinary glob, matched against exactly one path segment.
    Glob(Vec<Tok>),
}

/// The mathematical form of a pattern segment.
pub enum SegView {
    DoubleStar,
    Glob(Seq<TokView>),
}

impl View for SegPat {
    type V = SegView;

    open spec fn view(&self) -> SegView {
        match self {
            SegPat::DoubleStar => SegView::DoubleStar,
            SegPat::Glob(ts) => SegView::Glob(toks_view(ts@)),
        }
    }
}

/// The views of a sequence of tokens.
pub open spec fn toks_view(ts: Seq<Tok>) -> Seq<TokView> {
    ts.map_values(|t: Tok| t@)
}

/// The views of a sequence of pattern segments.
pub open spec fn segs_view(ps: Seq<SegPat>) -> Seq<SegView> {
    ps.map_values(|p: SegPat| p@)
}

/// The views of a sequence of character vectors.
pub open spec fn pieces_view(ss: Seq<Vec<char>>) -> Seq<Seq<char>> {
    ss.map_values(|v: Vec<char>| v@)
}

/// Whether `c` falls in the inclusive range `r`.
pub open spec fn range_matches(r: ClassRange, c: char) -> bool {
    r.lo as u32 <= c as u32 && c as u32 <= r.hi as u32
}

/// Whether any range of the class contains `c`.
pub open spec fn some_range_matches(ranges: Seq<ClassRange>, c: char) -> bool {
    exists|i: int| 0 <= i < ranges.len() && range_matches(ranges[i], c)
}

/// Whether the non-`Star` token `t` matches the single character `c`.
pub open spec fn tok_matches(t: TokView, c: char) -> bool {
    match t {
        TokView::Lit(l) => c == l,
        TokView::AnyChar => true,
        TokView::Star => false,
        TokView::Class { negated, ranges } => negated != some_range_matches(ranges, c),
    }
}

/// Whether the token sequence `ts` matches the whole character sequence `s`:
/// `Star` spans any run of characters, every other token consumes exactly one.
pub open spec fn glob_match(ts: Seq<TokView>, s: Seq<char>) -> bool
    decreases ts.len(), s.len(),
{
    if ts.len() == 0 {
        s.len() == 0
    } else if ts[0] is Star {
        glob_match(ts.drop_first(), s) || (s.len() > 0 && glob_match(ts, s.drop_first()))
    } else {
        s.len() > 0 && tok_matches(ts[0], s[0]) && glob_match(ts.drop_first(), s.drop_first())
    }
}

/// Whether the pattern segments `ps` match the whole path-segment sequence
/// `ss`: a double-star spans any run of path segments, every other pattern
/// segment matches exactly one.
pub open spec fn segs_match(ps: Seq<SegView>, ss: Seq<Seq<char>>) -> bool
    decreases ps.len(), ss.len(),
{
    if ps.len() == 0 {
        ss.len() == 0
    } else if ps[0] is DoubleStar {
        segs_match(ps.drop_first(), ss) || (ss.len() > 0 && segs_match(ps, ss.drop_first()))
    } else {
        ss.len() > 0 && glob_match(ps[0]->0, ss[0]) && segs_match(
            ps.drop_first(),
            ss.drop_first(),
        )
    }
}

fn is_star(t: &Tok) -> (r: bool)
    ensures
        r == (t@ is Star),
{
    match t {
        Tok::Star => true,
        _ => false,
    }
}

fn tok_matches_char(t: &Tok, c: char) -> (r: bool)
    ensures
        r == tok_matches(t@, c),
{
    match t {
        Tok::Lit(l) => *l == c,
        Tok::AnyChar => true,
        Tok::Star => false,
        Tok::Class { negated, ranges } => {
            let mut found = false;
            let mut i: usize = 0;
            while i < ranges.len()
                invariant
                    i <= ranges@.len(),
                    found == (exists|j: int|
                        0 <= j < i && range_matches(ranges@[j], c)),
                decreases ranges@.len() - i,
            {
                if ranges[i].lo as u32 <= c as u32 && c as u32 <= ranges[i].hi as u32 {
                    proof {
                        assert(range_matches(ranges@[i as int], c));
                    }
                    found = true;
                }
                i = i + 1;
            }
            proof {
                assert(found == some_range_matches(ranges@, c));
            }
            found != *negated
        },
    }
}

/// Matches the tokens of `toks` from position `ti` against the characters of
/// `s` from position `si`, with backtracking across `Star`.
pub fn glob_match_at(toks: &Vec<Tok>, ti: usize, s: &Vec<char>, si: usize) -> (r: bool)
    requires
        ti <= toks@.len(),
        si <= s@.len(),
    ensures
        r == glob_match(toks_view(toks@).skip(ti as int), s@.skip(si as int)),
    decreases toks@.len() - ti, s@.len() - si,
{
    let ghost tv = toks_view(toks@).skip(ti as int);
    let ghost sv = s@.skip(si as int);
    if ti == toks.len() {
        proof {
            assert(tv =~= Seq::<TokView>::empty());
        }
        si == s.len()
    } else {
        proof {
            assert(tv[0] == toks@[ti as int]@);
            assert(tv.drop_first() =~= toks_view(toks@).skip(ti as int + 1));
            assert(sv.len() > 0 ==> sv[0] == s@[si as int]);
            assert(sv.len() > 0 ==> sv.drop_first() =~= s@.skip(si as int + 1));
        }
        if is_star(&toks[ti]) {
            if glob_match_at(toks, ti + 1, s, si) {
                true
            } else if si < s.len() {
                glob_match_at(toks, ti, s, si + 1)
            } else {
                false
            }
        } else {
            if si == s.len() {
                false
            } else {
                tok_matches_char(&toks[ti], s[si]) && glob_match_at(toks, ti + 1, s, si + 1)
            }
        }
    }
}

/// Matches the pattern segments of `ps` from position `pi` against the path
/// segments `ss[si..send]`, with backtracking across double-stars.
pub fn segs_match_at(ps: &Vec<SegPat>, pi: usize, ss: &Vec<Vec<char>>, si: usize, send: usize) -> (r:
    bool)
    requires
        pi <= ps@.len(),
        si <= send <= ss@.len(),
    ensures
        r == segs_match(
            segs_view(ps@).skip(pi as int),
            pieces_view(ss@).subrange(si as int, send as int),
        ),
    decreases ps@.len() - pi, send - si,
{
    let ghost pv = segs_view(ps@).skip(pi as int);
    let ghost sv = pieces_view(ss@).subrange(si as int, send as int);
    if pi == ps.len() {
        proof {
            assert(pv =~= Seq::<SegView>::empty());
        }
        si == send
    } else {
        proof {
            assert(pv[0] == ps@[pi as int]@);
            assert(pv.drop_first() =~= segs_view(ps@).skip(pi as int + 1));
            assert(sv.len() > 0 ==> sv[0] == ss@[si as int]@);
            assert(sv.len() > 0 ==> sv.drop_first() =~= pieces_view(ss@).subrange(
                si as int + 1,
                send as int,
            ));
        }
        match &ps[pi] {
            SegPat::DoubleStar => {
                if segs_match_at(ps, pi + 1, ss, si, send) {
                    true
                } else if si < send {
                    segs_match_at(ps, pi, ss, si + 1, send)
                } else {
                    false
                }
            },
            SegPat::Glob(ts) => {
                if si == send {
                    false
                } else {
                    proof {
                        assert(pv[0] == SegView::Glob(toks_view(ts@)));
                        assert(toks_view(ts@).skip(0) =~= toks_view(ts@));
                        assert(ss@[si as int]@.skip(0) =~= ss@[si as int]@);
                    }
                    glob_match_at(ts, 0, &ss[si], 0) && segs_match_at(ps, pi + 1, ss, si + 1, send)
                }
            },
        }
    }
}

} // verus!
