//! The pattern compiler: one ignore-file line becomes one compiled rule, a
//! whole pattern text becomes an ordered rule set.
//!
//! Per line: unescaped trailing whitespace is insignificant; blank lines and
//! `#` comments compile to nothing; a leading `!` negates; a trailing `/`
//! restricts the rule to directories; a `/` anywhere else anchors the rule at
//! the root.  A line whose glob is malformed (dangling escape, unterminated
//! character class, empty segment) is dropped without failing the rest.

use vstd::prelude::*;
use vstd::string::StrSliceExecFns;
use crate::glob::ClassRange;
use crate::glob::SegPat;
use crate::glob::SegView;
use crate::glob::Tok;
use crate::glob::TokView;
use crate::glob::segs_view;
use crate::glob::toks_view;
use crate::text::chars_of;
use crate::text::lemma_split_on_step;
use crate::text::split_on;
use crate::text::split_str;

verus! {

/// Whitespace that may be stripped from a line's end.
pub open spec fn is_ws(c: char) -> bool {
    c == ' ' || c == '\t'
}

/// Removes unescaped trailing whitespace: a final whitespace character is
/// dropped unless a backslash stands directly before it.
pub open spec fn strip_trailing_ws(s: Seq<char>) -> Seq<char>
    decreases s.len(),
{
    if s.len() == 0 {
        s
    } else if is_ws(s.last()) && !(s.len() >= 2 && s[s.len() - 2] == '\\') {
        strip_trailing_ws(s.drop_last())
    } else {
        s
    }
}

/// One member character of a character class, possibly escaped; yields the
/// character and how many input characters it spans.
pub open spec fn member_char(s: Seq<char>) -> Option<(char, int)> {
    if s.len() == 0 {
        None
    } else if s[0] == '\\' {
        if s.len() >= 2 {
            Some((s[1], 2))
        } else {
            None
        }
    } else {
        Some((s[0], 1))
    }
}

/// The members of a character class up to and including the closing `]`,
/// starting just inside the brackets (after any negation mark).  A `]` in
/// first position is a literal member; `a-b` is an inclusive range; a `-`
/// that starts or ends the class is literal.  Yields the ranges and the
/// number of characters consumed, or nothing if the class never closes.
pub open spec fn class_items(s: Seq<char>, first: bool) -> Option<(Seq<ClassRange>, int)>
    decreases s.len(),
{
    if s.len() == 0 {
        None
    } else if s[0] == ']' && !first {
        Some((Seq::empty(), 1))
    } else {
        match member_char(s) {
            None => None,
            Some((lo, n1)) => {
                if n1 < s.len() && s[n1] == '-' && n1 + 1 < s.len() && s[n1 + 1] != ']' {
                    match member_char(s.skip(n1 + 1)) {
                        None => None,
                        Some((hi, n2)) => {
                            match class_items(s.skip(n1 + 1 + n2), false) {
                                None => None,
                                Some((rest, m)) => Some(
                                    (seq![ClassRange { lo, hi }] + rest, n1 + 1 + n2 + m),
                                ),
                            }
                        },
                    }
                } else {
                    match class_items(s.skip(n1), false) {
                        None => None,
                        Some((rest, m)) => Some((seq![ClassRange { lo, hi: lo }] + rest, n1 + m)),
                    }
                }
            },
        }
    }
}

/// A whole character class, starting just after the opening `[`: an optional
/// `!` or `^` negation mark, then the members.  Yields the negation flag, the
/// ranges, and the number of characters consumed.
pub open spec fn class_of(s: Seq<char>) -> Option<(bool, Seq<ClassRange>, int)> {
    if s.len() > 0 && (s[0] == '!' || s[0] == '^') {
        match class_items(s.skip(1), true) {
            None => None,
            Some((rs, m)) => Some((true, rs, 1 + m)),
        }
    } else {
        match class_items(s, true) {
            None => None,
            Some((rs, m)) => Some((false, rs, m)),
        }
    }
}

pub proof fn lemma_class_items_consumed(s: Seq<char>, first: bool)
    ensures
        class_items(s, first) matches Some((rs, m)) ==> 1 <= m <= s.len(),
    decreases s.len(),
{
    if s.len() == 0 {
    } else if s[0] == ']' && !first {
    } else {
        match member_char(s) {
            None => {},
            Some((lo, n1)) => {
                if n1 < s.len() && s[n1] == '-' && n1 + 1 < s.len() && s[n1 + 1] != ']' {
                    match member_char(s.skip(n1 + 1)) {
                        None => {},
                        Some((hi, n2)) => {
                            lemma_class_items_consumed(s.skip(n1 + 1 + n2), false);
                        },
                    }
                } else {
                    lemma_class_items_consumed(s.skip(n1), false);
                }
            },
        }
    }
}

pub proof fn lemma_class_of_consumed(s: Seq<char>)
    ensures
        class_of(s) matches Some((neg, rs, m)) ==> 1 <= m <= s.len(),
{
    if s.len() > 0 && (s[0] == '!' || s[0] == '^') {
        lemma_class_items_consumed(s.skip(1), true);
    } else {
        lemma_class_items_consumed(s, true);
    }
}

/// The tokens of one glob segment: literals with `\` escaping, `*`, `?`, and
/// bracketed character classes.  Nothing for a malformed segment (dangling
/// escape or unterminated class).
pub open spec fn toks_of(s: Seq<char>) -> Option<Seq<TokView>>
    decreases s.len(),
    via toks_of_decreases
{
    if s.len() == 0 {
        Some(Seq::empty())
    } else if s[0] == '\\' {
        if s.len() >= 2 {
            match toks_of(s.skip(2)) {
                None => None,
                Some(rest) => Some(seq![TokView::Lit(s[1])] + rest),
            }
        } else {
            None
        }
    } else if s[0] == '*' {
        match toks_of(s.skip(1)) {
            None => None,
            Some(rest) => Some(seq![TokView::Star] + rest),
        }
    } else if s[0] == '?' {
        match toks_of(s.skip(1)) {
            None => None,
            Some(rest) => Some(seq![TokView::AnyChar] + rest),
        }
    } else if s[0] == '[' {
        match class_of(s.skip(1)) {
            None => None,
            Some((neg, rs, m)) => {
                match toks_of(s.skip(1 + m)) {
                    None => None,
                    Some(rest) => Some(seq![TokView::Class { negated: neg, ranges: rs }] + rest),
                }
            },
        }
    } else {
        match toks_of(s.skip(1)) {
            None => None,
            Some(rest) => Some(seq![TokView::Lit(s[0])] + rest),
        }
    }
}

#[via_fn]
proof fn toks_of_decreases(s: Seq<char>) {
    if s.len() > 0 {
        lemma_class_of_consumed(s.skip(1));
    }
}

/// One compiled pattern segment: a lone `**` spans whole path segments,
/// anything else is a glob over one segment.  Nothing for an empty or
/// malformed segment.
pub open spec fn seg_of(s: Seq<char>) -> Option<SegView> {
    if s.len() == 0 {
        None
    } else if s.len() == 2 && s[0] == '*' && s[1] == '*' {
        Some(SegView::DoubleStar)
    } else {
        match toks_of(s) {
            None => None,
            Some(ts) => Some(SegView::Glob(ts)),
        }
    }
}

/// All segments of a pattern, in order; nothing if any segment is empty or
/// malformed.
pub open spec fn segs_of(raw: Seq<Seq<char>>) -> Option<Seq<SegView>>
    decreases raw.len(),
{
    if raw.len() == 0 {
        Some(Seq::empty())
    } else {
        match segs_of(raw.drop_last()) {
            None => None,
            Some(init) => match seg_of(raw.last()) {
                None => None,
                Some(p) => Some(init.push(p)),
            },
        }
    }
}

/// The ranges of a parsed class, or nothing.
pub open spec fn ci_ranges(o: Option<(Seq<ClassRange>, int)>) -> Seq<ClassRange> {
    match o {
        Some(t) => t.0,
        None => Seq::empty(),
    }
}

/// The characters a parsed class consumed, or zero.
pub open spec fn ci_used(o: Option<(Seq<ClassRange>, int)>) -> int {
    match o {
        Some(t) => t.1,
        None => 0,
    }
}

/// The tokens of a parsed segment, or nothing.
pub open spec fn tv_or_empty(o: Option<Seq<TokView>>) -> Seq<TokView> {
    match o {
        Some(ts) => ts,
        None => Seq::empty(),
    }
}

/// Parses a character class of `seg`, `from` standing just after the `[`.
/// Yields the negation flag, the ranges, and the characters consumed.
#[verifier::rlimit(50)]
fn parse_class(seg: &Vec<char>, from: usize) -> (r: Option<(bool, Vec<ClassRange>, usize)>)
    requires
        from <= seg@.len(),
    ensures
        r is Some <==> class_of(seg@.skip(from as int)) is Some,
        r matches Some(t) ==> class_of(seg@.skip(from as int)) matches Some(cv) && cv.0 == t.0
            && cv.1 == t.1@ && cv.2 == t.2 as int,
{
    let n = seg.len();
    let mut i = from;
    let mut neg = false;
    if i < n && (seg[i] == '!' || seg[i] == '^') {
        neg = true;
        i = i + 1;
    }
    let ghost items_start = i as int;
    let ghost items0 = seg@.skip(items_start);
    let mut ranges: Vec<ClassRange> = Vec::new();
    let mut first = true;
    let mut out: Option<(bool, Vec<ClassRange>, usize)> = None;
    loop
        invariant_except_break
            out is None,
            n == seg@.len(),
            from <= items_start <= i <= n,
            items0 == seg@.skip(items_start),
            neg == (items_start == from + 1),
            class_items(items0, true) is Some <==> class_items(seg@.skip(i as int), first)
                is Some,
            class_items(items0, true) is Some ==> ci_ranges(class_items(items0, true)) == ranges@
                + ci_ranges(class_items(seg@.skip(i as int), first)),
            class_items(items0, true) is Some ==> ci_used(class_items(items0, true)) == i
                - items_start + ci_used(class_items(seg@.skip(i as int), first)),
        ensures
            out is Some <==> class_items(items0, true) is Some,
            out matches Some(t) ==> t.0 == neg && (class_items(items0, true) matches Some(ci)
                && ci.0 == t.1@ && items_start - from + ci.1 == t.2 as int),
        decreases n - i,
    {
        let ghost rem = seg@.skip(i as int);
        if i >= n {
            proof {
                assert(rem =~= Seq::<char>::empty());
            }
            break;
        }
        proof {
            assert(rem.len() == n - i);
            assert(rem[0] == seg@[i as int]);
        }
        let c = seg[i];
        if c == ']' && !first {
            proof {
                assert(class_items(rem, first) matches Some(ci) && ci.0 =~= Seq::<
                    ClassRange,
                >::empty() && ci.1 == 1);
                assert(ranges@ + Seq::<ClassRange>::empty() =~= ranges@);
            }
            out = Some((neg, ranges, i + 1 - from));
            break;
        }
        // one member character, possibly escaped
        let lo: char;
        let n1: usize;
        if c == '\\' {
            if n - i >= 2 {
                lo = seg[i + 1];
                n1 = 2;
                proof {
                    assert(rem[1] == seg@[i as int + 1]);
                }
            } else {
                proof {
                    assert(member_char(rem) is None);
                    assert(class_items(rem, first) is None);
                }
                break;
            }
        } else {
            lo = c;
            n1 = 1;
        }
        proof {
            assert(member_char(rem) == Some((lo, n1 as int)));
        }
        let ghost old_i = i as int;
        let ghost old_first = first;
        let ghost old_ranges = ranges@;
        let item: ClassRange;
        proof {
            if n1 < rem.len() {
                assert(rem[n1 as int] == seg@[i + n1]);
            }
            if n1 + 1 < rem.len() {
                assert(rem[n1 as int + 1] == seg@[i + n1 + 1]);
            }
        }
        if n1 < n - i && seg[i + n1] == '-' && n1 + 1 < n - i && seg[i + n1 + 1] != ']' {
            let j = i + n1 + 1;
            let ghost rem_hi = seg@.skip(j as int);
            proof {
                assert(rem.skip(n1 + 1) =~= rem_hi);
                assert(rem_hi.len() == n - j);
                assert(rem_hi.len() > 0 ==> rem_hi[0] == seg@[j as int]);
            }
            let hi: char;
            let n2: usize;
            if seg[j] == '\\' {
                if n - j >= 2 {
                    hi = seg[j + 1];
                    n2 = 2;
                    proof {
                        assert(rem_hi[1] == seg@[j as int + 1]);
                    }
                } else {
                    proof {
                        assert(member_char(rem_hi) is None);
                        assert(class_items(rem, first) is None);
                    }
                    break;
                }
            } else {
                hi = seg[j];
                n2 = 1;
            }
            item = ClassRange { lo, hi };
            ranges.push(item);
            i = j + n2;
            proof {
                assert(member_char(rem_hi) == Some((hi, n2 as int)));
                assert(rem.skip(n1 + 1 + n2) =~= seg@.skip(i as int));
            }
        } else {
            item = ClassRange { lo, hi: lo };
            ranges.push(item);
            i = i + n1;
            proof {
                assert(rem.skip(n1 as int) =~= seg@.skip(i as int));
            }
        }
        first = false;
        proof {
            let rem2 = seg@.skip(i as int);
            assert(class_items(rem, old_first) is Some <==> class_items(rem2, false) is Some);
            if class_items(rem2, false) is Some {
                assert(ci_ranges(class_items(rem, old_first)) =~= seq![item] + ci_ranges(
                    class_items(rem2, false),
                ));
                lemma_push_front_assoc(old_ranges, item, ci_ranges(class_items(rem2, false)));
                assert(ci_used(class_items(rem, old_first)) == i - old_i + ci_used(
                    class_items(rem2, false),
                ));
            }
        }
    }
    proof {
        let b0 = seg@.skip(from as int);
        if neg {
            assert(b0.len() > 0 && b0[0] == seg@[from as int]);
            assert(b0.skip(1) =~= items0);
        } else {
            assert(b0 =~= items0);
            assert(b0.len() > 0 ==> b0[0] == seg@[from as int]);
        }
    }
    out
}

/// Appending one element and then a tail is prepending the element to the
/// tail.
proof fn lemma_push_front_assoc<T>(a: Seq<T>, x: T, y: Seq<T>)
    ensures
        a.push(x) + y == a + (seq![x] + y),
{
    assert(a.push(x) + y =~= a + (seq![x] + y));
}

/// One tokenizer step: after gathering token `tv` and consuming `used`
/// characters, the tokens gathered so far plus those still owed are
/// unchanged.
proof fn lemma_tok_step(
    seg: Seq<char>,
    i: int,
    used: int,
    tv: TokView,
    old_acc: Seq<Tok>,
    new_acc: Seq<Tok>,
)
    requires
        toks_view(new_acc) == toks_view(old_acc).push(tv),
        toks_of(seg.skip(i)) is Some <==> toks_of(seg.skip(i + used)) is Some,
        toks_of(seg.skip(i + used)) is Some ==> tv_or_empty(toks_of(seg.skip(i))) == seq![tv]
            + tv_or_empty(toks_of(seg.skip(i + used))),
        toks_of(seg) is Some <==> toks_of(seg.skip(i)) is Some,
        toks_of(seg) is Some ==> tv_or_empty(toks_of(seg)) == toks_view(old_acc) + tv_or_empty(
            toks_of(seg.skip(i)),
        ),
    ensures
        toks_of(seg) is Some <==> toks_of(seg.skip(i + used)) is Some,
        toks_of(seg) is Some ==> tv_or_empty(toks_of(seg)) == toks_view(new_acc) + tv_or_empty(
            toks_of(seg.skip(i + used)),
        ),
{
    if toks_of(seg) is Some {
        lemma_push_front_assoc(toks_view(old_acc), tv, tv_or_empty(toks_of(seg.skip(i + used))));
    }
}

/// The views of a pushed token sequence are the pushed views.
proof fn lemma_toks_view_push(s: Seq<Tok>, t: Tok)
    ensures
        toks_view(s.push(t)) == toks_view(s).push(t@),
{
    assert(toks_view(s.push(t)) =~= toks_view(s).push(t@));
}

/// Compiles one glob segment into tokens; nothing for a malformed segment.
#[verifier::rlimit(80)]
fn toks(seg: &Vec<char>) -> (r: Option<Vec<Tok>>)
    ensures
        r is Some <==> toks_of(seg@) is Some,
        r matches Some(ts) ==> toks_of(seg@) is Some && tv_or_empty(toks_of(seg@)) == toks_view(
            ts@,
        ),
{
    let n = seg.len();
    let mut acc: Vec<Tok> = Vec::new();
    let mut i: usize = 0;
    proof {
        assert(seg@.skip(0) =~= seg@);
        assert(toks_view(acc@) =~= Seq::<TokView>::empty());
    }
    loop
        invariant
            n == seg@.len(),
            i <= n,
            toks_of(seg@) is Some <==> toks_of(seg@.skip(i as int)) is Some,
            toks_of(seg@) is Some ==> tv_or_empty(toks_of(seg@)) == toks_view(acc@) + tv_or_empty(
                toks_of(seg@.skip(i as int)),
            ),
        decreases n - i,
    {
        let ghost rem = seg@.skip(i as int);
        if i >= n {
            proof {
                assert(rem =~= Seq::<char>::empty());
                assert(toks_view(acc@) + tv_or_empty(toks_of(rem)) =~= toks_view(acc@));
            }
            return Some(acc);
        }
        proof {
            assert(rem.len() == n - i);
            assert(rem[0] == seg@[i as int]);
        }
        let c = seg[i];
        let ghost old_acc = acc@;
        if c == '\\' {
            if n - i >= 2 {
                let ch = seg[i + 1];
                let t = Tok::Lit(ch);
                acc.push(t);
                proof {
                    assert(rem[1] == seg@[i as int + 1]);
                    let tv = TokView::Lit(ch);
                    let rem2 = seg@.skip(i as int + 2);
                    assert(rem.skip(2) =~= rem2);
                    if toks_of(rem2) is Some {
                        assert(tv_or_empty(toks_of(rem)) =~= seq![tv] + tv_or_empty(
                            toks_of(rem2),
                        ));
                    }
                    lemma_toks_view_push(old_acc, t);
                    lemma_tok_step(seg@, i as int, 2, tv, old_acc, acc@);
                }
                i = i + 2;
            } else {
                return None;
            }
        } else if c == '*' {
            let t = Tok::Star;
            acc.push(t);
            proof {
                let tv = TokView::Star;
                let rem2 = seg@.skip(i as int + 1);
                assert(rem.skip(1) =~= rem2);
                if toks_of(rem2) is Some {
                    assert(tv_or_empty(toks_of(rem)) =~= seq![tv] + tv_or_empty(toks_of(rem2)));
                }
                lemma_toks_view_push(old_acc, t);
                lemma_tok_step(seg@, i as int, 1, tv, old_acc, acc@);
            }
            i = i + 1;
        } else if c == '?' {
            let t = Tok::AnyChar;
            acc.push(t);
            proof {
                let tv = TokView::AnyChar;
                let rem2 = seg@.skip(i as int + 1);
                assert(rem.skip(1) =~= rem2);
                if toks_of(rem2) is Some {
                    assert(tv_or_empty(toks_of(rem)) =~= seq![tv] + tv_or_empty(toks_of(rem2)));
                }
                lemma_toks_view_push(old_acc, t);
                lemma_tok_step(seg@, i as int, 1, tv, old_acc, acc@);
            }
            i = i + 1;
        } else if c == '[' {
            proof {
                assert(rem.skip(1) =~= seg@.skip(i as int + 1));
            }
            match parse_class(seg, i + 1) {
                None => {
                    return None;
                },
                Some((negated, cranges, m)) => {
                    proof {
                        lemma_class_of_consumed(seg@.skip(i as int + 1));
                    }
                    let ghost crv = cranges@;
                    let t = Tok::Class { negated, ranges: cranges };
                    acc.push(t);
                    proof {
                        let tv = TokView::Class { negated, ranges: crv };
                        let rem2 = seg@.skip(i as int + 1 + m as int);
                        assert(rem.skip(1 + m as int) =~= rem2);
                        if toks_of(rem2) is Some {
                            assert(tv_or_empty(toks_of(rem)) =~= seq![tv] + tv_or_empty(
                                toks_of(rem2),
                            ));
                        }
                        lemma_toks_view_push(old_acc, t);
                        lemma_tok_step(seg@, i as int, 1 + m as int, tv, old_acc, acc@);
                    }
                    i = i + 1 + m;
                },
            }
        } else {
            let t = Tok::Lit(c);
            acc.push(t);
            proof {
                let tv = TokView::Lit(c);
                let rem2 = seg@.skip(i as int + 1);
                assert(rem.skip(1) =~= rem2);
                if toks_of(rem2) is Some {
                    assert(tv_or_empty(toks_of(rem)) =~= seq![tv] + tv_or_empty(toks_of(rem2)));
                }
                lemma_toks_view_push(old_acc, t);
                lemma_tok_step(seg@, i as int, 1, tv, old_acc, acc@);
            }
            i = i + 1;
        }
    }
}

/// One compiled rule.
pub struct Rule {
    /// The glob, segment by segment.  An unanchored rule holds exactly one
    /// glob segment, matched against a path's final segment.
    pub segs: Vec<SegPat>,
    /// The pattern held a `/` before its end: it matches from the root.
    pub anchored: bool,
    /// The pattern ended in `/`: it applies to directories only.
    pub dir_only: bool,
    /// The pattern began with `!`: a match whitelists instead of ignoring.
    pub negated: bool,
}

/// The mathematical form of a rule.
#[verifier::ext_equal]
pub struct RuleView {
    pub segs: Seq<SegView>,
    pub anchored: bool,
    pub dir_only: bool,
    pub negated: bool,
}

impl View for Rule {
    type V = RuleView;

    open spec fn view(&self) -> RuleView {
        RuleView {
            segs: segs_view(self.segs@),
            anchored: self.anchored,
            dir_only: self.dir_only,
            negated: self.negated,
        }
    }
}

/// An unanchored rule carries exactly one glob segment.
pub open spec fn rule_wf(r: RuleView) -> bool {
    !r.anchored ==> r.segs.len() == 1 && r.segs[0] is Glob
}

/// The rule a single pattern line compiles to, if any.  Blank lines and
/// comments compile to nothing, and so do malformed lines.
pub open spec fn parse_line_spec(line: Seq<char>) -> Option<RuleView> {
    let t = strip_trailing_ws(line);
    if t.len() == 0 {
        None
    } else if t[0] == '#' {
        None
    } else {
        let negated = t[0] == '!';
        let t1 = if negated {
            t.drop_first()
        } else {
            t
        };
        if t1.len() == 0 {
            None
        } else {
            let dir_only = t1.last() == '/' && !(t1.len() >= 2 && t1[t1.len() - 2] == '\\');
            let t2 = if dir_only {
                t1.drop_last()
            } else {
                t1
            };
            if t2.len() == 0 {
                None
            } else {
                let anchored = t2.contains('/');
                let t3 = if t2[0] == '/' {
                    t2.drop_first()
                } else {
                    t2
                };
                if t3.len() == 0 {
                    None
                } else {
                    match segs_of(split_on(t3, '/')) {
                        None => None,
                        Some(gsegs) => Some(build_rule(gsegs, anchored, dir_only, negated)),
                    }
                }
            }
        }
    }
}

/// Assembles a rule from its compiled segments and flags.  An unanchored
/// pattern has a single segment; if that segment is a bare `**` it becomes a
/// glob that matches any name.
pub open spec fn build_rule(gsegs: Seq<SegView>, anchored: bool, dir_only: bool, negated: bool) -> RuleView {
    if anchored {
        RuleView { segs: gsegs, anchored, dir_only, negated }
    } else {
        let g = if gsegs[0] is DoubleStar {
            SegView::Glob(seq![TokView::Star])
        } else {
            gsegs[0]
        };
        RuleView { segs: seq![g], anchored, dir_only, negated }
    }
}

/// The rules of a line sequence, in order; lines that compile to nothing
/// leave no gap.
pub open spec fn rules_of_lines(lines: Seq<Seq<char>>) -> Seq<RuleView>
    decreases lines.len(),
{
    if lines.len() == 0 {
        Seq::empty()
    } else {
        let init = rules_of_lines(lines.drop_last());
        match parse_line_spec(lines.last()) {
            None => init,
            Some(r) => init.push(r),
        }
    }
}

/// The rules a whole pattern text compiles to: its lines, compiled in order.
pub open spec fn compile_spec(text: Seq<char>) -> Seq<RuleView> {
    rules_of_lines(split_on(text, '\n'))
}

/// How many of the rules ignore (are not negated).
pub open spec fn count_ignores(rs: Seq<RuleView>) -> nat
    decreases rs.len(),
{
    if rs.len() == 0 {
        0
    } else {
        count_ignores(rs.drop_last()) + if rs.last().negated {
            0nat
        } else {
            1nat
        }
    }
}

/// How many of the rules whitelist (are negated).
pub open spec fn count_whitelists(rs: Seq<RuleView>) -> nat
    decreases rs.len(),
{
    if rs.len() == 0 {
        0
    } else {
        count_whitelists(rs.drop_last()) + if rs.last().negated {
            1nat
        } else {
            0nat
        }
    }
}

/// The views of a sequence of rules.
pub open spec fn rules_view(rs: Seq<Rule>) -> Seq<RuleView> {
    rs.map_values(|r: Rule| r@)
}

/// An ordered set of compiled rules, with counters for introspection.
pub struct RuleSet {
    pub rules: Vec<Rule>,
    pub num_ignore_rules: usize,
    pub num_whitelist_rules: usize,
}

impl View for RuleSet {
    type V = Seq<RuleView>;

    open spec fn view(&self) -> Seq<RuleView> {
        rules_view(self.rules@)
    }
}

impl RuleSet {
    /// The counters match the rules, and every rule is well formed.
    pub open spec fn wf(self) -> bool {
        &&& self.num_ignore_rules == count_ignores(self@)
        &&& self.num_whitelist_rules == count_whitelists(self@)
        &&& forall|i: int| 0 <= i < self@.len() ==> rule_wf(#[trigger] self@[i])
    }

    /// How many rules ignore.
    pub fn num_ignores(&self) -> (n: usize)
        requires
            self.wf(),
        ensures
            n == count_ignores(self@),
    {
        self.num_ignore_rules
    }

    /// How many rules whitelist.
    pub fn num_whitelists(&self) -> (n: usize)
        requires
            self.wf(),
        ensures
            n == count_whitelists(self@),
    {
        self.num_whitelist_rules
    }

    /// Whether no line compiled to a rule.
    pub fn is_empty(&self) -> (e: bool)
        ensures
            e == (self@.len() == 0),
    {
        self.rules.len() == 0
    }
}


/// The segments of a parsed pattern, or nothing.
pub open spec fn sv_or_empty(o: Option<Seq<SegView>>) -> Seq<SegView> {
    match o {
        Some(sv) => sv,
        None => Seq::empty(),
    }
}

/// A failed segment dooms the whole pattern, wherever it stands.
proof fn lemma_segs_of_none(raw: Seq<Seq<char>>, j: int)
    requires
        0 <= j <= raw.len(),
        segs_of(raw.take(j)) is None,
    ensures
        segs_of(raw) is None,
    decreases raw.len() - j,
{
    if j < raw.len() {
        assert(raw.take(j + 1).drop_last() =~= raw.take(j));
        lemma_segs_of_none(raw, j + 1);
    } else {
        assert(raw.take(j) =~= raw);
    }
}

/// The views of a pushed segment sequence are the pushed views.
proof fn lemma_segs_view_push(s: Seq<SegPat>, p: SegPat)
    ensures
        segs_view(s.push(p)) == segs_view(s).push(p@),
{
    assert(segs_view(s.push(p)) =~= segs_view(s).push(p@));
}

/// The views of a sequence of owned strings.
pub open spec fn strs_view(ss: Seq<String>) -> Seq<Seq<char>> {
    ss.map_values(|s: String| s@)
}

/// Compiles every pattern segment, or nothing if any segment is empty or
/// malformed.
fn compile_segs(raw: &Vec<String>) -> (r: Option<Vec<SegPat>>)
    ensures
        r is Some <==> segs_of(strs_view(raw@)) is Some,
        r matches Some(v) ==> sv_or_empty(segs_of(strs_view(raw@))) == segs_view(v@)
            && v@.len() == raw@.len(),
{
    let ghost rsp = strs_view(raw@);
    let mut segs: Vec<SegPat> = Vec::new();
    let mut k: usize = 0;
    proof {
        assert(rsp.take(0) =~= Seq::<Seq<char>>::empty());
        assert(segs_view(segs@) =~= Seq::<SegView>::empty());
    }
    while k < raw.len()
        invariant
            k <= raw@.len(),
            rsp == strs_view(raw@),
            rsp.len() == raw@.len(),
            forall|q: int| 0 <= q < raw@.len() ==> rsp[q] == #[trigger] raw@[q]@,
            segs@.len() == k,
            segs_of(rsp.take(k as int)) is Some,
            sv_or_empty(segs_of(rsp.take(k as int))) == segs_view(segs@),
        decreases raw@.len() - k,
    {
        let ghost old_segs = segs@;
        let sc = chars_of(raw[k].as_str());
        proof {
            assert(sc@ == rsp[k as int]);
            assert(rsp.take(k as int + 1).drop_last() =~= rsp.take(k as int));
            assert(rsp.take(k as int + 1).last() == rsp[k as int]);
        }
        if sc.len() == 0 {
            proof {
                lemma_segs_of_none(rsp, k as int + 1);
            }
            return None;
        }
        if sc.len() == 2 && sc[0] == '*' && sc[1] == '*' {
            let p = SegPat::DoubleStar;
            segs.push(p);
            proof {
                lemma_segs_view_push(old_segs, p);
                assert(seg_of(sc@) == Some(SegView::DoubleStar));
            }
        } else {
            match toks(&sc) {
                None => {
                    proof {
                        lemma_segs_of_none(rsp, k as int + 1);
                    }
                    return None;
                },
                Some(ts) => {
                    let ghost tsv = toks_view(ts@);
                    let p = SegPat::Glob(ts);
                    segs.push(p);
                    proof {
                        lemma_segs_view_push(old_segs, p);
                        assert(seg_of(sc@) == Some(SegView::Glob(tsv)));
                        assert(p@ == SegView::Glob(tsv));
                    }
                },
            }
        }
        k = k + 1;
    }
    proof {
        assert(rsp.take(rsp.len() as int) =~= rsp);
    }
    Some(segs)
}

/// Compiles one pattern line, as `parse_line_spec` describes.
#[verifier::rlimit(100)]
pub fn parse_line(line: &str) -> (r: Option<Rule>)
    ensures
        r is Some <==> parse_line_spec(line@) is Some,
        r matches Some(rule) ==> parse_line_spec(line@) == Some(rule@) && rule_wf(rule@),
{
    let cs = chars_of(line);
    let n = cs.len();
    // strip unescaped trailing whitespace
    let mut end: usize = n;
    proof {
        assert(line@.take(n as int) =~= line@);
    }
    while end > 0 && (cs[end - 1] == ' ' || cs[end - 1] == '\t') && !(end >= 2 && cs[end - 2]
        == '\\')
        invariant
            end <= n,
            n == cs@.len(),
            cs@ == line@,
            strip_trailing_ws(line@) == strip_trailing_ws(line@.take(end as int)),
        decreases end,
    {
        proof {
            let cur = line@.take(end as int);
            assert(cur.last() == line@[end - 1]);
            assert(end >= 2 ==> cur[cur.len() - 2] == line@[end - 2]);
            assert(cur.drop_last() =~= line@.take(end as int - 1));
        }
        end = end - 1;
    }
    let ghost t = line@.take(end as int);
    proof {
        if end > 0 {
            assert(t.last() == line@[end - 1]);
            assert(end >= 2 ==> t[t.len() - 2] == line@[end - 2]);
        }
        assert(strip_trailing_ws(t) == t);
        assert(t.len() == end);
        assert(forall|q: int| 0 <= q < end ==> t[q] == line@[q]);
    }
    if end == 0 {
        return None;
    }
    if cs[0] == '#' {
        return None;
    }
    let negated = cs[0] == '!';
    let start: usize = if negated {
        1
    } else {
        0
    };
    let ghost t1 = line@.subrange(start as int, end as int);
    proof {
        if negated {
            assert(t.drop_first() =~= t1);
        } else {
            assert(t =~= t1);
        }
        assert(t1.len() == end - start);
        assert(forall|q: int| 0 <= q < t1.len() ==> t1[q] == line@[start + q]);
    }
    if start == end {
        return None;
    }
    let dir_only = cs[end - 1] == '/' && !(end - start >= 2 && cs[end - 2] == '\\');
    let end2: usize = if dir_only {
        end - 1
    } else {
        end
    };
    let ghost t2 = line@.subrange(start as int, end2 as int);
    proof {
        assert(t1.last() == line@[end - 1]);
        assert(t1.len() >= 2 ==> t1[t1.len() - 2] == line@[end - 2]);
        if dir_only {
            assert(t1.drop_last() =~= t2);
        } else {
            assert(t1 =~= t2);
        }
        assert(t2.len() == end2 - start);
        assert(forall|q: int| 0 <= q < t2.len() ==> t2[q] == line@[start + q]);
    }
    if start == end2 {
        return None;
    }
    // does the remaining pattern hold a slash anywhere?
    let mut anchored = false;
    let mut j = start;
    while j < end2
        invariant
            start <= j <= end2 <= n,
            n == cs@.len(),
            cs@ == line@,
            t2 == line@.subrange(start as int, end2 as int),
            anchored ==> t2.contains('/'),
            !anchored ==> forall|q: int| start <= q < j ==> line@[q] != '/',
        decreases end2 - j,
    {
        if cs[j] == '/' {
            proof {
                assert(t2[j - start] == line@[j as int]);
                assert(t2.contains('/'));
            }
            anchored = true;
        }
        j = j + 1;
    }
    proof {
        if !anchored {
            assert forall|q: int| 0 <= q < t2.len() implies t2[q] != '/' by {
                assert(t2[q] == line@[start + q]);
            }
            assert(!t2.contains('/'));
        }
    }
    let lead = cs[start] == '/';
    let start2: usize = if lead {
        start + 1
    } else {
        start
    };
    let ghost t3 = line@.subrange(start2 as int, end2 as int);
    proof {
        assert(t2[0] == line@[start as int]);
        if lead {
            assert(t2.drop_first() =~= t3);
        } else {
            assert(t2 =~= t3);
        }
    }
    if start2 == end2 {
        return None;
    }
    let core = line.substring_char(start2, end2).to_owned();
    proof {
        assert(core@ == t3);
    }
    let raw = split_str(core.as_str(), '/');
    let ghost rsp = split_on(t3, '/');
    proof {
        assert(strs_view(raw@) =~= rsp);
    }
    let segs: Vec<SegPat>;
    match compile_segs(&raw) {
        None => {
            return None;
        },
        Some(v) => {
            segs = v;
        },
    }
    let ghost gsegs = sv_or_empty(segs_of(rsp));
    let rule: Rule;
    if !anchored {
        proof {
            lemma_split_on_step(t3, '/', t3.len() as int);
            assert(rsp =~= seq![t3]);
            assert(gsegs.len() == 1);
            assert(gsegs[0] == segs_view(segs@)[0]);
            assert(gsegs =~= seq![gsegs[0]]);
        }
        let is_dstar = match &segs[0] {
            SegPat::DoubleStar => true,
            _ => false,
        };
        if is_dstar {
            let mut star: Vec<Tok> = Vec::new();
            star.push(Tok::Star);
            let ghost starv = star@;
            let p = SegPat::Glob(star);
            let mut v: Vec<SegPat> = Vec::new();
            v.push(p);
            rule = Rule { segs: v, anchored, dir_only, negated };
            proof {
                assert(toks_view(starv) =~= seq![TokView::Star]);
                assert(segs_view(rule.segs@) =~= seq![SegView::Glob(seq![TokView::Star])]);
            }
        } else {
            rule = Rule { segs, anchored, dir_only, negated };
            proof {
                assert(segs_view(rule.segs@) =~= seq![gsegs[0]]);
            }
        }
    } else {
        rule = Rule { segs, anchored, dir_only, negated };
    }
    proof {
        assert(parse_line_spec(line@) == Some(build_rule(gsegs, anchored, dir_only, negated)));
        assert(rule@ == build_rule(gsegs, anchored, dir_only, negated));
        assert(rule_wf(rule@));
    }
    Some(rule)
}


/// The views of a pushed rule sequence are the pushed views.
proof fn lemma_rules_view_push(s: Seq<Rule>, r: Rule)
    ensures
        rules_view(s.push(r)) == rules_view(s).push(r@),
{
    assert(rules_view(s.push(r)) =~= rules_view(s).push(r@));
}

/// Compiles a sequence of pattern lines: one rule per surviving line, in
/// order, with the two rule counters filled in.
pub fn compile_lines(lines: &Vec<String>) -> (rs: RuleSet)
    ensures
        rs@ == rules_of_lines(strs_view(lines@)),
        rs.wf(),
{
    let ghost lsp = strs_view(lines@);
    let mut rules: Vec<Rule> = Vec::new();
    let mut n_ig: usize = 0;
    let mut n_wl: usize = 0;
    let mut k: usize = 0;
    proof {
        assert(lsp.take(0) =~= Seq::<Seq<char>>::empty());
        assert(rules_view(rules@) =~= Seq::<RuleView>::empty());
    }
    while k < lines.len()
        invariant
            k <= lines@.len(),
            lines@.len() == lsp.len(),
            forall|q: int| 0 <= q < lines@.len() ==> #[trigger] lines@[q]@ == lsp[q],
            rules_view(rules@) == rules_of_lines(lsp.take(k as int)),
            n_ig == count_ignores(rules_view(rules@)),
            n_wl == count_whitelists(rules_view(rules@)),
            n_ig + n_wl == rules@.len(),
            forall|q: int| 0 <= q < rules@.len() ==> rule_wf(#[trigger] rules_view(rules@)[q]),
        decreases lines@.len() - k,
    {
        let ghost old_rules = rules@;
        proof {
            assert(lsp.take(k as int + 1).drop_last() =~= lsp.take(k as int));
            assert(lsp.take(k as int + 1).last() == lsp[k as int]);
        }
        match parse_line(lines[k].as_str()) {
            None => {},
            Some(rule) => {
                let neg = rule.negated;
                let ghost rv = rule@;
                proof {
                    lemma_rules_view_push(rules@, rule);
                }
                rules.push(rule);
                let l = rules.len();
                proof {
                    assert(rules_view(rules@) == rules_view(old_rules).push(rv));
                    assert(rules_view(rules@).drop_last() =~= rules_view(old_rules));
                    assert(rules_view(rules@).last() == rv);
                    assert(rules_of_lines(lsp.take(k as int + 1)) == rules_of_lines(
                        lsp.take(k as int),
                    ).push(rv));
                    assert(n_ig + n_wl + 1 == l);
                    assert forall|q: int| 0 <= q < rules@.len() implies rule_wf(
                        #[trigger] rules_view(rules@)[q],
                    ) by {
                        if q < rules@.len() - 1 {
                            assert(rules_view(rules@)[q] == rules_view(old_rules)[q]);
                        }
                    }
                }
                if neg {
                    n_wl = n_wl + 1;
                } else {
                    n_ig = n_ig + 1;
                }
            },
        }
        k = k + 1;
    }
    proof {
        assert(lsp.take(lsp.len() as int) =~= lsp);
    }
    RuleSet { rules, num_ignore_rules: n_ig, num_whitelist_rules: n_wl }
}

/// Compiles a whole pattern text, line by line.
pub fn compile(text: &str) -> (rs: RuleSet)
    ensures
        rs@ == compile_spec(text@),
        rs.wf(),
{
    let lines = split_str(text, '\n');
    proof {
        assert(strs_view(lines@) =~= split_on(text@, '\n'));
    }
    compile_lines(&lines)
}

} // verus!
