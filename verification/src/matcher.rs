//! The path matcher: evaluating one path against a rule set, and filtering a
//! newline-separated batch of paths.
//!
//! A path is split into segments; the path itself and then each of its
//! ancestor directories are held against the rules, and the first candidate
//! that any rule matches decides: the latest matching rule wins, and its
//! negation flag picks the outcome.  Ancestors are always directories, which
//! is what lets a directory rule claim everything below the directory.

use vstd::prelude::*;
use vstd::string::StrSliceExecFns;
use crate::glob::SegPat;
use crate::glob::glob_match;
use crate::glob::glob_match_at;
use crate::glob::pieces_view;
use crate::glob::segs_match;
use crate::glob::segs_match_at;
use crate::glob::segs_view;
use crate::pattern::Rule;
use crate::pattern::RuleSet;
use crate::pattern::RuleView;
use crate::pattern::rule_wf;
use crate::pattern::strs_view;
use crate::text::split_on;
use crate::text::split_str;
use crate::text::chars_of;

verus! {

/// The outcome of holding one path against a rule set.
#[derive(Clone, Copy, Debug, PartialEq, Eq, Structural)]
pub enum MatchResult {
    /// No rule matched the path or any of its ancestors.
    Unmatched,
    /// The path is excluded.
    Ignored,
    /// A negated rule re-included the path.
    Whitelisted,
}

/// A piece of a split path that counts as a segment: not empty, not the
/// current-directory mark.
pub open spec fn keep_seg(s: Seq<char>) -> bool {
    s.len() > 0 && s != seq!['.']
}

/// Drops the pieces that are not segments.
pub open spec fn segs_filter(ss: Seq<Seq<char>>) -> Seq<Seq<char>>
    decreases ss.len(),
{
    if ss.len() == 0 {
        Seq::empty()
    } else {
        let init = segs_filter(ss.drop_last());
        if keep_seg(ss.last()) {
            init.push(ss.last())
        } else {
            init
        }
    }
}

/// The segments of a path: split at `/`, empty pieces and `.` dropped.
pub open spec fn path_segments(p: Seq<char>) -> Seq<Seq<char>> {
    segs_filter(split_on(p, '/'))
}

/// Whether one rule matches one candidate, a directory iff `is_dir`.  An
/// anchored rule must span the whole candidate path; an unanchored rule is
/// held against the candidate's final segment alone.  A directory-only rule
/// never matches a plain file.
pub open spec fn rule_matches(r: RuleView, segs: Seq<Seq<char>>, is_dir: bool) -> bool {
    &&& r.dir_only ==> is_dir
    &&& if r.anchored {
        segs_match(r.segs, segs)
    } else {
        segs.len() > 0 && glob_match(r.segs[0]->0, segs.last())
    }
}

/// The index of the last rule that matches the candidate, if any: later
/// rules override earlier ones.
pub open spec fn last_match(rules: Seq<RuleView>, segs: Seq<Seq<char>>, is_dir: bool) -> Option<
    int,
>
    decreases rules.len(),
{
    if rules.len() == 0 {
        None
    } else if rule_matches(rules.last(), segs, is_dir) {
        Some(rules.len() - 1)
    } else {
        last_match(rules.drop_last(), segs, is_dir)
    }
}

/// Walks the candidate chain: the path itself first, then each ancestor as a
/// directory.  The first candidate with any matching rule decides; with no
/// match anywhere the path is unmatched.
pub open spec fn eval_chain(rules: Seq<RuleView>, segs: Seq<Seq<char>>, is_dir: bool) -> MatchResult
    decreases segs.len(),
{
    if segs.len() == 0 {
        MatchResult::Unmatched
    } else {
        match last_match(rules, segs, is_dir) {
            Some(j) => if rules[j].negated {
                MatchResult::Whitelisted
            } else {
                MatchResult::Ignored
            },
            None => eval_chain(rules, segs.drop_last(), true),
        }
    }
}

/// The outcome of one path against a rule set.
pub open spec fn eval_spec(rules: Seq<RuleView>, path: Seq<char>, is_dir: bool) -> MatchResult {
    eval_chain(rules, path_segments(path), is_dir)
}

fn rule_matches_path(rule: &Rule, segs: &Vec<Vec<char>>, send: usize, is_dir: bool) -> (r: bool)
    requires
        rule_wf(rule@),
        1 <= send <= segs@.len(),
    ensures
        r == rule_matches(rule@, pieces_view(segs@).take(send as int), is_dir),
{
    let ghost cand = pieces_view(segs@).take(send as int);
    if rule.dir_only && !is_dir {
        return false;
    }
    if rule.anchored {
        let m = segs_match_at(&rule.segs, 0, segs, 0, send);
        proof {
            assert(segs_view(rule.segs@).skip(0) =~= segs_view(rule.segs@));
            assert(pieces_view(segs@).subrange(0, send as int) =~= cand);
        }
        m
    } else {
        proof {
            assert(rule.segs@[0]@ == rule@.segs[0]);
        }
        match &rule.segs[0] {
            SegPat::DoubleStar => {
                proof {
                    assert(false);
                }
                false
            },
            SegPat::Glob(ts) => {
                let m = glob_match_at(ts, 0, &segs[send - 1], 0);
                proof {
                    assert(crate::glob::toks_view(ts@).skip(0) =~= crate::glob::toks_view(ts@));
                    assert(segs@[send as int - 1]@.skip(0) =~= segs@[send as int - 1]@);
                    assert(cand.last() == segs@[send as int - 1]@);
                }
                m
            },
        }
    }
}

fn find_last_match(rs: &RuleSet, segs: &Vec<Vec<char>>, send: usize, is_dir: bool) -> (r: Option<
    usize,
>)
    requires
        rs.wf(),
        1 <= send <= segs@.len(),
    ensures
        match r {
            Some(j) => j < rs@.len() && last_match(rs@, pieces_view(segs@).take(send as int), is_dir)
                == Some(j as int),
            None => last_match(rs@, pieces_view(segs@).take(send as int), is_dir) is None,
        },
{
    let ghost cand = pieces_view(segs@).take(send as int);
    let mut idx = rs.rules.len();
    proof {
        assert(rs@.take(idx as int) =~= rs@);
    }
    while idx > 0
        invariant
            idx <= rs@.len(),
            rs@.len() == rs.rules@.len(),
            rs.wf(),
            1 <= send <= segs@.len(),
            cand == pieces_view(segs@).take(send as int),
            last_match(rs@, cand, is_dir) == last_match(rs@.take(idx as int), cand, is_dir),
        decreases idx,
    {
        proof {
            assert(rs@.take(idx as int).last() == rs@[idx as int - 1]);
            assert(rs@.take(idx as int).drop_last() =~= rs@.take(idx as int - 1));
            assert(rule_wf(rs@[idx as int - 1]));
            assert(rs.rules@[idx as int - 1]@ == rs@[idx as int - 1]);
        }
        if rule_matches_path(&rs.rules[idx - 1], segs, send, is_dir) {
            return Some(idx - 1);
        }
        idx = idx - 1;
    }
    proof {
        assert(rs@.take(0) =~= Seq::<RuleView>::empty());
    }
    None
}

/// Holds one path against the rules, `is_dir` saying whether the caller
/// knows it to be a directory.
pub fn evaluate(rs: &RuleSet, path: &str, is_dir: bool) -> (r: MatchResult)
    requires
        rs.wf(),
    ensures
        r == eval_spec(rs@, path@, is_dir),
{
    let raw = split_str(path, '/');
    let ghost psp = split_on(path@, '/');
    let mut segs: Vec<Vec<char>> = Vec::new();
    let mut k: usize = 0;
    proof {
        assert(psp.take(0) =~= Seq::<Seq<char>>::empty());
        assert(pieces_view(segs@) =~= Seq::<Seq<char>>::empty());
    }
    while k < raw.len()
        invariant
            k <= raw@.len(),
            raw@.len() == psp.len(),
            forall|q: int| 0 <= q < raw@.len() ==> #[trigger] raw@[q]@ == psp[q],
            pieces_view(segs@) == segs_filter(psp.take(k as int)),
        decreases raw@.len() - k,
    {
        let ghost old_segs = segs@;
        let sc = chars_of(raw[k].as_str());
        proof {
            assert(sc@ == psp[k as int]);
            assert(psp.take(k as int + 1).drop_last() =~= psp.take(k as int));
            assert(psp.take(k as int + 1).last() == psp[k as int]);
        }
        let keep = if sc.len() == 0 {
            proof {
                assert(!keep_seg(sc@));
            }
            false
        } else if sc.len() == 1 && sc[0] == '.' {
            proof {
                assert(sc@ =~= seq!['.']);
            }
            false
        } else {
            proof {
                if sc@.len() == 1 {
                    assert(sc@[0] != '.');
                    assert(sc@ != seq!['.']);
                } else {
                    assert(sc@.len() != 1);
                    assert(sc@ != seq!['.']);
                }
            }
            true
        };
        if keep {
            segs.push(sc);
            proof {
                assert(pieces_view(segs@) =~= pieces_view(old_segs).push(psp[k as int]));
            }
        }
        k = k + 1;
    }
    proof {
        assert(psp.take(psp.len() as int) =~= psp);
    }
    let ghost psegs = path_segments(path@);
    let n = segs.len();
    let mut k2: usize = n;
    proof {
        assert(psegs.take(n as int) =~= psegs);
    }
    while k2 > 0
        invariant
            k2 <= n,
            n == segs@.len(),
            rs.wf(),
            psegs == pieces_view(segs@),
            psegs == path_segments(path@),
            eval_chain(rs@, psegs, is_dir) == eval_chain(
                rs@,
                psegs.take(k2 as int),
                if k2 == n {
                    is_dir
                } else {
                    true
                },
            ),
        decreases k2,
    {
        let d = if k2 == n {
            is_dir
        } else {
            true
        };
        match find_last_match(rs, &segs, k2, d) {
            Some(j) => {
                let neg = rs.rules[j].negated;
                proof {
                    let cand = psegs.take(k2 as int);
                    assert(rs.rules@[j as int]@ == rs@[j as int]);
                    assert(rs@[j as int].negated == neg);
                    assert(cand.len() > 0);
                    assert(last_match(rs@, cand, d) == Some(j as int));
                    assert(eval_chain(rs@, cand, d) == if neg {
                        MatchResult::Whitelisted
                    } else {
                        MatchResult::Ignored
                    });
                    assert(eval_chain(rs@, psegs, is_dir) == eval_chain(rs@, cand, d));
                }
                if neg {
                    return MatchResult::Whitelisted;
                } else {
                    return MatchResult::Ignored;
                }
            },
            None => {
                proof {
                    assert(psegs.take(k2 as int).len() > 0);
                    assert(psegs.take(k2 as int).drop_last() =~= psegs.take(k2 as int - 1));
                }
                k2 = k2 - 1;
            },
        }
    }
    proof {
        assert(psegs.take(0) =~= Seq::<Seq<char>>::empty());
    }
    MatchResult::Unmatched
}

/// The outcome of one line of a path batch: a trailing `/` marks a
/// directory and is stripped before matching.
pub open spec fn line_eval(rules: Seq<RuleView>, line: Seq<char>) -> MatchResult {
    if line.len() > 0 && line.last() == '/' {
        eval_spec(rules, line.drop_last(), true)
    } else {
        eval_spec(rules, line, false)
    }
}

/// Whether one line of a path batch survives the filter: empty lines are
/// dropped outright, and so is every line whose path the rules ignore.
pub open spec fn line_kept(rules: Seq<RuleView>, line: Seq<char>) -> bool {
    line.len() > 0 && line_eval(rules, line) != MatchResult::Ignored
}

/// The lines that survive the filter, in their original order and form.
pub open spec fn filter_spec(rules: Seq<RuleView>, lines: Seq<Seq<char>>) -> Seq<Seq<char>>
    decreases lines.len(),
{
    if lines.len() == 0 {
        Seq::empty()
    } else {
        let init = filter_spec(rules, lines.drop_last());
        if line_kept(rules, lines.last()) {
            init.push(lines.last())
        } else {
            init
        }
    }
}

/// The filter never keeps more lines than it was given.
pub proof fn lemma_filter_spec_len(rules: Seq<RuleView>, lines: Seq<Seq<char>>)
    ensures
        filter_spec(rules, lines).len() <= lines.len(),
    decreases lines.len(),
{
    if lines.len() > 0 {
        lemma_filter_spec_len(rules, lines.drop_last());
    }
}

/// Filters a newline-separated batch of paths, keeping every line whose path
/// is not ignored.  A line ending in `/` is matched as a directory, but the
/// line itself, slash included, is what the result keeps.
pub fn filter(rs: &RuleSet, text: &str) -> (kept: Vec<String>)
    requires
        rs.wf(),
    ensures
        strs_view(kept@) == filter_spec(rs@, split_on(text@, '\n')),
{
    let lines = split_str(text, '\n');
    let ghost lsp = split_on(text@, '\n');
    let mut kept: Vec<String> = Vec::new();
    let mut k: usize = 0;
    proof {
        assert(lsp.take(0) =~= Seq::<Seq<char>>::empty());
        assert(strs_view(kept@) =~= Seq::<Seq<char>>::empty());
    }
    while k < lines.len()
        invariant
            k <= lines@.len(),
            lines@.len() == lsp.len(),
            forall|q: int| 0 <= q < lines@.len() ==> #[trigger] lines@[q]@ == lsp[q],
            rs.wf(),
            strs_view(kept@) == filter_spec(rs@, lsp.take(k as int)),
        decreases lines@.len() - k,
    {
        let ghost old_kept = kept@;
        proof {
            assert(lsp.take(k as int + 1).drop_last() =~= lsp.take(k as int));
            assert(lsp.take(k as int + 1).last() == lsp[k as int]);
        }
        let ln = lines[k].as_str().unicode_len();
        if ln > 0 {
            let last = lines[k].as_str().get_char(ln - 1);
            let keep: bool;
            if last == '/' {
                let stripped = lines[k].as_str().substring_char(0, ln - 1);
                proof {
                    assert(stripped@ =~= lsp[k as int].drop_last());
                }
                let e = evaluate(rs, stripped, true);
                keep = match e {
                    MatchResult::Ignored => false,
                    _ => true,
                };
            } else {
                let e = evaluate(rs, lines[k].as_str(), false);
                keep = match e {
                    MatchResult::Ignored => false,
                    _ => true,
                };
            }
            proof {
                assert(keep == line_kept(rs@, lsp[k as int]));
            }
            if keep {
                let line = lines[k].clone();
                kept.push(line);
                proof {
                    assert(strs_view(kept@) =~= strs_view(old_kept).push(lsp[k as int]));
                }
            }
        } else {
            proof {
                assert(!line_kept(rs@, lsp[k as int]));
            }
        }
        k = k + 1;
    }
    proof {
        assert(lsp.take(lsp.len() as int) =~= lsp);
    }
    kept
}

} // verus!
