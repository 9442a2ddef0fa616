//! Laws of the engine, stated and proved once over the specification
//! functions that the executable contracts speak of.

use vstd::prelude::*;
use vstd::utf8::valid_utf8;
use crate::boundary::batch_filter_code;
use crate::boundary::is_match_spec;
use crate::matcher::MatchResult;
use crate::matcher::eval_spec;
use crate::matcher::last_match;
use crate::matcher::rule_matches;
use crate::matcher::filter_spec;
use crate::matcher::line_eval;
use crate::matcher::line_kept;
use crate::pattern::RuleSet;
use crate::pattern::RuleView;
use crate::registry::Registry;

verus! {

/// Evaluation is deterministic: the outcome of a path against a rule set is
/// a function of the rule set, the path and the directory flag alone, so
/// any two evaluations of the same question agree.
pub proof fn lemma_evaluate_deterministic(
    rules: Seq<RuleView>,
    path: Seq<char>,
    is_dir: bool,
    r1: MatchResult,
    r2: MatchResult,
)
    requires
        r1 == eval_spec(rules, path, is_dir),
        r2 == eval_spec(rules, path, is_dir),
    ensures
        r1 == r2,
{
}

/// Within one candidate the last matching rule wins: when rule `j` matches
/// and no later rule does, rule `j` decides.
pub proof fn lemma_last_match_wins(
    rules: Seq<RuleView>,
    segs: Seq<Seq<char>>,
    is_dir: bool,
    j: int,
)
    requires
        0 <= j < rules.len(),
        rule_matches(rules[j], segs, is_dir),
        forall|k: int| j < k < rules.len() ==> !rule_matches(#[trigger] rules[k], segs, is_dir),
    ensures
        last_match(rules, segs, is_dir) == Some(j),
    decreases rules.len(),
{
    if j < rules.len() - 1 {
        lemma_last_match_wins(rules.drop_last(), segs, is_dir, j);
    }
}

/// A directory-only rule never matches a candidate known to be a plain
/// file.
pub proof fn lemma_dir_only_skips_files(r: RuleView, segs: Seq<Seq<char>>)
    requires
        r.dir_only,
    ensures
        !rule_matches(r, segs, false),
{
}

/// The batch filter is the order-preserving selection of the lines that are
/// not dropped: it equals the standard sequence filter under the keeping
/// predicate.
pub proof fn lemma_filter_is_selection(rules: Seq<RuleView>, lines: Seq<Seq<char>>)
    ensures
        filter_spec(rules, lines) =~= lines.filter(|l: Seq<char>| line_kept(rules, l)),
    decreases lines.len(),
{
    reveal(Seq::filter);
    if lines.len() > 0 {
        lemma_filter_is_selection(rules, lines.drop_last());
    }
}

/// The batch filter drops exactly the ignored subset: over nonempty lines,
/// what it keeps is what does not evaluate to ignored, and the kept and
/// dropped lines together account for every input line, in order.
pub proof fn lemma_filter_partitions(rules: Seq<RuleView>, lines: Seq<Seq<char>>)
    requires
        forall|i: int| 0 <= i < lines.len() ==> (#[trigger] lines[i]).len() > 0,
    ensures
        filter_spec(rules, lines) =~= lines.filter(
            |l: Seq<char>| line_eval(rules, l) != MatchResult::Ignored,
        ),
        filter_spec(rules, lines).len() + lines.filter(
            |l: Seq<char>| line_eval(rules, l) == MatchResult::Ignored,
        ).len() == lines.len(),
    decreases lines.len(),
{
    reveal(Seq::filter);
    if lines.len() > 0 {
        assert(forall|i: int|
            0 <= i < lines.drop_last().len() ==> (#[trigger] lines.drop_last()[i]).len() > 0);
        lemma_filter_partitions(rules, lines.drop_last());
        assert(lines.last().len() > 0);
    }
}

/// A destroyed handle is not found: once an entry is removed, a match query
/// on that handle reports the not-found code, and a batch query likewise.
pub proof fn lemma_destroyed_handle_not_found(
    before: Registry,
    after: Registry,
    h: i32,
    path: Seq<u8>,
    is_dir: i32,
    paths: Seq<u8>,
)
    requires
        h >= 1,
        after.table@ == before.table@.remove(h),
    ensures
        !after.table@.dom().contains(h),
        valid_utf8(path) ==> is_match_spec(after, h, path, is_dir) == -4i32,
        valid_utf8(paths) ==> batch_filter_code(after, h, paths) == -5i32,
{
}

/// Destroying is idempotent, and destroying a handle that was never issued
/// changes nothing: removing an absent entry leaves the table as it stands.
pub proof fn lemma_destroy_absent_no_op(table: Map<i32, RuleSet>, h: i32)
    ensures
        table.remove(h).remove(h) == table.remove(h),
        !table.dom().contains(h) ==> table.remove(h) == table,
{
    assert(table.remove(h).remove(h) =~= table.remove(h));
    if !table.dom().contains(h) {
        assert(table.remove(h) =~= table);
    }
}

} // verus!
