//! The byte-level entry points of the engine: pattern and path text arrive
//! as raw UTF-8 bytes, results leave as small integers and, for batches, a
//! byte blob.  Each call reports failure through a call-specific negative
//! code, exactly as documented on the function.

use vstd::prelude::*;
use vstd::utf8::decode_utf8;
use vstd::utf8::valid_utf8;
use crate::matcher::MatchResult;
use crate::matcher::eval_spec;
use crate::matcher::evaluate;
use crate::matcher::filter;
use crate::matcher::filter_spec;
use crate::matcher::lemma_filter_spec_len;
use crate::pattern::RuleSet;
use crate::pattern::RuleView;
use crate::pattern::compile_lines;
use crate::pattern::rules_of_lines;
use crate::pattern::strs_view;
use crate::registry::Registry;
use crate::text::join_lines;
use crate::text::join_nl;
use crate::text::lemma_split_on_count;
use crate::text::split_bytes;
use crate::text::split_on;
use vstd::utf8::encode_utf8;

verus! {

/// Relies on std::str::from_utf8: it accepts exactly the valid UTF-8 byte
/// sequences, and the str it returns views their decoding.
#[verifier::external_body]
fn bytes_to_str(bytes: &[u8]) -> (r: Option<&str>)
    ensures
        r is Some <==> valid_utf8(bytes@),
        r matches Some(s) ==> s@ == decode_utf8(bytes@),
{
    std::str::from_utf8(bytes).ok()
}

/// Decoding valid UTF-8 never yields more characters than there were bytes.
pub proof fn lemma_decode_utf8_len(bytes: Seq<u8>)
    requires
        valid_utf8(bytes),
    ensures
        decode_utf8(bytes).len() <= bytes.len(),
    decreases bytes.len(),
{
    if bytes.len() != 0 {
        assert(vstd::utf8::length_of_first_scalar(bytes) >= 1);
        lemma_decode_utf8_len(vstd::utf8::pop_first_scalar(bytes));
    }
}

/// The decoded lines of a pattern byte block: lines that are not valid
/// UTF-8 are dropped, the rest decode in order.
pub open spec fn decoded_lines(bs: Seq<Seq<u8>>) -> Seq<Seq<char>>
    decreases bs.len(),
{
    if bs.len() == 0 {
        Seq::empty()
    } else {
        let init = decoded_lines(bs.drop_last());
        if valid_utf8(bs.last()) {
            init.push(decode_utf8(bs.last()))
        } else {
            init
        }
    }
}

/// The rules a pattern byte block compiles to: split at the newline byte,
/// undecodable lines dropped, the rest compiled in order.
pub open spec fn rules_of_pattern_bytes(bs: Seq<u8>) -> Seq<RuleView> {
    rules_of_lines(decoded_lines(split_on(bs, 10u8)))
}

/// Compiles newline-separated pattern bytes; lines that are not valid UTF-8
/// are dropped like any other line that compiles to nothing.
pub fn compile_bytes(patterns: &[u8]) -> (rs: RuleSet)
    ensures
        rs@ == rules_of_pattern_bytes(patterns@),
        rs.wf(),
{
    let parts = split_bytes(patterns, 10);
    let ghost bsp = split_on(patterns@, 10u8);
    let mut decoded: Vec<String> = Vec::new();
    let mut k: usize = 0;
    proof {
        assert(bsp.take(0) =~= Seq::<Seq<u8>>::empty());
        assert(strs_view(decoded@) =~= Seq::<Seq<char>>::empty());
    }
    while k < parts.len()
        invariant
            k <= parts@.len(),
            parts@.len() == bsp.len(),
            forall|q: int| 0 <= q < parts@.len() ==> #[trigger] parts@[q]@ == bsp[q],
            strs_view(decoded@) == decoded_lines(bsp.take(k as int)),
        decreases parts@.len() - k,
    {
        let ghost old_decoded = decoded@;
        proof {
            assert(bsp.take(k as int + 1).drop_last() =~= bsp.take(k as int));
            assert(bsp.take(k as int + 1).last() == bsp[k as int]);
        }
        match bytes_to_str(parts[k].as_slice()) {
            None => {},
            Some(s) => {
                let line = s.to_owned();
                decoded.push(line);
                proof {
                    assert(strs_view(decoded@) =~= strs_view(old_decoded).push(
                        decode_utf8(bsp[k as int]),
                    ));
                }
            },
        }
        k = k + 1;
    }
    proof {
        assert(bsp.take(bsp.len() as int) =~= bsp);
    }
    compile_lines(&decoded)
}

/// The boundary code of a match outcome.
pub open spec fn outcome_code(m: MatchResult) -> i32 {
    match m {
        MatchResult::Unmatched => 0,
        MatchResult::Ignored => 1,
        MatchResult::Whitelisted => 2,
    }
}

/// The small integer a match outcome crosses the boundary as: zero for
/// unmatched, one for ignored, two for whitelisted.
pub fn match_result_code(m: MatchResult) -> (c: i32)
    ensures
        c == outcome_code(m),
{
    match m {
        MatchResult::Unmatched => 0,
        MatchResult::Ignored => 1,
        MatchResult::Whitelisted => 2,
    }
}

/// Creates a matcher from newline-separated pattern bytes and stores it
/// under a fresh handle.  The handle is positive; only an exhausted handle
/// space yields the negative code instead.
pub fn create_matcher(reg: &mut Registry, patterns: &[u8]) -> (h: i32)
    requires
        old(reg).wf(),
    ensures
        final(reg).wf(),
        h > 0 ==> {
            &&& h == old(reg).next_handle
            &&& !old(reg).table@.dom().contains(h)
            &&& final(reg).table@.dom() == old(reg).table@.dom().insert(h)
            &&& final(reg).table@[h]@ == rules_of_pattern_bytes(patterns@)
            &&& final(reg).table@[h].wf()
            &&& forall|k: i32|
                k != h && old(reg).table@.dom().contains(k) ==> final(reg).table@[k] == old(
                    reg,
                ).table@[k]
            &&& final(reg).next_handle == old(reg).next_handle + 1
        },
        h <= 0 ==> h == -3 && *final(reg) == *old(reg),
        h > 0 <==> old(reg).next_handle < i32::MAX,
{
    let rs = compile_bytes(patterns);
    let h = reg.store(rs);
    proof {
        if h > 0 {
            assert(reg.table@.dom() =~= old(reg).table@.dom().insert(h));
        }
    }
    h
}

/// Destroys the matcher of `handle`; unknown and non-positive handles are
/// ignored without error.
pub fn destroy_matcher(reg: &mut Registry, handle: i32)
    requires
        old(reg).wf(),
    ensures
        final(reg).wf(),
        final(reg).next_handle == old(reg).next_handle,
        handle >= 1 ==> final(reg).table@ == old(reg).table@.remove(handle),
        handle < 1 ==> final(reg).table@ == old(reg).table@,
{
    reg.destroy(handle);
}

/// What `is_match` reports: a negative code for a non-positive handle, a
/// path that is not valid UTF-8, or an unknown handle, and otherwise the
/// outcome code of the evaluation.
pub open spec fn is_match_spec(reg: Registry, handle: i32, path: Seq<u8>, is_dir: i32) -> i32 {
    if handle <= 0 {
        -1i32
    } else if !valid_utf8(path) {
        -3i32
    } else if !reg.table@.dom().contains(handle) {
        -4i32
    } else {
        outcome_code(eval_spec(reg.table@[handle]@, decode_utf8(path), is_dir != 0))
    }
}

/// Holds one path, given as UTF-8 bytes, against the matcher of `handle`.
/// `is_dir` is nonzero when the path names a directory.
///
/// Returns the outcome code (0 unmatched, 1 ignored, 2 whitelisted), or:
///  -1 = handle not positive
///  -3 = path not valid UTF-8
///  -4 = handle not found
pub fn is_match(reg: &Registry, handle: i32, path: &[u8], is_dir: i32) -> (code: i32)
    requires
        reg.wf(),
    ensures
        code == is_match_spec(*reg, handle, path@, is_dir),
{
    if handle <= 0 {
        return -1;
    }
    match bytes_to_str(path) {
        None => -3,
        Some(s) => match reg.lookup(handle) {
            None => -4,
            Some(rs) => match_result_code(evaluate(rs, s, is_dir != 0)),
        },
    }
}

/// The lines that survive filtering the batch of `handle`.
pub open spec fn kept_of(reg: Registry, handle: i32, paths: Seq<u8>) -> Seq<Seq<char>> {
    filter_spec(reg.table@[handle]@, split_on(decode_utf8(paths), '\n'))
}

/// What `batch_filter` reports: a negative code for a non-positive handle,
/// paths that are not valid UTF-8, or an unknown handle, and otherwise how
/// many lines survived.
pub open spec fn batch_filter_code(reg: Registry, handle: i32, paths: Seq<u8>) -> i32 {
    if handle <= 0 {
        -1i32
    } else if !valid_utf8(paths) {
        -4i32
    } else if !reg.table@.dom().contains(handle) {
        -5i32
    } else {
        kept_of(reg, handle, paths).len() as i32
    }
}

/// Filters a newline-separated batch of paths against the matcher of
/// `handle`: lines whose path the rules ignore are dropped, the rest come
/// back newline-joined, in order.
///
/// Returns the count of surviving lines and the joined bytes; with a count
/// of zero the blob is empty, and the blob is always empty on error:
///  -1 = handle not positive
///  -4 = paths not valid UTF-8
///  -5 = handle not found
pub fn batch_filter(reg: &Registry, handle: i32, paths: &[u8]) -> (r: (i32, Vec<u8>))
    requires
        reg.wf(),
        paths@.len() < i32::MAX,
    ensures
        r.0 == batch_filter_code(*reg, handle, paths@),
        r.0 >= 0 ==> r.1@ == encode_utf8(join_nl(kept_of(*reg, handle, paths@))),
        r.0 == 0 ==> r.1@.len() == 0,
        r.0 < 0 ==> r.1@.len() == 0,
{
    if handle <= 0 {
        return (-1, Vec::new());
    }
    match bytes_to_str(paths) {
        None => (-4, Vec::new()),
        Some(text) => match reg.lookup(handle) {
            None => (-5, Vec::new()),
            Some(rs) => {
                let kept = filter(rs, text);
                proof {
                    lemma_filter_spec_len(rs@, split_on(text@, '\n'));
                    lemma_split_on_count(text@, '\n');
                    lemma_decode_utf8_len(paths@);
                }
                proof {
                    assert(kept@.map_values(|p: String| p@) =~= strs_view(kept@));
                    assert(kept@.len() <= i32::MAX);
                }
                let count = kept.len() as i32;
                if count == 0 {
                    return (0, Vec::new());
                }
                let joined = join_lines(&kept);
                let blob = joined.as_str().as_bytes_vec();
                (count, blob)
            },
        },
    }
}

} // verus!
