//! Text utilities: splitting a sequence at a separator, extracting the
//! characters of a string, and joining lines back together.

use vstd::prelude::*;
use vstd::string::StrSliceExecFns;

verus! {

/// Splits `s` at every occurrence of `sep`.  The result always has at least
/// one element; separators are not kept, and an empty input yields one empty
/// piece, as `str::split` does.
pub open spec fn split_on<T>(s: Seq<T>, sep: T) -> Seq<Seq<T>>
    decreases s.len(),
{
    if s.len() == 0 {
        seq![Seq::<T>::empty()]
    } else if s[0] == sep {
        seq![Seq::<T>::empty()] + split_on(s.drop_first(), sep)
    } else {
        let rest = split_on(s.drop_first(), sep);
        seq![seq![s[0]] + rest[0]] + rest.drop_first()
    }
}

pub proof fn lemma_split_on_len<T>(s: Seq<T>, sep: T)
    ensures
        split_on(s, sep).len() >= 1,
    decreases s.len(),
{
    if s.len() > 0 && s[0] != sep {
        lemma_split_on_len(s.drop_first(), sep);
    }
}

/// The first piece of a split runs to the first separator; what follows that
/// separator splits into the remaining pieces.
pub proof fn lemma_split_on_step<T>(s: Seq<T>, sep: T, k: int)
    requires
        0 <= k <= s.len(),
        forall|j: int| 0 <= j < k ==> s[j] != sep,
        k < s.len() ==> s[k] == sep,
    ensures
        k < s.len() ==> split_on(s, sep) =~= seq![s.take(k)] + split_on(
            s.skip(k + 1),
            sep,
        ),
        k == s.len() ==> split_on(s, sep) =~= seq![s],
    decreases s.len(),
{
    lemma_split_on_len(s, sep);
    if k == 0 {
        if k < s.len() {
            assert(s.drop_first() =~= s.skip(1));
            assert(s.take(0) =~= Seq::<T>::empty());
        } else {
            assert(s =~= Seq::<T>::empty());
        }
    } else {
        let t = s.drop_first();
        lemma_split_on_len(t, sep);
        lemma_split_on_step(t, sep, k - 1);
        if k < s.len() {
            assert(t.skip(k - 1 + 1) =~= s.skip(k + 1));
            assert(seq![s[0]] + t.take(k - 1) =~= s.take(k));
            lemma_split_on_len(s.skip(k + 1), sep);
        } else {
            assert(seq![s[0]] + t =~= s);
        }
    }
}

/// A split yields at most one more piece than there are elements.
pub proof fn lemma_split_on_count<T>(s: Seq<T>, sep: T)
    ensures
        split_on(s, sep).len() <= s.len() + 1,
    decreases s.len(),
{
    if s.len() > 0 {
        lemma_split_on_count(s.drop_first(), sep);
        if s[0] != sep {
            lemma_split_on_len(s.drop_first(), sep);
        }
    }
}

/// The characters of `s`, one by one, as a vector.
pub fn chars_of(s: &str) -> (r: Vec<char>)
    ensures
        r@ == s@,
{
    let n = s.unicode_len();
    let mut r: Vec<char> = Vec::new();
    let mut i: usize = 0;
    while i < n
        invariant
            i <= n,
            n == s@.len(),
            r@ =~= s@.take(i as int),
        decreases n - i,
    {
        r.push(s.get_char(i));
        i = i + 1;
        assert(r@ =~= s@.take(i as int));
    }
    assert(s@.take(n as int) =~= s@);
    r
}

/// Splits a byte slice at every occurrence of `sep`.
pub fn split_bytes(s: &[u8], sep: u8) -> (r: Vec<Vec<u8>>)
    ensures
        r@.len() == split_on(s@, sep).len(),
        forall|j: int| 0 <= j < r@.len() ==> r@[j]@ == split_on(s@, sep)[j],
{
    let mut parts: Vec<Vec<u8>> = Vec::new();
    parts.push(Vec::new());
    let mut i: usize = s.len();
    proof {
        assert(s@.skip(i as int) =~= Seq::<u8>::empty());
    }
    while i > 0
        invariant
            i <= s@.len(),
            parts@.len() == split_on(s@.skip(i as int), sep).len(),
            parts@.len() >= 1,
            forall|j: int|
                0 <= j < parts@.len() ==> parts@[j]@ == split_on(s@.skip(i as int), sep)[j],
        decreases i,
    {
        i = i - 1;
        let ghost prev = s@.skip(i as int + 1);
        let ghost cur = s@.skip(i as int);
        proof {
            assert(cur[0] == s@[i as int]);
            assert(cur.drop_first() =~= prev);
            lemma_split_on_len(prev, sep);
        }
        let c = s[i];
        if c == sep {
            parts.insert(0, Vec::new());
            proof {
                assert(parts@.len() == split_on(cur, sep).len());
                assert forall|j: int| 0 <= j < parts@.len() implies parts@[j]@ == split_on(
                    cur,
                    sep,
                )[j] by {
                    if j == 0 {
                        assert(parts@[0]@ =~= Seq::<u8>::empty());
                    }
                }
            }
        } else {
            let mut first = parts.remove(0);
            first.insert(0, c);
            parts.insert(0, first);
            proof {
                assert(parts@.len() == split_on(cur, sep).len());
                assert forall|j: int| 0 <= j < parts@.len() implies parts@[j]@ == split_on(
                    cur,
                    sep,
                )[j] by {
                    let rest = split_on(prev, sep);
                    if j == 0 {
                        assert(parts@[0]@ =~= seq![s@[i as int]] + rest[0]);
                    }
                }
            }
        }
    }
    proof {
        assert(s@.skip(0) =~= s@);
    }
    parts
}

/// Splits a string at every occurrence of `sep`, returning the pieces as
/// owned strings.
pub fn split_str(s: &str, sep: char) -> (r: Vec<String>)
    ensures
        r@.len() == split_on(s@, sep).len(),
        forall|j: int| 0 <= j < r@.len() ==> r@[j]@ == split_on(s@, sep)[j],
{
    let n = s.unicode_len();
    let mut r: Vec<String> = Vec::new();
    let mut pos: usize = 0;
    proof {
        assert(s@.skip(0) =~= s@);
        assert(r@.map_values(|p: String| p@) =~= Seq::<Seq<char>>::empty());
        assert(split_on(s@, sep) =~= r@.map_values(|p: String| p@) + split_on(s@, sep));
    }
    loop
        invariant_except_break
            pos <= n,
            n == s@.len(),
            split_on(s@, sep) =~= r@.map_values(|p: String| p@) + split_on(
                s@.skip(pos as int),
                sep,
            ),
        ensures
            n == s@.len(),
            split_on(s@, sep) =~= r@.map_values(|p: String| p@),
        decreases n - pos,
    {
        // find the next separator at or after pos
        let mut k: usize = pos;
        while k < n && s.get_char(k) != sep
            invariant
                pos <= k <= n,
                n == s@.len(),
                forall|j: int| pos <= j < k ==> s@[j] != sep,
            decreases n - k,
        {
            k = k + 1;
        }
        let piece = s.substring_char(pos, k).to_owned();
        r.push(piece);
        proof {
            let tail = s@.skip(pos as int);
            lemma_split_on_step(tail, sep, k - pos);
            assert(tail.take(k - pos) =~= s@.subrange(pos as int, k as int));
            if k < n {
                assert(tail[k - pos] == s@[k as int]);
                assert(tail.skip(k - pos + 1) =~= s@.skip(k as int + 1));
            }
            assert(r@.map_values(|p: String| p@) =~= r@.drop_last().map_values(|p: String| p@)
                + seq![s@.subrange(pos as int, k as int)]);
        }
        if k == n {
            break;
        }
        pos = k + 1;
    }
    r
}

/// Joins the pieces with a newline between each adjacent pair.
pub open spec fn join_nl(ls: Seq<Seq<char>>) -> Seq<char>
    decreases ls.len(),
{
    if ls.len() == 0 {
        Seq::empty()
    } else if ls.len() == 1 {
        ls[0]
    } else {
        join_nl(ls.drop_last()) + seq!['\n'] + ls.last()
    }
}

/// Joins owned lines with newline separators, as `[_]::join` does.
pub fn join_lines(ls: &Vec<String>) -> (r: String)
    ensures
        r@ == join_nl(ls@.map_values(|p: String| p@)),
{
    let mut r = String::new();
    let mut i: usize = 0;
    while i < ls.len()
        invariant
            i <= ls@.len(),
            r@ =~= join_nl(ls@.take(i as int).map_values(|p: String| p@)),
        decreases ls@.len() - i,
    {
        if i > 0 {
            r.append("\n");
            proof {
                reveal_strlit("\n");
            }
        }
        r.append(ls[i].as_str());
        proof {
            let full = ls@.take(i as int + 1).map_values(|p: String| p@);
            assert(full.drop_last() =~= ls@.take(i as int).map_values(|p: String| p@));
            assert(full.last() == ls@[i as int]@);
        }
        i = i + 1;
    }
    proof {
        assert(ls@.take(ls@.len() as int) =~= ls@);
    }
    r
}

} // verus!
