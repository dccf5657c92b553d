//! Character-sequence searching and splitting: the model (leftmost pattern
//! occurrence, delimiter splitting) and the executable routines that realize
//! it on `&str` values.

use vstd::prelude::*;
use vstd::string::StrSliceExecFns;

verus! {

/// True when `pat` occurs in `s` starting at position `i`.
pub open spec fn match_at(s: Seq<char>, pat: Seq<char>, i: int) -> bool {
    &&& 0 <= i
    &&& i + pat.len() <= s.len()
    &&& s.subrange(i, i + pat.len() as int) == pat
}

/// Position of the leftmost occurrence of `pat` in `s`, or -1 when there is
/// none. An empty pattern occurs at position 0.
pub open spec fn find_pat(s: Seq<char>, pat: Seq<char>) -> int
    decreases s.len(),
{
    if pat.len() == 0 {
        0
    } else if s.len() < pat.len() {
        -1
    } else if s.subrange(0, pat.len() as int) == pat {
        0
    } else {
        let r = find_pat(s.subrange(1, s.len() as int), pat);
        if r < 0 {
            -1
        } else {
            r + 1
        }
    }
}

/// Occurrences shift by one position when the first character is dropped.
proof fn lemma_match_shift(s: Seq<char>, pat: Seq<char>, i: int)
    requires
        s.len() >= 1,
        0 <= i,
    ensures
        match_at(s, pat, i + 1) <==> match_at(s.subrange(1, s.len() as int), pat, i),
{
    let t = s.subrange(1, s.len() as int);
    if i + 1 + pat.len() <= s.len() {
        assert(s.subrange(i + 1, i + 1 + pat.len() as int) =~= t.subrange(
            i,
            i + pat.len() as int,
        ));
    }
}

/// `find_pat` yields exactly the leftmost occurrence: -1 means no occurrence
/// at all, and a nonnegative result is an occurrence preceded by none.
pub proof fn lemma_find_pat(s: Seq<char>, pat: Seq<char>)
    ensures
        find_pat(s, pat) == -1 ==> forall|i: int| !match_at(s, pat, i),
        find_pat(s, pat) >= 0 ==> match_at(s, pat, find_pat(s, pat)) && (forall|i: int|
            0 <= i < find_pat(s, pat) ==> !match_at(s, pat, i)),
    decreases s.len(),
{
    if pat.len() == 0 {
        assert(s.subrange(0, 0) =~= pat);
        assert(match_at(s, pat, 0));
    } else if s.len() < pat.len() {
        assert(forall|i: int| !match_at(s, pat, i));
    } else if s.subrange(0, pat.len() as int) == pat {
        assert(match_at(s, pat, 0));
    } else {
        let t = s.subrange(1, s.len() as int);
        lemma_find_pat(t, pat);
        assert forall|i: int| 0 <= i implies (match_at(s, pat, i + 1) <==> match_at(
            t,
            pat,
            i,
        )) by {
            lemma_match_shift(s, pat, i);
        }
        let r = find_pat(t, pat);
        if r < 0 {
            assert forall|i: int| !match_at(s, pat, i) by {
                if i > 0 {
                    lemma_match_shift(s, pat, i - 1);
                }
            }
        } else {
            assert(match_at(s, pat, r + 1));
            assert forall|i: int| 0 <= i < r + 1 implies !match_at(s, pat, i) by {
                if i > 0 {
                    lemma_match_shift(s, pat, i - 1);
                }
            }
        }
    }
}

/// A nonnegative `find_pat` result leaves room for the whole pattern.
pub proof fn lemma_find_pat_range(s: Seq<char>, pat: Seq<char>)
    ensures
        find_pat(s, pat) == -1 || (0 <= find_pat(s, pat) && find_pat(s, pat) + pat.len()
            <= s.len()),
{
    lemma_find_pat(s, pat);
}

/// Occurrences within a suffix of `s` are occurrences of `s` shifted by the
/// suffix's start.
pub proof fn lemma_match_at_suffix(s: Seq<char>, pat: Seq<char>, pos: int, j: int)
    requires
        0 <= pos <= s.len(),
        pos <= j,
    ensures
        match_at(s, pat, j) <==> match_at(s.subrange(pos, s.len() as int), pat, j - pos),
{
    let t = s.subrange(pos, s.len() as int);
    if j + pat.len() <= s.len() {
        assert(s.subrange(j, j + pat.len() as int) =~= t.subrange(
            j - pos,
            j - pos + pat.len() as int,
        ));
    }
}

/// When `d` is the leftmost occurrence at or after `pos`, the suffix starting
/// at `pos` has its leftmost occurrence at `d - pos`.
pub proof fn lemma_first_match_in_suffix(s: Seq<char>, pat: Seq<char>, pos: int, d: int)
    requires
        0 <= pos <= s.len(),
        pos <= d,
        match_at(s, pat, d),
        forall|j: int| pos <= j < d ==> !match_at(s, pat, j),
    ensures
        find_pat(s.subrange(pos, s.len() as int), pat) == d - pos,
{
    let t = s.subrange(pos, s.len() as int);
    lemma_find_pat(t, pat);
    lemma_match_at_suffix(s, pat, pos, d);
    assert(match_at(t, pat, d - pos));
    let r = find_pat(t, pat);
    if r < d - pos {
        lemma_match_at_suffix(s, pat, pos, r + pos);
        assert(false);
    }
}

/// When no occurrence lies at or after `pos`, the suffix starting at `pos`
/// holds no occurrence at all.
pub proof fn lemma_no_match_in_suffix(s: Seq<char>, pat: Seq<char>, pos: int)
    requires
        0 <= pos <= s.len(),
        pat.len() >= 1,
        forall|j: int| pos <= j ==> !match_at(s, pat, j),
    ensures
        find_pat(s.subrange(pos, s.len() as int), pat) == -1,
{
    let t = s.subrange(pos, s.len() as int);
    lemma_find_pat(t, pat);
    let r = find_pat(t, pat);
    if r >= 0 {
        lemma_match_at_suffix(s, pat, pos, r + pos);
        assert(false);
    }
}

/// Splits `s` on every occurrence of `pat`, keeping empty pieces; splitting
/// on an empty pattern yields the whole of `s` as the single piece.
pub open spec fn split_on(s: Seq<char>, pat: Seq<char>) -> Seq<Seq<char>>
    decreases s.len(),
    via split_on_decreases
{
    let i = find_pat(s, pat);
    if pat.len() == 0 || i < 0 {
        seq![s]
    } else {
        seq![s.subrange(0, i)] + split_on(s.subrange(i + pat.len() as int, s.len() as int), pat)
    }
}

#[via_fn]
proof fn split_on_decreases(s: Seq<char>, pat: Seq<char>) {
    lemma_find_pat_range(s, pat);
}

/// Joins pieces back together with `pat` between neighbours.
pub open spec fn join_with(parts: Seq<Seq<char>>, pat: Seq<char>) -> Seq<char>
    decreases parts.len(),
{
    if parts.len() == 0 {
        Seq::empty()
    } else if parts.len() == 1 {
        parts[0]
    } else {
        parts[0] + pat + join_with(parts.subrange(1, parts.len() as int), pat)
    }
}

/// Splitting yields at least one piece.
pub proof fn lemma_split_on_len(s: Seq<char>, pat: Seq<char>)
    ensures
        split_on(s, pat).len() >= 1,
{
}

/// Splitting loses nothing: joining the pieces with the delimiter restores
/// the original sequence. In particular a trailing empty piece is kept.
pub proof fn lemma_split_on_join(s: Seq<char>, pat: Seq<char>)
    requires
        pat.len() >= 1,
    ensures
        join_with(split_on(s, pat), pat) == s,
    decreases s.len(),
{
    let i = find_pat(s, pat);
    lemma_find_pat(s, pat);
    if i < 0 {
    } else {
        let rest = s.subrange(i + pat.len() as int, s.len() as int);
        lemma_split_on_join(rest, pat);
        lemma_split_on_len(rest, pat);
        let parts = split_on(s, pat);
        assert(parts.subrange(1, parts.len() as int) =~= split_on(rest, pat));
        assert(s.subrange(i, i + pat.len() as int) == pat);
        assert(join_with(parts, pat) =~= s.subrange(0, i) + pat + rest);
        assert(s.subrange(0, i) + pat + rest =~= s);
    }
}

/// Finds the leftmost occurrence of `pat` in `s` at or after position `from`,
/// measured in characters.
pub fn find_from(s: &str, pat: &Vec<char>, from: usize) -> (r: Option<usize>)
    requires
        from <= s@.len(),
        pat@.len() >= 1,
    ensures
        match r {
            Some(i) => {
                &&& from <= i
                &&& match_at(s@, pat@, i as int)
                &&& forall|j: int| from <= j < i ==> !match_at(s@, pat@, j)
            },
            None => forall|j: int| from <= j ==> !match_at(s@, pat@, j),
        },
{
    let n = s.unicode_len();
    let m = pat.len();
    if n < m {
        return None;
    }
    let mut i = from;
    while i <= n - m
        invariant
            from <= i,
            m >= 1,
            m <= n,
            n == s@.len(),
            m == pat@.len(),
            forall|j: int| from <= j < i ==> !match_at(s@, pat@, j),
        decreases n - m - i + 1,
    {
        let mut k: usize = 0;
        let mut matched = true;
        while matched && k < m
            invariant
                i + m <= n,
                k <= m,
                n == s@.len(),
                m == pat@.len(),
                matched ==> s@.subrange(i as int, i + k as int) == pat@.subrange(0, k as int),
                !matched ==> !match_at(s@, pat@, i as int),
            decreases m - k + (if matched {
                1int
            } else {
                0int
            }),
        {
            let c = s.get_char(i + k);
            let p = pat[k];
            if c == p {
                proof {
                    assert(s@.subrange(i as int, i + (k + 1) as int) =~= s@.subrange(
                        i as int,
                        i + k as int,
                    ).push(s@[i + k as int]));
                    assert(pat@.subrange(0, (k + 1) as int) =~= pat@.subrange(0, k as int).push(
                        pat@[k as int],
                    ));
                }
                k += 1;
            } else {
                proof {
                    if match_at(s@, pat@, i as int) {
                        assert(s@.subrange(i as int, i + m as int)[k as int] == pat@[k as int]);
                    }
                }
                matched = false;
            }
        }
        if matched {
            proof {
                assert(pat@.subrange(0, m as int) =~= pat@);
            }
            return Some(i);
        }
        i += 1;
    }
    proof {
        assert forall|j: int| from <= j implies !match_at(s@, pat@, j) by {
            if j <= n - m {
            }
        }
    }
    None
}

/// Relies on `String::push`: appends exactly the given character at the end.
#[verifier::external_body]
pub fn push_char(out: &mut String, c: char)
    ensures
        final(out)@ == old(out)@.push(c),
{
    out.push(c);
}

/// Appends the characters of `s` between positions `from` and `to`.
pub fn push_range(out: &mut String, s: &str, from: usize, to: usize)
    requires
        from <= to <= s@.len(),
    ensures
        final(out)@ == old(out)@ + s@.subrange(from as int, to as int),
{
    let mut i = from;
    while i < to
        invariant
            from <= i <= to <= s@.len(),
            out@ == old(out)@ + s@.subrange(from as int, i as int),
        decreases to - i,
    {
        let c = s.get_char(i);
        push_char(out, c);
        proof {
            assert(s@.subrange(from as int, i + 1int) =~= s@.subrange(from as int, i as int).push(
                s@[i as int],
            ));
        }
        i += 1;
    }
    proof {
        assert(out@ =~= old(out)@ + s@.subrange(from as int, to as int));
    }
}

} // verus!
