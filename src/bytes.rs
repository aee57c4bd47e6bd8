//! Byte-sequence helpers: occurrence search and copying.

use vstd::prelude::*;

verus! {

/// `pat` occurs in `text` at byte offset `i`.
pub open spec fn occurs_at(text: Seq<u8>, pat: Seq<u8>, i: int) -> bool {
    0 <= i && i + pat.len() <= text.len() && text.subrange(i, i + pat.len()) == pat
}

/// Offsets of the occurrences of `pat` in `text` at or after `from`, found
/// left to right without overlap (each search resumes after the previous match).
pub open spec fn match_starts(text: Seq<u8>, pat: Seq<u8>, from: int) -> Seq<int>
    decreases text.len() - from,
{
    if pat.len() == 0 || from < 0 || from + pat.len() > text.len() {
        Seq::empty()
    } else if occurs_at(text, pat, from) {
        seq![from] + match_starts(text, pat, from + pat.len())
    } else {
        match_starts(text, pat, from + 1)
    }
}

/// `pat` occurs somewhere in `text`.
pub open spec fn contains(text: Seq<u8>, pat: Seq<u8>) -> bool {
    exists|i: int| occurs_at(text, pat, i)
}

/// The first offset at which `pat` occurs in `text`.
pub open spec fn first_occurrence(text: Seq<u8>, pat: Seq<u8>) -> int
    recommends
        contains(text, pat),
{
    choose|i: int| occurs_at(text, pat, i) && forall|j: int| 0 <= j < i ==> !occurs_at(text, pat, j)
}

/// Every offset of `match_starts` is an occurrence at or after `from`, and
/// they increase by at least the length of `pat`.
pub proof fn lemma_match_starts_occur(text: Seq<u8>, pat: Seq<u8>, from: int)
    ensures
        forall|k: int| 0 <= k < match_starts(text, pat, from).len() ==>
            occurs_at(text, pat, #[trigger] match_starts(text, pat, from)[k])
            && match_starts(text, pat, from)[k] >= from && pat.len() > 0,
    decreases text.len() - from,
{
    if pat.len() == 0 || from < 0 || from + pat.len() > text.len() {
        assert(match_starts(text, pat, from).len() == 0);
    } else if occurs_at(text, pat, from) {
        lemma_match_starts_occur(text, pat, from + pat.len());
        let rest = match_starts(text, pat, from + pat.len());
        assert(match_starts(text, pat, from) == seq![from] + rest);
        assert forall|k: int| 0 <= k < match_starts(text, pat, from).len() implies
            occurs_at(text, pat, #[trigger] match_starts(text, pat, from)[k])
            && match_starts(text, pat, from)[k] >= from && pat.len() > 0 by {
            if k > 0 {
                assert(match_starts(text, pat, from)[k] == rest[k - 1]);
            }
        }
    } else {
        lemma_match_starts_occur(text, pat, from + 1);
        assert(match_starts(text, pat, from) == match_starts(text, pat, from + 1));
    }
}

/// `text` from `i` on with every left-to-right, non-overlapping occurrence
/// of `pat` replaced by `rep`.
pub open spec fn replaced_from(text: Seq<u8>, pat: Seq<u8>, rep: Seq<u8>, i: int) -> Seq<u8>
    decreases text.len() - i,
{
    if i < 0 || i >= text.len() {
        Seq::empty()
    } else if pat.len() > 0 && occurs_at(text, pat, i) {
        rep + replaced_from(text, pat, rep, i + pat.len())
    } else {
        seq![text[i]] + replaced_from(text, pat, rep, i + 1)
    }
}

/// `text` with every occurrence of `pat` replaced by `rep`, as a left-to-right
/// scan finds them.
pub open spec fn replaced_all(text: Seq<u8>, pat: Seq<u8>, rep: Seq<u8>) -> Seq<u8> {
    replaced_from(text, pat, rep, 0)
}

/// Index of the last `b` in `s`, or -1.
pub open spec fn last_index<T>(s: Seq<T>, b: T) -> int
    decreases s.len(),
{
    if s.len() == 0 {
        -1
    } else if s.last() == b {
        s.len() - 1
    } else {
        last_index(s.drop_last(), b)
    }
}

pub proof fn lemma_last_index_bounds<T>(s: Seq<T>, b: T)
    ensures
        -1 <= last_index(s, b) < s.len(),
        last_index(s, b) >= 0 ==> s[last_index(s, b)] == b,
        forall|j: int| last_index(s, b) < j < s.len() ==> s[j] != b,
    decreases s.len(),
{
    if s.len() > 0 && s.last() != b {
        lemma_last_index_bounds(s.drop_last(), b);
        assert forall|j: int| last_index(s, b) < j < s.len() implies s[j] != b by {
            if j < s.len() - 1 {
                assert(s.drop_last()[j] == s[j]);
            }
        }
    }
}

/// Index of the first `b` in `s`, or -1.
pub open spec fn first_index<T>(s: Seq<T>, b: T) -> int
    decreases s.len(),
{
    if s.len() == 0 {
        -1
    } else if s[0] == b {
        0
    } else if first_index(s.drop_first(), b) < 0 {
        -1
    } else {
        first_index(s.drop_first(), b) + 1
    }
}

pub proof fn lemma_first_index_bounds<T>(s: Seq<T>, b: T)
    ensures
        -1 <= first_index(s, b) < s.len(),
        first_index(s, b) >= 0 ==> s[first_index(s, b)] == b,
    decreases s.len(),
{
    if s.len() > 0 && s[0] != b {
        lemma_first_index_bounds(s.drop_first(), b);
    }
}

/// Does `pat` occur in `text` at offset `i`?
pub fn matches_at(text: &[u8], pat: &[u8], i: usize) -> (r: bool)
    ensures
        r == occurs_at(text@, pat@, i as int),
{
    if i > text.len() || pat.len() > text.len() - i {
        return false;
    }
    let mut k: usize = 0;
    while k < pat.len()
        invariant
            i + pat@.len() <= text@.len(),
            i + pat.len() <= text.len(),
            k <= pat@.len(),
            forall|j: int| 0 <= j < k ==> text@[i + j] == pat@[j],
        decreases pat@.len() - k,
    {
        if text[i + k] != pat[k] {
            assert(text@.subrange(i as int, i + pat@.len())[k as int] != pat@[k as int]);
            return false;
        }
        k = k + 1;
    }
    assert(text@.subrange(i as int, i + pat@.len()) =~= pat@);
    true
}

/// Offsets of the left-to-right, non-overlapping occurrences of `pat` in `text`.
pub fn find_all(text: &[u8], pat: &[u8]) -> (r: Vec<usize>)
    ensures
        r@.len() == match_starts(text@, pat@, 0).len(),
        forall|k: int| 0 <= k < r@.len() ==> r@[k] as int == #[trigger] match_starts(text@, pat@, 0)[k],
{
    let mut r: Vec<usize> = Vec::new();
    if pat.len() == 0 {
        return r;
    }
    let mut i: usize = 0;
    while i <= text.len() && pat.len() <= text.len() - i
        invariant
            pat@.len() > 0,
            i <= text@.len() + 1,
            r@.len() + match_starts(text@, pat@, i as int).len() == match_starts(text@, pat@, 0).len(),
            forall|k: int| 0 <= k < r@.len() ==> r@[k] as int == #[trigger] match_starts(text@, pat@, 0)[k],
            forall|k: int| 0 <= k < match_starts(text@, pat@, i as int).len() ==>
                match_starts(text@, pat@, i as int)[k] == #[trigger] match_starts(text@, pat@, 0)[r@.len() + k],
        decreases text@.len() + 1 - i,
    {
        if matches_at(text, pat, i) {
            let ghost rest = match_starts(text@, pat@, i + pat@.len());
            assert(match_starts(text@, pat@, i as int) == seq![i as int] + rest);
            assert(match_starts(text@, pat@, i as int)[0] == i as int);
            assert(match_starts(text@, pat@, i as int)[0] == match_starts(text@, pat@, 0)[r@.len() as int + 0]);
            assert forall|k: int| 0 <= k < rest.len() implies rest[k] == #[trigger] match_starts(
                text@,
                pat@,
                0,
            )[r@.len() + 1 + k] by {
                assert(match_starts(text@, pat@, i as int)[k + 1] == rest[k]);
                assert(match_starts(text@, pat@, i as int)[k + 1] == match_starts(text@, pat@, 0)[r@.len() + (k + 1)]);
                assert(r@.len() + (k + 1) == r@.len() + 1 + k);
            }
            r.push(i);
            i = i + pat.len();
        } else {
            i = i + 1;
        }
    }
    assert(match_starts(text@, pat@, i as int).len() == 0);
    r
}

/// Index of the first occurrence of `pat` in `text`, if any.
pub fn find_first(text: &[u8], pat: &[u8]) -> (r: Option<usize>)
    ensures
        match r {
            Some(i) => occurs_at(text@, pat@, i as int) && forall|j: int|
                0 <= j < i ==> !occurs_at(text@, pat@, j),
            None => !contains(text@, pat@),
        },
{
    let mut i: usize = 0;
    while i < text.len() && pat.len() <= text.len() - i
        invariant
            i <= text@.len(),
            forall|j: int| 0 <= j < i ==> !occurs_at(text@, pat@, j),
        decreases text@.len() - i,
    {
        if matches_at(text, pat, i) {
            return Some(i);
        }
        i = i + 1;
    }
    if pat.len() == 0 && i == text.len() {
        assert(text@.subrange(i as int, i as int) =~= pat@);
        return Some(i);
    }
    assert forall|j: int| !occurs_at(text@, pat@, j) by {
        if j >= i && occurs_at(text@, pat@, j) {
            assert(j + pat@.len() <= text@.len());
        }
    }
    None
}

/// `text` with every occurrence of `pat` replaced by `rep`.
pub fn replace_all(text: &[u8], pat: &[u8], rep: &[u8]) -> (r: Vec<u8>)
    ensures
        r@ == replaced_all(text@, pat@, rep@),
{
    let mut r: Vec<u8> = Vec::new();
    let mut i: usize = 0;
    while i < text.len()
        invariant
            i <= text@.len(),
            r@ + replaced_from(text@, pat@, rep@, i as int) == replaced_all(text@, pat@, rep@),
        decreases text@.len() - i,
    {
        let ghost before = r@;
        if pat.len() > 0 && matches_at(text, pat, i) {
            push_all(&mut r, rep);
            assert(r@ + replaced_from(text@, pat@, rep@, i + pat@.len()) =~= before + (rep@
                + replaced_from(text@, pat@, rep@, i + pat@.len())));
            i = i + pat.len();
        } else {
            r.push(text[i]);
            assert(r@ + replaced_from(text@, pat@, rep@, i + 1) =~= before + (seq![text@[i as int]]
                + replaced_from(text@, pat@, rep@, i + 1)));
            i = i + 1;
        }
    }
    assert(r@ + replaced_from(text@, pat@, rep@, i as int) =~= r@);
    r
}

/// Index of the first `b` in `s[from..to]`, counted from `from`, if any.
pub fn find_first_byte(s: &[u8], b: u8, from: usize, to: usize) -> (r: Option<usize>)
    requires
        from <= to <= s@.len(),
    ensures
        match r {
            Some(i) => i as int == first_index(s@.subrange(from as int, to as int), b),
            None => first_index(s@.subrange(from as int, to as int), b) == -1,
        },
{
    let mut k: usize = from;
    while k < to
        invariant
            from <= k <= to <= s@.len(),
            first_index(s@.subrange(from as int, to as int), b) == (if first_index(s@.subrange(k as int, to as int), b) < 0 {
                -1
            } else {
                first_index(s@.subrange(k as int, to as int), b) + (k - from)
            }),
        decreases to - k,
    {
        let ghost sub = s@.subrange(k as int, to as int);
        assert(sub.drop_first() =~= s@.subrange(k + 1, to as int));
        if s[k] == b {
            return Some(k - from);
        }
        k = k + 1;
    }
    None
}

/// Index of the last `b` in `s[from..to]`, counted from `from`, if any.
pub fn find_last_byte(s: &[u8], b: u8, from: usize, to: usize) -> (r: Option<usize>)
    requires
        from <= to <= s@.len(),
    ensures
        match r {
            Some(i) => i as int == last_index(s@.subrange(from as int, to as int), b),
            None => last_index(s@.subrange(from as int, to as int), b) == -1,
        },
{
    let mut i: usize = to;
    while i > from
        invariant
            from <= i <= to <= s@.len(),
            last_index(s@.subrange(from as int, to as int), b) == last_index(s@.subrange(from as int, i as int), b),
        decreases i - from,
    {
        let ghost pre = s@.subrange(from as int, i as int);
        if s[i - 1] == b {
            assert(pre.last() == b);
            return Some(i - 1 - from);
        }
        assert(pre.drop_last() =~= s@.subrange(from as int, i - 1));
        i = i - 1;
    }
    None
}

/// Does `pat` occur in `text[from..to]`?
pub fn contains_within(text: &[u8], pat: &[u8], from: usize, to: usize) -> (r: bool)
    requires
        from <= to <= text@.len(),
    ensures
        r == contains(text@.subrange(from as int, to as int), pat@),
{
    let ghost sub = text@.subrange(from as int, to as int);
    if pat.len() == 0 {
        assert(sub.subrange(0, 0) =~= pat@);
        assert(occurs_at(sub, pat@, 0));
        return true;
    }
    let mut i: usize = from;
    while i < to && pat.len() <= to - i
        invariant
            from <= i <= to + 1,
            to <= text@.len(),
            sub == text@.subrange(from as int, to as int),
            forall|j: int| 0 <= j < i - from ==> !occurs_at(sub, pat@, j),
        decreases to + 1 - i,
    {
        if matches_at(text, pat, i) {
            assert(i + pat@.len() <= to);
            assert(sub.subrange(i - from, i - from + pat@.len()) =~= text@.subrange(i as int, i + pat@.len()));
            assert(occurs_at(sub, pat@, i - from));
            return true;
        }
        assert(!occurs_at(sub, pat@, i - from)) by {
            if occurs_at(sub, pat@, i - from) {
                assert(i + pat@.len() <= to);
                assert(sub.subrange(i - from, i - from + pat@.len()) =~= text@.subrange(i as int, i + pat@.len()));
            }
        }
        i = i + 1;
    }
    assert forall|j: int| !occurs_at(sub, pat@, j) by {
        if j >= i - from && occurs_at(sub, pat@, j) {
            assert(j + pat@.len() <= sub.len());
        }
    }
    false
}

/// Appends `src[from..to]` to `out`.
pub fn push_range(out: &mut Vec<u8>, src: &[u8], from: usize, to: usize)
    requires
        from <= to <= src@.len(),
    ensures
        final(out)@ == old(out)@ + src@.subrange(from as int, to as int),
{
    let mut i: usize = from;
    while i < to
        invariant
            from <= i <= to <= src@.len(),
            out@ == old(out)@ + src@.subrange(from as int, i as int),
        decreases to - i,
    {
        out.push(src[i]);
        assert(src@.subrange(from as int, i + 1) =~= src@.subrange(from as int, i as int).push(src@[i as int]));
        i = i + 1;
    }
}

/// Appends all of `src` to `out`.
pub fn push_all(out: &mut Vec<u8>, src: &[u8])
    ensures
        final(out)@ == old(out)@ + src@,
{
    push_range(out, src, 0, src.len());
    assert(src@.subrange(0, src@.len() as int) =~= src@);
}

} // verus!
