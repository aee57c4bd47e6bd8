//! Merging many planned byte-range replacements into one rewritten buffer.
//!
//! Every replacement is stated against the same unedited buffer. They are
//! ordered by start offset; a replacement that starts before the end of the
//! previously applied one is dropped, so the earliest-starting one wins.

use vstd::prelude::*;
use crate::bytes::{push_all, push_range};

verus! {

/// A planned replacement of `content[start..end]` by `new_text`.
pub struct ReplaceDescriptor {
    pub start: usize,
    pub end: usize,
    pub new_text: Vec<u8>,
}

/// What a replacement means: `text` in place of `start..end`.
pub ghost struct Edit {
    pub start: int,
    pub end: int,
    pub text: Seq<u8>,
}

impl View for ReplaceDescriptor {
    type V = Edit;

    open spec fn view(&self) -> Edit {
        Edit { start: self.start as int, end: self.end as int, text: self.new_text@ }
    }
}

/// The meaning of each replacement of `ds`.
pub open spec fn edits_of(ds: Seq<ReplaceDescriptor>) -> Seq<Edit> {
    ds.map_values(|d: ReplaceDescriptor| d@)
}

/// The edit covers a non-empty range inside a buffer of `len` bytes.
pub open spec fn valid_edit(d: Edit, len: int) -> bool {
    0 <= d.start < d.end <= len
}

/// Every edit of `ds` is valid for a buffer of `len` bytes.
pub open spec fn all_valid(ds: Seq<Edit>, len: int) -> bool {
    forall|k: int| 0 <= k < ds.len() ==> valid_edit(#[trigger] ds[k], len)
}

/// Inserts `d` into `s` just before the first element that does not start
/// before `d`.
pub open spec fn insert_by_start(d: Edit, s: Seq<Edit>) -> Seq<Edit>
    decreases s.len(),
{
    if s.len() == 0 {
        seq![d]
    } else if d.start <= s[0].start {
        seq![d] + s
    } else {
        seq![s[0]] + insert_by_start(d, s.drop_first())
    }
}

/// `ds` sorted by start offset; elements with equal starts keep their order.
pub open spec fn sort_by_start(ds: Seq<Edit>) -> Seq<Edit>
    decreases ds.len(),
{
    if ds.len() == 0 {
        Seq::empty()
    } else {
        insert_by_start(ds[0], sort_by_start(ds.drop_first()))
    }
}

/// The replacements of `ds`, taken in order, that start at or after the end
/// of the previously kept one (`last_end` before the first).
pub open spec fn kept_edits(ds: Seq<Edit>, last_end: int) -> Seq<Edit>
    decreases ds.len(),
{
    if ds.len() == 0 {
        Seq::empty()
    } else if ds[0].start < last_end {
        kept_edits(ds.drop_first(), last_end)
    } else {
        seq![ds[0]] + kept_edits(ds.drop_first(), ds[0].end)
    }
}

/// `text` from `cursor` on, with the (ordered, disjoint) replacements `ks` applied.
pub open spec fn spliced(text: Seq<u8>, ks: Seq<Edit>, cursor: int) -> Seq<u8>
    decreases ks.len(),
{
    if ks.len() == 0 {
        text.subrange(cursor, text.len() as int)
    } else {
        text.subrange(cursor, ks[0].start) + ks[0].text + spliced(text, ks.drop_first(), ks[0].end)
    }
}

/// The replacements of `ds` that are applied to a buffer.
pub open spec fn applied_edits(ds: Seq<Edit>) -> Seq<Edit> {
    kept_edits(sort_by_start(ds), 0)
}

/// `text` with the replacements of `ds` applied.
pub open spec fn rewritten(text: Seq<u8>, ds: Seq<Edit>) -> Seq<u8> {
    spliced(text, applied_edits(ds), 0)
}

impl ReplaceDescriptor {
    /// A replacement of `start..end` by a copy of `new_text`.
    pub fn new_from_borrowed(start: usize, end: usize, new_text: &Vec<u8>) -> (r: Self)
        requires
            start < end,
        ensures
            r.start == start,
            r.end == end,
            r.new_text@ == new_text@,
    {
        let mut copy: Vec<u8> = Vec::new();
        push_all(&mut copy, new_text.as_slice());
        ReplaceDescriptor { start, end, new_text: copy }
    }

    /// A replacement of `start..end` by `new_text`.
    pub fn new_from_owned(start: usize, end: usize, new_text: Vec<u8>) -> (r: Self)
        requires
            start < end,
        ensures
            r.start == start,
            r.end == end,
            r.new_text@ == new_text@,
    {
        ReplaceDescriptor { start, end, new_text }
    }
}

proof fn lemma_insert_by_start_at(d: Edit, s: Seq<Edit>, p: int)
    requires
        0 <= p <= s.len(),
        forall|k: int| 0 <= k < p ==> (#[trigger] s[k]).start < d.start,
        p < s.len() ==> d.start <= s[p].start,
    ensures
        insert_by_start(d, s) == s.insert(p, d),
    decreases s.len(),
{
    if s.len() == 0 {
        assert(s.insert(p, d) =~= seq![d]);
    } else if d.start <= s[0].start {
        assert(p == 0);
        assert(s.insert(p, d) =~= seq![d] + s);
    } else {
        let t = s.drop_first();
        assert forall|k: int| 0 <= k < p - 1 implies (#[trigger] t[k]).start < d.start by {
            assert(t[k] == s[k + 1]);
        }
        lemma_insert_by_start_at(d, t, p - 1);
        assert(s.insert(p, d) =~= seq![s[0]] + t.insert(p - 1, d));
    }
}

/// Sorts `descriptors` by start offset, stably.
fn sort_descriptors(descriptors: Vec<ReplaceDescriptor>, len: Ghost<int>) -> (r: Vec<ReplaceDescriptor>)
    requires
        all_valid(edits_of(descriptors@), len@),
    ensures
        edits_of(r@) == sort_by_start(edits_of(descriptors@)),
        all_valid(edits_of(r@), len@),
{
    let ghost all = edits_of(descriptors@);
    let ghost n0 = descriptors@.len();
    let mut rest = descriptors;
    let mut sorted: Vec<ReplaceDescriptor> = Vec::new();
    assert(all.subrange(n0 as int, n0 as int) =~= Seq::<Edit>::empty());
    assert(edits_of(sorted@) =~= Seq::<Edit>::empty());
    while rest.len() > 0
        invariant
            rest@.len() <= n0,
            all.len() == n0,
            edits_of(rest@) == all.subrange(0, rest@.len() as int),
            edits_of(sorted@) == sort_by_start(all.subrange(rest@.len() as int, n0 as int)),
            all_valid(all, len@),
            all_valid(edits_of(sorted@), len@),
        decreases rest@.len(),
    {
        let ghost n = rest@.len();
        let ghost before = rest@;
        let d = rest.pop().unwrap();
        assert(d@ == edits_of(before)[n - 1]);
        assert(d@ == all[n - 1]);
        assert(edits_of(rest@) =~= all.subrange(0, rest@.len() as int)) by {
            assert(rest@ =~= before.subrange(0, n - 1));
        }
        let ghost sv = edits_of(sorted@);
        let mut p: usize = 0;
        while p < sorted.len() && sorted[p].start < d.start
            invariant
                p <= sorted@.len(),
                sv == edits_of(sorted@),
                forall|k: int| 0 <= k < p ==> (#[trigger] sv[k]).start < d@.start,
            decreases sorted@.len() - p,
        {
            assert(sv[p as int] == sorted@[p as int]@);
            p = p + 1;
        }
        proof {
            if p < sorted@.len() {
                assert(sv[p as int] == sorted@[p as int]@);
            }
            lemma_insert_by_start_at(d@, sv, p as int);
            let tail = all.subrange(n - 1, n0 as int);
            assert(tail.drop_first() =~= all.subrange(n as int, n0 as int));
            assert(tail[0] == d@);
        }
        let ghost old_sorted = sorted@;
        sorted.insert(p, d);
        assert(edits_of(sorted@) =~= sv.insert(p as int, d@)) by {
            assert(sorted@ =~= old_sorted.insert(p as int, d));
        }
        assert(all_valid(edits_of(sorted@), len@)) by {
            assert forall|k: int| 0 <= k < sorted@.len() implies valid_edit(#[trigger] edits_of(sorted@)[k], len@) by {
                if k < p {
                    assert(edits_of(sorted@)[k] == sv[k]);
                } else if k == p {
                    assert(edits_of(sorted@)[k] == all[n - 1]);
                } else {
                    assert(edits_of(sorted@)[k] == sv[k - 1]);
                }
            }
        }
    }
    assert(all.subrange(0, n0 as int) =~= all);
    sorted
}

/// Applies the planned replacements to `file_contents`, all stated against
/// it. Sorted by start, a replacement that starts before the end of the
/// previously applied one is dropped. With no replacement there is nothing
/// to rewrite, and the result is `None`.
pub fn do_rename_refs_in_content(file_contents: &Vec<u8>, descriptors: Vec<ReplaceDescriptor>) -> (r: Option<Vec<u8>>)
    requires
        all_valid(edits_of(descriptors@), file_contents@.len() as int),
    ensures
        descriptors@.len() == 0 ==> r.is_none(),
        descriptors@.len() > 0 ==> r.is_some() && r.unwrap()@ == rewritten(file_contents@, edits_of(descriptors@)),
{
    if descriptors.len() == 0 {
        return None;
    }
    let ghost text = file_contents@;
    let ghost ds = edits_of(descriptors@);
    let sorted = sort_descriptors(descriptors, Ghost(text.len() as int));
    let mut out: Vec<u8> = Vec::with_capacity(file_contents.len());
    let mut cursor: usize = 0;
    let mut i: usize = 0;
    assert(edits_of(sorted@).subrange(0, sorted@.len() as int) =~= edits_of(sorted@));
    assert(out@ + rewritten(text, ds) =~= rewritten(text, ds));
    while i < sorted.len()
        invariant
            i <= sorted@.len(),
            edits_of(sorted@) == sort_by_start(ds),
            all_valid(edits_of(sorted@), text.len() as int),
            text == file_contents@,
            cursor <= text.len(),
            out@ + spliced(text, kept_edits(edits_of(sorted@).subrange(i as int, sorted@.len() as int), cursor as int), cursor as int)
                == rewritten(text, ds),
        decreases sorted@.len() - i,
    {
        let ghost rest = edits_of(sorted@).subrange(i as int, sorted@.len() as int);
        assert(rest.drop_first() =~= edits_of(sorted@).subrange(i + 1, sorted@.len() as int));
        assert(rest[0] == sorted@[i as int]@);
        assert(valid_edit(edits_of(sorted@)[i as int], text.len() as int));
        let d = &sorted[i];
        if d.start >= cursor {
            let ghost k = kept_edits(rest.drop_first(), d.end as int);
            let ghost before = out@;
            let ghost gap = text.subrange(cursor as int, d.start as int);
            assert((seq![d@] + k).drop_first() =~= k);
            assert(spliced(text, seq![d@] + k, cursor as int) == gap + d.new_text@ + spliced(text, k, d.end as int));
            push_range(&mut out, file_contents.as_slice(), cursor, d.start);
            push_all(&mut out, d.new_text.as_slice());
            cursor = d.end;
            assert(out@ + spliced(text, k, cursor as int) =~= before + (gap + d.new_text@ + spliced(text, k, cursor as int)));
        }
        i = i + 1;
    }
    assert(edits_of(sorted@).subrange(i as int, sorted@.len() as int) =~= Seq::<Edit>::empty());
    push_range(&mut out, file_contents.as_slice(), cursor, file_contents.len());
    Some(out)
}

} // verus!

verus! {

/// Of two replacements whose ranges intersect, only the one that starts
/// first is applied, whatever their order: the result keeps the text before
/// and after it, and its length is those two spans plus its new text.
pub proof fn law_overlap_earlier_wins(text: Seq<u8>, a: Edit, b: Edit)
    requires
        valid_edit(a, text.len() as int),
        valid_edit(b, text.len() as int),
        a.start < b.start < a.end,
    ensures
        applied_edits(seq![a, b]) == seq![a],
        applied_edits(seq![b, a]) == seq![a],
        rewritten(text, seq![a, b]) == text.subrange(0, a.start) + a.text + text.subrange(a.end, text.len() as int),
        rewritten(text, seq![b, a]) == rewritten(text, seq![a, b]),
        rewritten(text, seq![a, b]).len() == a.start + a.text.len() + (text.len() - a.end),
{
    let ab = seq![a, b];
    let ba = seq![b, a];
    assert(ab.drop_first() =~= seq![b]);
    assert(ba.drop_first() =~= seq![a]);
    assert(seq![b].drop_first() =~= Seq::<Edit>::empty());
    assert(seq![a].drop_first() =~= Seq::<Edit>::empty());
    assert(seq![b][0] == b);
    assert(seq![a][0] == a);
    assert(ab[0] == a && ab[1] == b);
    assert(ba[0] == b && ba[1] == a);
    assert(sort_by_start(Seq::<Edit>::empty()) =~= Seq::<Edit>::empty());
    assert(insert_by_start(b, Seq::<Edit>::empty()) =~= seq![b]);
    assert(insert_by_start(a, Seq::<Edit>::empty()) =~= seq![a]);
    assert(sort_by_start(seq![b]) =~= seq![b]);
    assert(sort_by_start(seq![a]) =~= seq![a]);
    assert(sort_by_start(ab) =~= ab);
    assert(insert_by_start(b, seq![a]) =~= seq![a] + insert_by_start(b, Seq::<Edit>::empty()));
    assert(sort_by_start(ba) =~= ab);
    assert(kept_edits(Seq::<Edit>::empty(), a.end) =~= Seq::<Edit>::empty());
    assert(kept_edits(seq![b], a.end) =~= Seq::<Edit>::empty());
    assert(kept_edits(ab, 0) =~= seq![a] + kept_edits(seq![b], a.end));
    assert(spliced(text, seq![a], 0) == text.subrange(0, a.start) + a.text + spliced(text, Seq::<Edit>::empty(), a.end));
}

} // verus!
