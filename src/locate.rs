//! Finding, in one file's content, every place that names an entity by its
//! exported name: the encoded forms of that name, and external links to the
//! entity's hosted page.

use vstd::prelude::*;
use vstd::utf8::encode_utf8;
use crate::bytes::{
    contains, contains_within, find_all, find_first_byte, find_last_byte, first_index, last_index,
    lemma_first_index_bounds, lemma_last_index_bounds, lemma_match_starts_occur, match_starts,
    replace_all, replaced_all,
};
use crate::encoding::{text_bytes, ReplacementToken};
use crate::objects::{name_uuid_of, NotionObject, NotionObjectInfo};
use crate::paths::{relative_path, relative_path_to};
use crate::splice::{all_valid, edits_of, valid_edit, Edit, ReplaceDescriptor};

verus! {

/// Bytes looked at before a link marker for the opening parenthesis
/// (`https://www.` and some more).
pub const BEFORE_MARKER_WINDOW: usize = 30;

/// Bytes looked at after a link marker for the closing parenthesis: room for
/// an identifier and query arguments.
pub const AFTER_MARKER_WINDOW: usize = 96;

/// Length of the link marker.
pub const LINK_MARKER_LEN: usize = 9;

/// `notion.so`, the host that marks an external link into the exported tree.
pub open spec fn link_marker() -> Seq<u8> {
    seq![110u8, 111u8, 116u8, 105u8, 111u8, 110u8, 46u8, 115u8, 111u8]
}

/// `(`
pub const OPEN_PAREN: u8 = 40;

/// `)`
pub const CLOSE_PAREN: u8 = 41;

/// The span inside the parentheses around the link marker at `m`: the last
/// `(` in the window before the marker, up to the first `)` in the window
/// from the marker on.
pub open spec fn link_span(text: Seq<u8>, m: int) -> Option<(int, int)> {
    let ws = if m <= BEFORE_MARKER_WINDOW {
        0
    } else {
        m - BEFORE_MARKER_WINDOW
    };
    let we = if m + link_marker().len() + AFTER_MARKER_WINDOW <= text.len() {
        m + link_marker().len() + AFTER_MARKER_WINDOW
    } else {
        text.len() as int
    };
    let o = last_index(text.subrange(ws, m), OPEN_PAREN);
    let c = first_index(text.subrange(m, we), CLOSE_PAREN);
    if o >= 0 && c >= 0 && ws + o + 1 < m + c {
        Some((ws + o + 1, m + c))
    } else {
        None
    }
}

/// The link spans around the markers at `ms`.
pub open spec fn spans_at(text: Seq<u8>, ms: Seq<int>) -> Seq<(int, int)>
    decreases ms.len(),
{
    if ms.len() == 0 {
        Seq::empty()
    } else {
        spans_at(text, ms.drop_last()) + match link_span(text, ms.last()) {
            Some(sp) => seq![sp],
            None => Seq::empty(),
        }
    }
}

/// The spans of the external links in `text`.
pub open spec fn link_spans(text: Seq<u8>) -> Seq<(int, int)> {
    spans_at(text, match_starts(text, link_marker(), 0))
}

/// The edits that replace each occurrence of `old` by `new`.
pub open spec fn token_edits(text: Seq<u8>, old: Seq<u8>, new: Seq<u8>) -> Seq<Edit> {
    match_starts(text, old, 0).map_values(|s: int| Edit { start: s, end: s + old.len(), text: new })
}

/// The edits of every token of `toks`, token after token.
pub open spec fn tokens_edits(text: Seq<u8>, toks: Seq<ReplacementToken>) -> Seq<Edit>
    decreases toks.len(),
{
    if toks.len() == 0 {
        Seq::empty()
    } else {
        tokens_edits(text, toks.drop_last()) + token_edits(
            text,
            toks.last().old_ref@,
            toks.last().new_ref@,
        )
    }
}

/// The edits that replace each span of `spans` holding `uuid` by `target`.
pub open spec fn link_edits(text: Seq<u8>, spans: Seq<(int, int)>, uuid: Seq<u8>, target: Seq<u8>) -> Seq<Edit>
    decreases spans.len(),
{
    if spans.len() == 0 {
        Seq::empty()
    } else {
        let sp = spans.last();
        link_edits(text, spans.drop_last(), uuid, target) + if contains(text.subrange(sp.0, sp.1), uuid) {
            seq![Edit { start: sp.0, end: sp.1, text: target }]
        } else {
            Seq::empty()
        }
    }
}

/// What replaces an external link to the entity from the file at
/// `file_path`: the entity's path relative to that file, with its exported
/// name turned into its new name.
pub open spec fn link_target(file_path: Seq<u8>, info: NotionObjectInfo) -> Seq<u8> {
    replaced_all(
        relative_path(file_path, encode_utf8(info.path@)),
        encode_utf8(name_uuid_of(info.name@, info.uuid@)),
        encode_utf8(info.new_name.unwrap()@),
    )
}

/// The edits that one entity asks of a file's content.
pub open spec fn object_edits(text: Seq<u8>, file_path: Seq<u8>, o: NotionObject) -> Seq<Edit> {
    if !o.renamable() {
        Seq::empty()
    } else {
        tokens_edits(text, o.info().replacements@) + if o.info().new_name.is_some() {
            link_edits(text, link_spans(text), encode_utf8(o.info().uuid@), link_target(file_path, o.info()))
        } else {
            Seq::empty()
        }
    }
}

/// The edits that all entities of `objs` ask of a file's content, entity
/// after entity.
pub open spec fn planned_edits(text: Seq<u8>, file_path: Seq<u8>, objs: Seq<NotionObject>) -> Seq<Edit>
    decreases objs.len(),
{
    if objs.len() == 0 {
        Seq::empty()
    } else {
        planned_edits(text, file_path, objs.drop_last()) + object_edits(text, file_path, objs.last())
    }
}

/// The spans as integers.
pub open spec fn spans_view(v: Seq<(usize, usize)>) -> Seq<(int, int)> {
    v.map_values(|p: (usize, usize)| (p.0 as int, p.1 as int))
}

/// The link span around the marker at `m`, if there is one.
fn find_link_span(text: &Vec<u8>, m: usize) -> (r: Option<(usize, usize)>)
    requires
        m + link_marker().len() <= text@.len(),
    ensures
        match r {
            Some(sp) => link_span(text@, m as int) == Some((sp.0 as int, sp.1 as int)),
            None => link_span(text@, m as int).is_none(),
        },
        r.is_some() ==> r.unwrap().0 < r.unwrap().1 <= text@.len(),
{
    let ws = if m <= BEFORE_MARKER_WINDOW {
        0
    } else {
        m - BEFORE_MARKER_WINDOW
    };
    let we = if text.len() - m >= LINK_MARKER_LEN + AFTER_MARKER_WINDOW {
        m + LINK_MARKER_LEN + AFTER_MARKER_WINDOW
    } else {
        text.len()
    };
    proof {
        lemma_last_index_bounds(text@.subrange(ws as int, m as int), OPEN_PAREN);
        lemma_first_index_bounds(text@.subrange(m as int, we as int), CLOSE_PAREN);
    }
    match find_last_byte(text.as_slice(), OPEN_PAREN, ws, m) {
        Some(o) => match find_first_byte(text.as_slice(), CLOSE_PAREN, m, we) {
            Some(c) => {
                if ws + o + 1 < m + c {
                    Some((ws + o + 1, m + c))
                } else {
                    None
                }
            },
            None => None,
        },
        None => None,
    }
}

/// The spans of the external links in `text`.
fn find_link_spans(text: &Vec<u8>) -> (r: Vec<(usize, usize)>)
    ensures
        spans_view(r@) == link_spans(text@),
        forall|k: int| 0 <= k < r@.len() ==> (#[trigger] r@[k]).0 < r@[k].1 <= text@.len(),
{
    let marker: Vec<u8> = vec![110u8, 111u8, 116u8, 105u8, 111u8, 110u8, 46u8, 115u8, 111u8];
    assert(marker@ =~= link_marker());
    let ms = find_all(text.as_slice(), marker.as_slice());
    let ghost all = match_starts(text@, link_marker(), 0);
    proof {
        lemma_match_starts_occur(text@, link_marker(), 0);
    }
    let mut r: Vec<(usize, usize)> = Vec::new();
    let mut i: usize = 0;
    assert(all.subrange(0, 0) =~= Seq::<int>::empty());
    assert(spans_view(r@) =~= Seq::<(int, int)>::empty());
    while i < ms.len()
        invariant
            i <= ms@.len(),
            ms@.len() == all.len(),
            forall|k: int| 0 <= k < ms@.len() ==> ms@[k] as int == #[trigger] all[k],
            forall|k: int| 0 <= k < all.len() ==> crate::bytes::occurs_at(text@, link_marker(), #[trigger] all[k]),
            spans_view(r@) == spans_at(text@, all.subrange(0, i as int)),
            forall|k: int| 0 <= k < r@.len() ==> (#[trigger] r@[k]).0 < r@[k].1 <= text@.len(),
        decreases ms@.len() - i,
    {
        let m = ms[i];
        assert(all[i as int] == m as int);
        assert(all.subrange(0, i + 1).drop_last() =~= all.subrange(0, i as int));
        assert(all.subrange(0, i + 1).last() == m as int);
        let ghost before = r@;
        match find_link_span(text, m) {
            Some(sp) => {
                r.push(sp);
                assert(spans_view(r@) =~= spans_view(before) + seq![(sp.0 as int, sp.1 as int)]);
            },
            None => {
            },
        }
        i = i + 1;
    }
    assert(all.subrange(0, i as int) =~= all);
    r
}

/// Adds the edits that replace each occurrence of `tok`'s old form by its
/// new form.
fn push_token_edits(r: &mut Vec<ReplaceDescriptor>, text: &Vec<u8>, tok: &ReplacementToken)
    requires
        all_valid(edits_of(old(r)@), text@.len() as int),
    ensures
        edits_of(final(r)@) == edits_of(old(r)@) + token_edits(text@, tok.old_ref@, tok.new_ref@),
        all_valid(edits_of(final(r)@), text@.len() as int),
{
    let starts = find_all(text.as_slice(), tok.old_ref.as_slice());
    let ghost all = match_starts(text@, tok.old_ref@, 0);
    let ghost base = edits_of(r@);
    let ghost goal = token_edits(text@, tok.old_ref@, tok.new_ref@);
    proof {
        lemma_match_starts_occur(text@, tok.old_ref@, 0);
    }
    let mut k: usize = 0;
    let tl = text.len();
    assert(edits_of(r@) =~= base + goal.subrange(0, 0));
    while k < starts.len()
        invariant
            tl == text@.len(),
            goal == token_edits(text@, tok.old_ref@, tok.new_ref@),
            all == match_starts(text@, tok.old_ref@, 0),
            k <= starts@.len(),
            starts@.len() == all.len(),
            goal.len() == all.len(),
            forall|j: int| 0 <= j < starts@.len() ==> starts@[j] as int == #[trigger] all[j],
            forall|j: int| 0 <= j < all.len() ==> crate::bytes::occurs_at(text@, tok.old_ref@, #[trigger] all[j]) && tok.old_ref@.len() > 0,
            edits_of(r@) == base + goal.subrange(0, k as int),
            all_valid(edits_of(r@), text@.len() as int),
        decreases starts@.len() - k,
    {
        let s = starts[k];
        assert(all[k as int] == s as int);
        assert(crate::bytes::occurs_at(text@, tok.old_ref@, all[k as int]));
        assert(s + tok.old_ref@.len() <= tl);
        let d = ReplaceDescriptor::new_from_borrowed(s, s + tok.old_ref.len(), &tok.new_ref);
        let ghost before = r@;
        r.push(d);
        assert(goal[k as int] == d@);
        assert(edits_of(r@) =~= edits_of(before).push(d@));
        assert(goal.subrange(0, k + 1) =~= goal.subrange(0, k as int).push(goal[k as int]));
        assert(edits_of(r@) =~= base + goal.subrange(0, k + 1));
        assert(all_valid(edits_of(r@), text@.len() as int)) by {
            assert forall|j: int| 0 <= j < edits_of(r@).len() implies valid_edit(#[trigger] edits_of(r@)[j], text@.len() as int) by {
                if j < before.len() {
                    assert(edits_of(r@)[j] == edits_of(before)[j]);
                }
            }
        }
        k = k + 1;
    }
    assert(goal.subrange(0, k as int) =~= goal);
}

/// Adds the edits that replace each span of `spans` that holds `uuid` by
/// `target`.
fn push_link_edits(
    r: &mut Vec<ReplaceDescriptor>,
    text: &Vec<u8>,
    spans: &Vec<(usize, usize)>,
    uuid: &Vec<u8>,
    target: &Vec<u8>,
)
    requires
        all_valid(edits_of(old(r)@), text@.len() as int),
        forall|k: int| 0 <= k < spans@.len() ==> (#[trigger] spans@[k]).0 < spans@[k].1 <= text@.len(),
    ensures
        edits_of(final(r)@) == edits_of(old(r)@) + link_edits(text@, spans_view(spans@), uuid@, target@),
        all_valid(edits_of(final(r)@), text@.len() as int),
{
    let ghost base = edits_of(r@);
    let ghost sv = spans_view(spans@);
    let mut k: usize = 0;
    assert(sv.subrange(0, 0) =~= Seq::<(int, int)>::empty());
    assert(edits_of(r@) =~= base + link_edits(text@, sv.subrange(0, 0), uuid@, target@));
    while k < spans.len()
        invariant
            k <= spans@.len(),
            sv == spans_view(spans@),
            forall|j: int| 0 <= j < spans@.len() ==> (#[trigger] spans@[j]).0 < spans@[j].1 <= text@.len(),
            edits_of(r@) == base + link_edits(text@, sv.subrange(0, k as int), uuid@, target@),
            all_valid(edits_of(r@), text@.len() as int),
        decreases spans@.len() - k,
    {
        let sp = spans[k];
        let ghost before = r@;
        assert(sv.subrange(0, k + 1).drop_last() =~= sv.subrange(0, k as int));
        assert(sv.subrange(0, k + 1).last() == (sp.0 as int, sp.1 as int));
        if contains_within(text.as_slice(), uuid.as_slice(), sp.0, sp.1) {
            let d = ReplaceDescriptor::new_from_borrowed(sp.0, sp.1, target);
            r.push(d);
            assert(edits_of(r@) =~= edits_of(before).push(d@));
            assert(all_valid(edits_of(r@), text@.len() as int)) by {
                assert forall|j: int| 0 <= j < edits_of(r@).len() implies valid_edit(#[trigger] edits_of(r@)[j], text@.len() as int) by {
                    if j < before.len() {
                        assert(edits_of(r@)[j] == edits_of(before)[j]);
                    }
                }
            }
        }
        k = k + 1;
    }
    assert(sv.subrange(0, k as int) =~= sv);
}

/// What replaces an external link to the entity of `info` from the file at
/// `file_path`.
fn compute_link_target(file_path: &str, info: &NotionObjectInfo, new_name: &String) -> (r: Vec<u8>)
    requires
        info.new_name == Some(*new_name),
    ensures
        r@ == link_target(encode_utf8(file_path@), *info),
{
    let rel = relative_path_to(file_path.as_bytes(), info.path.as_str().as_bytes());
    let with_space = info.name.clone().concat(" ");
    let old_name = with_space.concat(info.uuid.as_str());
    proof {
        reveal_strlit(" ");
    }
    assert(old_name@ =~= name_uuid_of(info.name@, info.uuid@));
    let old_bytes = text_bytes(old_name.as_str());
    let new_bytes = text_bytes(new_name.as_str());
    replace_all(rel.as_slice(), old_bytes.as_slice(), new_bytes.as_slice())
}

/// Plans every replacement that the entities of `all_objects` ask of the
/// content of the file at `file_path`: each occurrence of an encoded form of
/// a renamed entity's exported name, and each external link that holds its
/// identifier. The replacements may overlap; all are stated against
/// `file_contents`.
pub fn prepare_rename_refs_in_content(
    file_contents: &Vec<u8>,
    file_path: &String,
    all_objects: &Vec<NotionObject>,
) -> (r: Vec<ReplaceDescriptor>)
    ensures
        edits_of(r@) == planned_edits(file_contents@, encode_utf8(file_path@), all_objects@),
        all_valid(edits_of(r@), file_contents@.len() as int),
{
    let ghost text = file_contents@;
    let ghost fp = encode_utf8(file_path@);
    let ghost objs = all_objects@;
    let spans = find_link_spans(file_contents);
    let mut r: Vec<ReplaceDescriptor> = Vec::new();
    let mut i: usize = 0;
    assert(objs.subrange(0, 0) =~= Seq::<NotionObject>::empty());
    assert(edits_of(r@) =~= Seq::<Edit>::empty());
    while i < all_objects.len()
        invariant
            i <= objs.len(),
            objs == all_objects@,
            text == file_contents@,
            fp == encode_utf8(file_path@),
            spans_view(spans@) == link_spans(text),
            forall|k: int| 0 <= k < spans@.len() ==> (#[trigger] spans@[k]).0 < spans@[k].1 <= text.len(),
            edits_of(r@) == planned_edits(text, fp, objs.subrange(0, i as int)),
            all_valid(edits_of(r@), text.len() as int),
        decreases objs.len() - i,
    {
        let object = &all_objects[i];
        assert(objs.subrange(0, i + 1).drop_last() =~= objs.subrange(0, i as int));
        assert(objs.subrange(0, i + 1).last() == *object);
        let ghost base = edits_of(r@);
        match object {
            NotionObject::Page(info) | NotionObject::Database(info, _) => {
                let toks = &info.replacements;
                let mut j: usize = 0;
                assert(toks@.subrange(0, 0) =~= Seq::<ReplacementToken>::empty());
                assert(edits_of(r@) =~= base + tokens_edits(text, toks@.subrange(0, 0)));
                while j < toks.len()
                    invariant
                        j <= toks@.len(),
                        text == file_contents@,
                        edits_of(r@) == base + tokens_edits(text, toks@.subrange(0, j as int)),
                        all_valid(edits_of(r@), text.len() as int),
                    decreases toks@.len() - j,
                {
                    assert(toks@.subrange(0, j + 1).drop_last() =~= toks@.subrange(0, j as int));
                    assert(toks@.subrange(0, j + 1).last() == toks@[j as int]);
                    let ghost before = edits_of(r@);
                    push_token_edits(&mut r, file_contents, &toks[j]);
                    assert(edits_of(r@) =~= base + tokens_edits(text, toks@.subrange(0, j + 1)));
                    j = j + 1;
                }
                assert(toks@.subrange(0, j as int) =~= toks@);
                let ghost after_tokens = edits_of(r@);
                match &info.new_name {
                    Some(new_name) => {
                        let target = if spans.len() > 0 {
                            compute_link_target(file_path.as_str(), info, new_name)
                        } else {
                            Vec::new()
                        };
                        let uuid = text_bytes(info.uuid.as_str());
                        proof {
                            if spans@.len() == 0 {
                                assert(link_edits(text, spans_view(spans@), uuid@, target@) =~= Seq::<Edit>::empty());
                                assert(link_edits(text, spans_view(spans@), uuid@, link_target(fp, *info)) =~= Seq::<Edit>::empty());
                            }
                        }
                        push_link_edits(&mut r, file_contents, &spans, &uuid, &target);
                        assert(edits_of(r@) =~= base + object_edits(text, fp, *object));
                    },
                    None => {
                        assert(edits_of(r@) =~= base + object_edits(text, fp, *object));
                    },
                }
            },
            _ => {
                assert(edits_of(r@) =~= base + object_edits(text, fp, *object));
            },
        }
        i = i + 1;
    }
    assert(objs.subrange(0, i as int) =~= objs);
    r
}

} // verus!
