//! Checking rewritten content for identifiers that should be gone.

use vstd::prelude::*;
use vstd::utf8::encode_utf8;
use crate::bytes::{contains, find_first, occurs_at, push_range};
use crate::encoding::{text_bytes, ReplacementToken};
use crate::objects::NotionObject;

verus! {

/// Least number of bytes shown on each side of a stale identifier.
pub const MIN_CONTEXT_BYTES: usize = 30;

/// A problem found in a file after its references were rewritten.
pub enum RenameRefsInFileError {
    /// The identifier of a renamed entity is still in the content.
    RefRemainingInFile {
        uuid: String,
        new_name: String,
        window_where_uuid_appears: Vec<u8>,
        looked_for: Vec<Vec<u8>>,
    },
}

/// The renamable entities of `objs` whose identifier occurs in `text`, in order.
pub open spec fn stale_objects(text: Seq<u8>, objs: Seq<NotionObject>) -> Seq<NotionObject>
    decreases objs.len(),
{
    if objs.len() == 0 {
        Seq::empty()
    } else {
        let o = objs.last();
        stale_objects(text, objs.drop_last()) + if o.renamable() && contains(
            text,
            encode_utf8(o.info().uuid@),
        ) {
            seq![o]
        } else {
            Seq::empty()
        }
    }
}

/// Bytes shown on each side of a stale identifier of an entity named `name`.
pub open spec fn context_bytes(name: Seq<char>) -> int {
    if 2 * encode_utf8(name).len() > MIN_CONTEXT_BYTES {
        2 * encode_utf8(name).len() as int
    } else {
        MIN_CONTEXT_BYTES as int
    }
}

/// The part of `text` around the first occurrence of `uuid`, with `margin`
/// bytes on each side where there are that many.
pub open spec fn context_window(text: Seq<u8>, uuid: Seq<u8>, margin: int) -> Seq<u8> {
    let at = crate::bytes::first_occurrence(text, uuid);
    let from = if at > margin {
        at - margin
    } else {
        0
    };
    let to = if at + uuid.len() + margin <= text.len() {
        at + uuid.len() + margin
    } else {
        text.len() as int
    };
    text.subrange(from, to)
}

/// `e` reports that the identifier of `o` remains in `text`.
pub open spec fn reports(e: RenameRefsInFileError, text: Seq<u8>, o: NotionObject) -> bool {
    match e {
        RenameRefsInFileError::RefRemainingInFile { uuid, new_name, window_where_uuid_appears, looked_for } => {
            &&& uuid@ == o.info().uuid@
            &&& new_name@ == match o.info().new_name {
                Some(n) => n@,
                None => Seq::empty(),
            }
            &&& window_where_uuid_appears@ == context_window(
                text,
                encode_utf8(o.info().uuid@),
                context_bytes(o.info().name@),
            )
            &&& looked_for@.len() == o.info().replacements@.len()
            &&& forall|k: int|
                0 <= k < looked_for@.len() ==> (#[trigger] looked_for@[k])@
                    == o.info().replacements@[k].old_ref@
        },
    }
}

/// `es` reports, one by one, that the identifiers of `objs` remain in `text`.
pub open spec fn reports_all(es: Seq<RenameRefsInFileError>, text: Seq<u8>, objs: Seq<NotionObject>) -> bool {
    es.len() == objs.len() && forall|k: int| 0 <= k < es.len() ==> reports(#[trigger] es[k], text, objs[k])
}

/// The old forms that were looked for.
fn old_refs(tokens: &Vec<ReplacementToken>) -> (r: Vec<Vec<u8>>)
    ensures
        r@.len() == tokens@.len(),
        forall|k: int| 0 <= k < r@.len() ==> (#[trigger] r@[k])@ == tokens@[k].old_ref@,
{
    let mut r: Vec<Vec<u8>> = Vec::new();
    let mut i: usize = 0;
    while i < tokens.len()
        invariant
            i <= tokens@.len(),
            r@.len() == i,
            forall|k: int| 0 <= k < i ==> (#[trigger] r@[k])@ == tokens@[k].old_ref@,
        decreases tokens@.len() - i,
    {
        let mut copy: Vec<u8> = Vec::new();
        crate::bytes::push_all(&mut copy, tokens[i].old_ref.as_slice());
        r.push(copy);
        i = i + 1;
    }
    r
}

/// Reports, for each renamed entity whose identifier is still in
/// `new_file_contents`, the identifier, the new name, the content around its
/// first occurrence and the forms that were looked for.
pub fn validate_rename_refs_in_content(new_file_contents: &Vec<u8>, all_objects: &Vec<NotionObject>) -> (r: Vec<RenameRefsInFileError>)
    ensures
        reports_all(r@, new_file_contents@, stale_objects(new_file_contents@, all_objects@)),
{
    let ghost text = new_file_contents@;
    let ghost objs = all_objects@;
    let mut errors: Vec<RenameRefsInFileError> = Vec::new();
    let mut i: usize = 0;
    let tl = new_file_contents.len();
    assert(objs.subrange(0, 0) =~= Seq::<NotionObject>::empty());
    while i < all_objects.len()
        invariant
            i <= objs.len(),
            objs == all_objects@,
            text == new_file_contents@,
            tl == text.len(),
            reports_all(errors@, text, stale_objects(text, objs.subrange(0, i as int))),
        decreases objs.len() - i,
    {
        let obj = &all_objects[i];
        assert(objs.subrange(0, i + 1).drop_last() =~= objs.subrange(0, i as int));
        assert(objs.subrange(0, i + 1).last() == *obj);
        let ghost stale_before = stale_objects(text, objs.subrange(0, i as int));
        match obj {
            NotionObject::Page(info) | NotionObject::Database(info, _) => {
                let uuid_bytes = text_bytes(info.uuid.as_str());
                match find_first(new_file_contents.as_slice(), uuid_bytes.as_slice()) {
                    Some(at) => {
                        let name_len = text_bytes(info.name.as_str()).len();
                        // A margin as long as the content shows all of it.
                        let margin: usize = if name_len > MIN_CONTEXT_BYTES / 2 {
                            if name_len > tl / 2 {
                                tl
                            } else {
                                2 * name_len
                            }
                        } else {
                            MIN_CONTEXT_BYTES
                        };
                        let from = if at > margin {
                            at - margin
                        } else {
                            0
                        };
                        assert(at + uuid_bytes@.len() <= tl);
                        let to = if margin <= tl - at - uuid_bytes.len() {
                            at + uuid_bytes.len() + margin
                        } else {
                            tl
                        };
                        proof {
                            assert(contains(text, uuid_bytes@));
                            let fo = crate::bytes::first_occurrence(text, uuid_bytes@);
                            assert(occurs_at(text, uuid_bytes@, fo) && forall|j: int| 0 <= j < fo ==> !occurs_at(text, uuid_bytes@, j));
                            assert(fo == at as int) by {
                                if fo < at {
                                } else if fo > at {
                                }
                            }
                            assert(margin as int == context_bytes(info.name@) || (margin == tl
                                && context_bytes(info.name@) >= tl));
                        }
                        let mut window: Vec<u8> = Vec::new();
                        push_range(&mut window, new_file_contents.as_slice(), from, to);
                        assert(window@ == context_window(text, uuid_bytes@, context_bytes(info.name@)));
                        let new_name = match &info.new_name {
                            Some(n) => n.clone(),
                            None => String::new(),
                        };
                        let e = RenameRefsInFileError::RefRemainingInFile {
                            uuid: info.uuid.clone(),
                            new_name,
                            window_where_uuid_appears: window,
                            looked_for: old_refs(&info.replacements),
                        };
                        errors.push(e);
                        assert(stale_objects(text, objs.subrange(0, i + 1)) =~= stale_before.push(*obj));
                    },
                    None => {
                        assert(stale_objects(text, objs.subrange(0, i + 1)) =~= stale_before);
                    },
                }
            },
            _ => {
                assert(stale_objects(text, objs.subrange(0, i + 1)) =~= stale_before);
            },
        }
        i = i + 1;
    }
    assert(objs.subrange(0, i as int) =~= objs);
    errors
}

} // verus!
