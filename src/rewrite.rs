//! Rewriting the references in one file, then checking what is left.

use vstd::prelude::*;
use vstd::utf8::encode_utf8;
use crate::bytes::contains;
use crate::locate::{planned_edits, prepare_rename_refs_in_content};
use crate::objects::NotionObject;
use crate::paths::file_name;
use crate::splice::{do_rename_refs_in_content, rewritten};
use crate::validate::{reports_all, stale_objects, validate_rename_refs_in_content, RenameRefsInFileError};

verus! {

/// `index.html`, the listing at the root of an exported tree. It names
/// entities by identifier on purpose.
pub open spec fn root_listing_name() -> Seq<u8> {
    seq![105u8, 110u8, 100u8, 101u8, 120u8, 46u8, 104u8, 116u8, 109u8, 108u8]
}

/// The file at `path` is the root listing.
pub open spec fn is_root_listing(path: Seq<u8>) -> bool {
    file_name(path) == root_listing_name()
}

/// The content of a file after its references are rewritten.
pub open spec fn new_content_of(text: Seq<u8>, path: Seq<u8>, objs: Seq<NotionObject>) -> Seq<u8> {
    if planned_edits(text, path, objs).len() == 0 {
        text
    } else {
        rewritten(text, planned_edits(text, path, objs))
    }
}

/// The entities reported for a file: those whose identifier is left in its
/// new content, but none for the root listing.
pub open spec fn warned_objects(text: Seq<u8>, path: Seq<u8>, objs: Seq<NotionObject>) -> Seq<NotionObject> {
    if is_root_listing(path) {
        Seq::empty()
    } else {
        stale_objects(new_content_of(text, path, objs), objs)
    }
}

/// What rewriting one file gives: its new content, if anything changed, and
/// the problems found in the result.
pub struct FileRewrite {
    pub new_contents: Option<Vec<u8>>,
    pub warnings: Vec<RenameRefsInFileError>,
}

/// Does `path` name the root listing?
pub fn is_root_listing_path(path: &String) -> (r: bool)
    ensures
        r == is_root_listing(encode_utf8(path@)),
{
    let bytes = crate::encoding::text_bytes(path.as_str());
    let name: Vec<u8> = vec![105u8, 110u8, 100u8, 101u8, 120u8, 46u8, 104u8, 116u8, 109u8, 108u8];
    assert(name@ =~= root_listing_name());
    let start = crate::paths::dir_prefix_len(bytes.as_slice());
    proof {
        crate::bytes::lemma_last_index_bounds(bytes@, crate::paths::SEPARATOR);
    }
    let r = bytes.len() - start == name.len() && crate::bytes::matches_at(bytes.as_slice(), name.as_slice(), start);
    proof {
        if bytes@.len() - start == name@.len() {
            assert(file_name(bytes@) =~= bytes@.subrange(start as int, start + name@.len()));
        }
    }
    r
}

/// Rewrites every reference to the entities of `all_objects` in the content
/// of the file at `file_path`, then looks for identifiers left in the result
/// (which is the old content when nothing was to be replaced). The root
/// listing keeps its identifiers without a report.
pub fn rename_refs_in_file(file_contents: &Vec<u8>, file_path: &String, all_objects: &Vec<NotionObject>) -> (r: FileRewrite)
    ensures
        r.new_contents.is_none() <==> planned_edits(file_contents@, encode_utf8(file_path@), all_objects@).len() == 0,
        r.new_contents.is_some() ==> r.new_contents.unwrap()@ == new_content_of(
            file_contents@,
            encode_utf8(file_path@),
            all_objects@,
        ),
        reports_all(
            r.warnings@,
            new_content_of(file_contents@, encode_utf8(file_path@), all_objects@),
            warned_objects(file_contents@, encode_utf8(file_path@), all_objects@),
        ),
{
    let descriptors = prepare_rename_refs_in_content(file_contents, file_path, all_objects);
    let new_contents = do_rename_refs_in_content(file_contents, descriptors);
    let warnings = if is_root_listing_path(file_path) {
        Vec::new()
    } else {
        match &new_contents {
            Some(c) => validate_rename_refs_in_content(c, all_objects),
            None => validate_rename_refs_in_content(file_contents, all_objects),
        }
    };
    FileRewrite { new_contents, warnings }
}

/// An identifier left in the root listing is not reported; left in any other
/// file, it is reported once, for the entity that it belongs to.
pub proof fn law_root_listing_suppression(text: Seq<u8>, path: Seq<u8>, o: NotionObject)
    requires
        o.renamable(),
        contains(new_content_of(text, path, seq![o]), encode_utf8(o.info().uuid@)),
    ensures
        is_root_listing(path) ==> warned_objects(text, path, seq![o]).len() == 0,
        !is_root_listing(path) ==> warned_objects(text, path, seq![o]) == seq![o],
{
    let objs = seq![o];
    let nc = new_content_of(text, path, objs);
    assert(objs.drop_last() =~= Seq::<NotionObject>::empty());
    assert(stale_objects(nc, objs.drop_last()) =~= Seq::<NotionObject>::empty());
    assert(stale_objects(nc, objs) =~= seq![o]);
}

} // verus!
