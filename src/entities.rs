//! Building the entities of an exported tree from its entries grouped by key.

use vstd::prelude::*;
use vstd::utf8::encode_utf8;
use crate::bytes::last_index;
use crate::encoding::text_bytes;
use crate::file_type::FileType;
use crate::objects::{NotionDatabaseInfo, NotionObject, NotionObjectInfo};
use crate::paths::find_last_char;
use vstd::string::*;

verus! {

/// The entries that share one key.
pub struct FileGroup {
    pub key: String,
    pub files: Vec<FileType>,
}

/// Why entities could not be built from the entries.
pub enum ObjectsFromMapError {
    /// The key of a page or a database has no space between name and identifier.
    MalformedName { key: String },
    /// The entries of one key form no page, database or lone directory.
    AmbiguousGrouping { key: String },
}

/// Tag of markdown pages.
pub const KIND_MARKDOWN: u8 = 0;

/// Tag of html pages and rendered database views.
pub const KIND_HTML: u8 = 1;

/// Tag of database views in csv.
pub const KIND_CSV: u8 = 2;

/// Tag of databases' unfiltered entries.
pub const KIND_CSV_ALL: u8 = 3;

/// Tag of directories.
pub const KIND_DIR: u8 = 4;

/// `index`, the key of the root listing, which is never renamed.
pub open spec fn index_key() -> Seq<u8> {
    seq![105u8, 110u8, 100u8, 101u8, 120u8]
}

/// The path of a standard entry of kind `k`.
pub open spec fn path_if(f: FileType, k: u8) -> Option<String> {
    match f {
        FileType::Markdown(i) => if k == KIND_MARKDOWN { Some(i.path) } else { None },
        FileType::Html(i) => if k == KIND_HTML { Some(i.path) } else { None },
        FileType::Csv(i) => if k == KIND_CSV { Some(i.path) } else { None },
        FileType::CsvAll(i) => if k == KIND_CSV_ALL { Some(i.path) } else { None },
        FileType::Dir(i) => if k == KIND_DIR { Some(i.path) } else { None },
        _ => None,
    }
}

/// The path of the last entry of kind `k` in `files`.
pub open spec fn last_path(files: Seq<FileType>, k: u8) -> Option<String>
    decreases files.len(),
{
    if files.len() == 0 {
        None
    } else {
        match path_if(files.last(), k) {
            Some(p) => Some(p),
            None => last_path(files.drop_last(), k),
        }
    }
}

/// The entity of another file.
pub open spec fn other_of(f: FileType) -> Seq<NotionObject> {
    match f {
        FileType::OtherTxt(p) => seq![NotionObject::OtherText { path: p }],
        FileType::OtherBin(p) => seq![NotionObject::OtherBinary { path: p }],
        _ => Seq::empty(),
    }
}

/// The entities of the other files of `files`, in order.
pub open spec fn others_in(files: Seq<FileType>) -> Seq<NotionObject>
    decreases files.len(),
{
    if files.len() == 0 {
        Seq::empty()
    } else {
        others_in(files.drop_last()) + other_of(files.last())
    }
}

/// A page: one markdown or one html file, no csv.
pub open spec fn is_page_combo(files: Seq<FileType>) -> bool {
    &&& (last_path(files, KIND_MARKDOWN).is_some() != last_path(files, KIND_HTML).is_some())
    &&& last_path(files, KIND_CSV).is_none()
    &&& last_path(files, KIND_CSV_ALL).is_none()
}

/// A database: a csv file and no markdown file.
pub open spec fn is_database_combo(files: Seq<FileType>) -> bool {
    last_path(files, KIND_MARKDOWN).is_none() && last_path(files, KIND_CSV).is_some()
}

/// A directory and nothing else.
pub open spec fn is_dir_alone(files: Seq<FileType>) -> bool {
    &&& last_path(files, KIND_MARKDOWN).is_none()
    &&& last_path(files, KIND_HTML).is_none()
    &&& last_path(files, KIND_CSV).is_none()
    &&& last_path(files, KIND_CSV_ALL).is_none()
    &&& last_path(files, KIND_DIR).is_some()
}

/// Some standard entry is among `files`.
pub open spec fn has_standard(files: Seq<FileType>) -> bool {
    last_path(files, KIND_MARKDOWN).is_some() || last_path(files, KIND_HTML).is_some()
        || last_path(files, KIND_CSV).is_some() || last_path(files, KIND_CSV_ALL).is_some()
        || last_path(files, KIND_DIR).is_some()
}

/// The entries of `g` form no page, database or lone directory: the root
/// listing is not one html file alone, other files share a key with
/// standard entries, or the standard entries do not fit together.
pub open spec fn group_ambiguous(g: FileGroup) -> bool {
    let files = g.files@;
    if encode_utf8(g.key@) == index_key() {
        !(files.len() == 1 && last_path(files, KIND_HTML).is_some())
    } else if others_in(files).len() > 0 {
        has_standard(files)
    } else {
        !(is_page_combo(files) || is_database_combo(files) || is_dir_alone(files))
    }
}

/// The entries of `g` form a page or a database whose key has no space.
pub open spec fn group_malformed(g: FileGroup) -> bool {
    &&& !group_ambiguous(g)
    &&& encode_utf8(g.key@) != index_key()
    &&& others_in(g.files@).len() == 0
    &&& (is_page_combo(g.files@) || is_database_combo(g.files@))
    &&& last_index(g.key@, ' ') < 0
}

/// `i` is the information of a new entity with key `key` and primary file
/// `path`: the name before the key's last space, the identifier after it.
pub open spec fn is_new_info(i: NotionObjectInfo, key: Seq<char>, path: String, dir: Option<String>) -> bool {
    let sp = last_index(key, ' ');
    &&& i.path == path
    &&& i.name@ == key.subrange(0, sp)
    &&& i.uuid@ == key.subrange(sp + 1, key.len() as int)
    &&& i.dir_path == dir
    &&& i.new_name.is_none()
    &&& i.replacements@.len() == 0
}

/// `out` holds the entities that the well-formed group `g` gives.
pub open spec fn group_yields(out: Seq<NotionObject>, g: FileGroup) -> bool {
    let files = g.files@;
    let md = last_path(files, KIND_MARKDOWN);
    let html = last_path(files, KIND_HTML);
    let csv = last_path(files, KIND_CSV);
    let csv_all = last_path(files, KIND_CSV_ALL);
    let dir = last_path(files, KIND_DIR);
    if encode_utf8(g.key@) == index_key() {
        out == seq![NotionObject::OtherText { path: html.unwrap() }]
    } else if others_in(files).len() > 0 {
        out == others_in(files)
    } else if is_page_combo(files) {
        &&& out.len() == 1
        &&& out[0] is Page
        &&& is_new_info(out[0]->Page_0, g.key@, if md.is_some() { md.unwrap() } else { html.unwrap() }, dir)
    } else if is_database_combo(files) {
        &&& out.len() == 1
        &&& out[0] is Database
        &&& is_new_info(out[0]->Database_0, g.key@, csv.unwrap(), dir)
        &&& out[0]->Database_1 == NotionDatabaseInfo { csv_all_path: csv_all, html_path: html }
    } else {
        out.len() == 0
    }
}

/// `out` holds, group after group, the entities that the groups `gs` give.
pub open spec fn yields_all(out: Seq<NotionObject>, gs: Seq<FileGroup>) -> bool
    decreases gs.len(),
{
    if gs.len() == 0 {
        out.len() == 0
    } else {
        exists|k: int|
            0 <= k <= out.len() && yields_all(out.subrange(0, k), gs.drop_last()) && group_yields(
                out.subrange(k, out.len() as int),
                gs.last(),
            )
    }
}

/// `e` is the error of the group `g`.
pub open spec fn is_error_of(e: ObjectsFromMapError, g: FileGroup) -> bool {
    match e {
        ObjectsFromMapError::MalformedName { key } => group_malformed(g) && key == g.key,
        ObjectsFromMapError::AmbiguousGrouping { key } => group_ambiguous(g) && key == g.key,
    }
}

/// The standard entries of a group, by kind, and its other files.
struct GroupScan {
    md: Option<String>,
    html: Option<String>,
    csv: Option<String>,
    csv_all: Option<String>,
    dir: Option<String>,
    others: Vec<NotionObject>,
}

fn scan_group(files: &Vec<FileType>) -> (r: GroupScan)
    ensures
        r.md == last_path(files@, KIND_MARKDOWN),
        r.html == last_path(files@, KIND_HTML),
        r.csv == last_path(files@, KIND_CSV),
        r.csv_all == last_path(files@, KIND_CSV_ALL),
        r.dir == last_path(files@, KIND_DIR),
        r.others@ == others_in(files@),
{
    let mut r = GroupScan { md: None, html: None, csv: None, csv_all: None, dir: None, others: Vec::new() };
    let mut k: usize = 0;
    assert(files@.subrange(0, 0) =~= Seq::<FileType>::empty());
    while k < files.len()
        invariant
            k <= files@.len(),
            r.md == last_path(files@.subrange(0, k as int), KIND_MARKDOWN),
            r.html == last_path(files@.subrange(0, k as int), KIND_HTML),
            r.csv == last_path(files@.subrange(0, k as int), KIND_CSV),
            r.csv_all == last_path(files@.subrange(0, k as int), KIND_CSV_ALL),
            r.dir == last_path(files@.subrange(0, k as int), KIND_DIR),
            r.others@ == others_in(files@.subrange(0, k as int)),
        decreases files@.len() - k,
    {
        let ghost pre = files@.subrange(0, k + 1);
        assert(pre.drop_last() =~= files@.subrange(0, k as int));
        assert(pre.last() == files@[k as int]);
        let ghost before = r.others@;
        match &files[k] {
            FileType::Markdown(i) => r.md = Some(i.path.clone()),
            FileType::Html(i) => r.html = Some(i.path.clone()),
            FileType::Csv(i) => r.csv = Some(i.path.clone()),
            FileType::CsvAll(i) => r.csv_all = Some(i.path.clone()),
            FileType::Dir(i) => r.dir = Some(i.path.clone()),
            FileType::OtherTxt(p) => {
                r.others.push(NotionObject::OtherText { path: p.clone() });
                assert(r.others@ =~= before + other_of(files@[k as int]));
            },
            FileType::OtherBin(p) => {
                r.others.push(NotionObject::OtherBinary { path: p.clone() });
                assert(r.others@ =~= before + other_of(files@[k as int]));
            },
        }
        proof {
            if !(files@[k as int] is OtherTxt || files@[k as int] is OtherBin) {
                assert(r.others@ =~= before + other_of(files@[k as int]));
            }
        }
        k = k + 1;
    }
    assert(files@.subrange(0, k as int) =~= files@);
    r
}

/// The information of a new entity with key `key` and primary file `path`.
fn new_info(key: &String, path: String, dir: Option<String>) -> (r: Option<NotionObjectInfo>)
    ensures
        r.is_none() <==> last_index(key@, ' ') < 0,
        r.is_some() ==> is_new_info(r.unwrap(), key@, path, dir),
{
    match find_last_char(key.as_str(), ' ') {
        Some(sp) => {
            let name = key.as_str().substring_char(0, sp).to_owned();
            let uuid = key.as_str().substring_char(sp + 1, key.as_str().unicode_len()).to_owned();
            Some(NotionObjectInfo { path, name, uuid, dir_path: dir, new_name: None, replacements: Vec::new() })
        },
        None => None,
    }
}

/// The entities of one group of entries.
fn group_objects(g: &FileGroup) -> (r: Result<Vec<NotionObject>, ObjectsFromMapError>)
    ensures
        r.is_ok() <==> !group_ambiguous(*g) && !group_malformed(*g),
        r.is_ok() ==> group_yields(r->Ok_0@, *g),
        r.is_err() ==> is_error_of(r->Err_0, *g),
{
    let scan = scan_group(&g.files);
    let key_bytes = text_bytes(g.key.as_str());
    let index: Vec<u8> = vec![105u8, 110u8, 100u8, 101u8, 120u8];
    assert(index@ =~= index_key());
    let is_index = key_bytes.len() == index.len() && crate::bytes::matches_at(key_bytes.as_slice(), index.as_slice(), 0);
    assert(is_index == (encode_utf8(g.key@) == index_key())) by {
        if key_bytes@.len() == index@.len() {
            assert(key_bytes@.subrange(0, index@.len() as int) =~= key_bytes@);
        }
    }
    let GroupScan { md, html, csv, csv_all, dir, others } = scan;
    if is_index {
        if g.files.len() == 1 && html.is_some() {
            let mut out: Vec<NotionObject> = Vec::new();
            out.push(NotionObject::OtherText { path: html.unwrap() });
            assert(out@ =~= seq![NotionObject::OtherText { path: last_path(g.files@, KIND_HTML).unwrap() }]);
            return Ok(out);
        }
        return Err(ObjectsFromMapError::AmbiguousGrouping { key: g.key.clone() });
    }
    if others.len() > 0 {
        if md.is_some() || html.is_some() || csv.is_some() || csv_all.is_some() || dir.is_some() {
            return Err(ObjectsFromMapError::AmbiguousGrouping { key: g.key.clone() });
        }
        return Ok(others);
    }
    let page = (md.is_some() != html.is_some()) && csv.is_none() && csv_all.is_none();
    let database = md.is_none() && csv.is_some();
    if page {
        let path = match md {
            Some(p) => p,
            None => html.unwrap(),
        };
        match new_info(&g.key, path, dir) {
            Some(info) => {
                let mut out: Vec<NotionObject> = Vec::new();
                out.push(NotionObject::Page(info));
                Ok(out)
            },
            None => Err(ObjectsFromMapError::MalformedName { key: g.key.clone() }),
        }
    } else if database {
        match new_info(&g.key, csv.unwrap(), dir) {
            Some(info) => {
                let mut out: Vec<NotionObject> = Vec::new();
                out.push(NotionObject::Database(info, NotionDatabaseInfo { csv_all_path: csv_all, html_path: html }));
                Ok(out)
            },
            None => Err(ObjectsFromMapError::MalformedName { key: g.key.clone() }),
        }
    } else if md.is_none() && html.is_none() && csv.is_none() && csv_all.is_none() && dir.is_some() {
        Ok(Vec::new())
    } else {
        Err(ObjectsFromMapError::AmbiguousGrouping { key: g.key.clone() })
    }
}

impl NotionObject {
    /// Builds the entities of the groups of entries, group after group: a
    /// page, a database, the other files of a key, or nothing for a lone
    /// directory; the root listing becomes an other text file. Fails on the
    /// first group that forms none of these, or whose page or database key
    /// has no space between name and identifier.
    pub fn objects_from_map(all_files: &Vec<FileGroup>) -> (r: Result<Vec<NotionObject>, ObjectsFromMapError>)
        ensures
            r.is_ok() <==> forall|i: int|
                0 <= i < all_files@.len() ==> !group_ambiguous(#[trigger] all_files@[i]) && !group_malformed(
                    all_files@[i],
                ),
            r.is_ok() ==> yields_all(r->Ok_0@, all_files@),
            r.is_err() ==> exists|i: int|
                0 <= i < all_files@.len() && is_error_of(r->Err_0, #[trigger] all_files@[i]) && forall|j: int|
                    0 <= j < i ==> !group_ambiguous(#[trigger] all_files@[j]) && !group_malformed(all_files@[j]),
    {
        let ghost gs = all_files@;
        let mut notion_objects: Vec<NotionObject> = Vec::new();
        let mut i: usize = 0;
        assert(gs.subrange(0, 0) =~= Seq::<FileGroup>::empty());
        while i < all_files.len()
            invariant
                i <= gs.len(),
                gs == all_files@,
                forall|j: int| 0 <= j < i ==> !group_ambiguous(#[trigger] gs[j]) && !group_malformed(gs[j]),
                yields_all(notion_objects@, gs.subrange(0, i as int)),
            decreases gs.len() - i,
        {
            match group_objects(&all_files[i]) {
                Ok(mut objects) => {
                    let ghost before = notion_objects@;
                    let ghost produced = objects@;
                    notion_objects.append(&mut objects);
                    proof {
                        let pre = gs.subrange(0, i + 1);
                        assert(pre.drop_last() =~= gs.subrange(0, i as int));
                        assert(pre.last() == gs[i as int]);
                        let k = before.len() as int;
                        assert(notion_objects@.subrange(0, k) =~= before);
                        assert(notion_objects@.subrange(k, notion_objects@.len() as int) =~= produced);
                        assert(yields_all(notion_objects@, pre));
                    }
                },
                Err(e) => {
                    return Err(e);
                },
            }
            i = i + 1;
        }
        assert(gs.subrange(0, i as int) =~= gs);
        Ok(notion_objects)
    }
}

} // verus!
