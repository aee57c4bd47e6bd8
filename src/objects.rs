//! The entities of an exported tree: pages, databases and other files.

use vstd::prelude::*;
use vstd::string::*;
use crate::encoding::{build_replacement_tokens, is_token_set, ReplacementToken};
use crate::paths::{path_stem, stem};

verus! {

/// What pages and databases have in common.
pub struct NotionObjectInfo {
    /// The primary file.
    pub path: String,
    /// The display name: the file name without its identifier.
    pub name: String,
    /// The identifier that made the exported name unique.
    pub uuid: String,
    /// The directory of the same name as the file, if there is one.
    pub dir_path: Option<String>,
    /// The name that replaces `name identifier`, once it is resolved.
    pub new_name: Option<String>,
    /// What to look for in content and what replaces it, built when the new
    /// name is set.
    pub replacements: Vec<ReplacementToken>,
}

/// The companion files of a database.
pub struct NotionDatabaseInfo {
    /// The file of the unfiltered entries (`name identifier_all.csv`).
    pub csv_all_path: Option<String>,
    /// The file that renders a view of the database.
    pub html_path: Option<String>,
}

/// A page, a database, or a file that keeps its name.
pub enum NotionObject {
    Page(NotionObjectInfo),
    Database(NotionObjectInfo, NotionDatabaseInfo),
    OtherText { path: String },
    OtherBinary { path: String },
}

/// `name identifier`.
pub open spec fn name_uuid_of(name: Seq<char>, uuid: Seq<char>) -> Seq<char> {
    name + seq![' '] + uuid
}

/// `after` is `before` with the new name `new`, and with the replacement
/// tokens from its exported name to `new`; other files stay as they are.
pub open spec fn renamed_to(after: NotionObject, before: NotionObject, new: Seq<char>) -> bool {
    if before.renamable() {
        &&& (after is Page <==> before is Page)
        &&& (after is Database <==> before is Database)
        &&& (before is Database ==> after->Database_1 == before->Database_1)
        &&& after.info().path == before.info().path
        &&& after.info().name == before.info().name
        &&& after.info().uuid == before.info().uuid
        &&& after.info().dir_path == before.info().dir_path
        &&& after.info().new_name.is_some()
        &&& after.info().new_name.unwrap()@ == new
        &&& is_token_set(
            after.info().replacements@,
            name_uuid_of(before.info().name@, before.info().uuid@),
            new,
        )
    } else {
        after == before
    }
}

impl NotionObject {
    /// A page or a database.
    pub open spec fn renamable(&self) -> bool {
        self is Page || self is Database
    }

    /// The shared information of a page or a database.
    pub open spec fn info(&self) -> NotionObjectInfo
        recommends
            self.renamable(),
    {
        match self {
            NotionObject::Page(i) => *i,
            NotionObject::Database(i, _) => *i,
            _ => arbitrary(),
        }
    }

    /// The path of the primary file.
    pub open spec fn path_of(&self) -> Seq<char> {
        match self {
            NotionObject::Page(i) => i.path@,
            NotionObject::Database(i, _) => i.path@,
            NotionObject::OtherText { path } => path@,
            NotionObject::OtherBinary { path } => path@,
        }
    }

    /// The name that other entities wanting the same one compete with.
    pub open spec fn name_of(&self) -> Seq<char> {
        if self.renamable() {
            self.info().name@
        } else {
            stem(self.path_of())
        }
    }

    /// The exported name: `name identifier`, or the stem of another file.
    pub open spec fn name_uuid_spec(&self) -> Seq<char> {
        if self.renamable() {
            name_uuid_of(self.info().name@, self.info().uuid@)
        } else {
            stem(self.path_of())
        }
    }

    /// The exported name of this entity.
    pub fn get_name_uuid(&self) -> (r: String)
        ensures
            r@ == self.name_uuid_spec(),
    {
        match self {
            NotionObject::Page(info) | NotionObject::Database(info, _) => {
                let with_space = info.name.clone().concat(" ");
                let r = with_space.concat(info.uuid.as_str());
                proof {
                    reveal_strlit(" ");
                }
                assert(r@ =~= name_uuid_of(info.name@, info.uuid@));
                r
            },
            NotionObject::OtherText { path } | NotionObject::OtherBinary { path } => {
                path_stem(path.as_str()).to_owned()
            },
        }
    }

    /// Is this a page or a database?
    pub fn is_renamable(&self) -> (r: bool)
        ensures
            r == self.renamable(),
    {
        match self {
            NotionObject::Page(_) | NotionObject::Database(_, _) => true,
            NotionObject::OtherText { .. } | NotionObject::OtherBinary { .. } => false,
        }
    }

    /// Is this a page or a database?
    pub fn is_page_or_dataset(&self) -> (r: bool)
        ensures
            r == self.renamable(),
    {
        self.is_renamable()
    }

    /// Is this a file that keeps its name?
    pub fn is_other(&self) -> (r: bool)
        ensures
            r == !self.renamable(),
    {
        !self.is_renamable()
    }

    /// Is there a directory that belongs to this entity?
    pub fn has_dir(&self) -> (r: bool)
        ensures
            r == (self.renamable() && self.info().dir_path.is_some()),
    {
        match self {
            NotionObject::Page(info) | NotionObject::Database(info, _) => info.dir_path.is_some(),
            NotionObject::OtherText { .. } | NotionObject::OtherBinary { .. } => false,
        }
    }

    /// The directory that belongs to this entity, if any.
    pub fn get_dir(&self) -> (r: Option<&String>)
        ensures
            match r {
                Some(d) => self.renamable() && self.info().dir_path == Some(*d),
                None => !(self.renamable() && self.info().dir_path.is_some()),
            },
    {
        match self {
            NotionObject::Page(info) | NotionObject::Database(info, _) => info.dir_path.as_ref(),
            NotionObject::OtherText { .. } | NotionObject::OtherBinary { .. } => None,
        }
    }

    /// The name that this entity wants: its display name, or the stem of
    /// another file.
    pub fn get_name(&self) -> (r: String)
        ensures
            r@ == self.name_of(),
    {
        match self {
            NotionObject::Page(info) | NotionObject::Database(info, _) => info.name.clone(),
            NotionObject::OtherText { path } | NotionObject::OtherBinary { path } => {
                path_stem(path.as_str()).to_owned()
            },
        }
    }

    /// Gives a page or a database its new name, with the replacement tokens
    /// from its exported name to that name. Other files keep their name.
    pub fn try_set_new_name(&mut self, new_name: String)
        ensures
            renamed_to(*final(self), *old(self), new_name@),
    {
        let old_name = self.get_name_uuid();
        match self {
            NotionObject::Page(info) => {
                info.replacements = build_replacement_tokens(old_name.as_str(), new_name.as_str());
                info.new_name = Some(new_name);
            },
            NotionObject::Database(info, _) => {
                info.replacements = build_replacement_tokens(old_name.as_str(), new_name.as_str());
                info.new_name = Some(new_name);
            },
            NotionObject::OtherText { .. } | NotionObject::OtherBinary { .. } => {},
        }
    }

    /// The path of the primary file.
    pub fn get_path(&self) -> (r: &String)
        ensures
            r@ == self.path_of(),
    {
        match self {
            NotionObject::Page(info) | NotionObject::Database(info, _) => &info.path,
            NotionObject::OtherText { path } | NotionObject::OtherBinary { path } => path,
        }
    }
}

} // verus!
