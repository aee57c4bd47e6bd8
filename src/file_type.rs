//! Classified entries of an exported tree.

use vstd::prelude::*;
use vstd::string::*;
use crate::paths::{extension, path_extension, path_stem, same_text, stem};

verus! {

/// A standard entry: its path, and its stem `name identifier`.
pub struct FileInfo {
    pub path: String,
    pub name_uuid: String,
}

/// An entry of the tree, classified.
pub enum FileType {
    Markdown(FileInfo),
    Html(FileInfo),
    Csv(FileInfo),
    CsvAll(FileInfo),
    Dir(FileInfo),
    OtherTxt(String),
    OtherBin(String),
}

/// `md`
pub open spec fn md_ext() -> Seq<char> {
    seq!['m', 'd']
}

/// `html`
pub open spec fn html_ext() -> Seq<char> {
    seq!['h', 't', 'm', 'l']
}

/// `csv`
pub open spec fn csv_ext() -> Seq<char> {
    seq!['c', 's', 'v']
}

/// `_all`, which ends the stem of the file of a database's unfiltered entries.
pub open spec fn all_suffix() -> Seq<char> {
    seq!['_', 'a', 'l', 'l']
}

impl FileType {
    /// The key that groups the entries of one entity: `name identifier`
    /// (without `_all`), or the stem of another file.
    pub open spec fn key(&self) -> Seq<char> {
        match self {
            FileType::Markdown(i) => i.name_uuid@,
            FileType::Html(i) => i.name_uuid@,
            FileType::Csv(i) => i.name_uuid@,
            FileType::CsvAll(i) => i.name_uuid@,
            FileType::Dir(i) => i.name_uuid@,
            FileType::OtherTxt(p) => stem(p@),
            FileType::OtherBin(p) => stem(p@),
        }
    }

    /// The path of the entry.
    pub open spec fn path_of(&self) -> String {
        match self {
            FileType::Markdown(i) => i.path,
            FileType::Html(i) => i.path,
            FileType::Csv(i) => i.path,
            FileType::CsvAll(i) => i.path,
            FileType::Dir(i) => i.path,
            FileType::OtherTxt(p) => *p,
            FileType::OtherBin(p) => *p,
        }
    }

    /// The key that groups the entries of one entity.
    pub fn get_file_key(&self) -> (r: &str)
        ensures
            r@ == self.key(),
    {
        match self {
            FileType::Markdown(file_info)
            | FileType::Html(file_info)
            | FileType::Csv(file_info)
            | FileType::CsvAll(file_info)
            | FileType::Dir(file_info) => file_info.name_uuid.as_str(),
            FileType::OtherTxt(path) | FileType::OtherBin(path) => path_stem(path.as_str()),
        }
    }

    /// The path of the entry.
    pub fn get_path(&self) -> (r: &String)
        ensures
            *r == self.path_of(),
    {
        match self {
            FileType::Markdown(file_info)
            | FileType::Html(file_info)
            | FileType::Csv(file_info)
            | FileType::CsvAll(file_info)
            | FileType::Dir(file_info) => &file_info.path,
            FileType::OtherTxt(path) | FileType::OtherBin(path) => path,
        }
    }

    /// Does the entry hold text whose references are rewritten?
    pub fn is_readable_type(&self) -> (r: bool)
        ensures
            r == !(self is Dir || self is OtherBin),
    {
        match self {
            FileType::Dir(_) | FileType::OtherBin(_) => false,
            _ => true,
        }
    }

    /// Classifies the entry at `path`: a directory; a markdown, html or csv
    /// file (a csv whose stem ends in `_all` holds a database's unfiltered
    /// entries, and its key leaves the `_all` out); or another file, text
    /// when `is_text`.
    pub fn classify(path: String, is_dir: bool, is_text: bool) -> (r: FileType)
        ensures
            r.path_of() == path,
            is_dir ==> r is Dir && r.key() == stem(path@),
            !is_dir && extension(path@) == Some(md_ext()) ==> r is Markdown && r.key() == stem(path@),
            !is_dir && extension(path@) == Some(html_ext()) ==> r is Html && r.key() == stem(path@),
            !is_dir && extension(path@) == Some(csv_ext()) && stem(path@).len() >= 4 && stem(path@).subrange(
                stem(path@).len() - 4,
                stem(path@).len() as int,
            ) == all_suffix() ==> r is CsvAll && r.key() == stem(path@).subrange(0, stem(path@).len() - 4),
            !is_dir && extension(path@) == Some(csv_ext()) && !(stem(path@).len() >= 4 && stem(path@).subrange(
                stem(path@).len() - 4,
                stem(path@).len() as int,
            ) == all_suffix()) ==> r is Csv && r.key() == stem(path@),
            !is_dir && extension(path@) != Some(md_ext()) && extension(path@) != Some(html_ext())
                && extension(path@) != Some(csv_ext()) ==> (if is_text {
                r is OtherTxt
            } else {
                r is OtherBin
            }),
    {
        let name_uuid = path_stem(path.as_str()).to_owned();
        if is_dir {
            return FileType::Dir(FileInfo { path, name_uuid });
        }
        let ext: Option<String> = match path_extension(path.as_str()) {
            Some(e) => Some(e.to_owned()),
            None => None,
        };
        proof {
            reveal_strlit("md");
            reveal_strlit("html");
            reveal_strlit("csv");
            reveal_strlit("_all");
        }
        match ext {
            Some(e) => {
                if same_text(e.as_str(), "md") {
                    assert(e@ =~= md_ext());
                    FileType::Markdown(FileInfo { path, name_uuid })
                } else if same_text(e.as_str(), "html") {
                    assert(e@ =~= html_ext());
                    FileType::Html(FileInfo { path, name_uuid })
                } else if same_text(e.as_str(), "csv") {
                    assert(e@ =~= csv_ext());
                    let n = name_uuid.as_str().unicode_len();
                    if n >= 4 && same_text(name_uuid.as_str().substring_char(n - 4, n), "_all") {
                        assert(all_suffix() =~= "_all"@);
                        let key = name_uuid.as_str().substring_char(0, n - 4).to_owned();
                        FileType::CsvAll(FileInfo { path, name_uuid: key })
                    } else {
                        proof {
                            if n >= 4 && stem(path@).subrange(n - 4, n as int) == all_suffix() {
                                assert(all_suffix() =~= "_all"@);
                            }
                        }
                        FileType::Csv(FileInfo { path, name_uuid })
                    }
                } else {
                    proof {
                        if e@ == md_ext() {
                            assert(e@ =~= "md"@);
                        }
                        if e@ == html_ext() {
                            assert(e@ =~= "html"@);
                        }
                        if e@ == csv_ext() {
                            assert(e@ =~= "csv"@);
                        }
                    }
                    if is_text {
                        FileType::OtherTxt(path)
                    } else {
                        FileType::OtherBin(path)
                    }
                }
            },
            None => {
                if is_text {
                    FileType::OtherTxt(path)
                } else {
                    FileType::OtherBin(path)
                }
            },
        }
    }
}

} // verus!
