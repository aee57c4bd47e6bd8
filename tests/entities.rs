use notion_export_cleaner::entities::{FileGroup, ObjectsFromMapError};
use notion_export_cleaner::file_type::{FileInfo, FileType};
use notion_export_cleaner::objects::NotionObject;

fn info(path: &str, key: &str) -> FileInfo {
    FileInfo { path: path.to_string(), name_uuid: key.to_string() }
}

#[test]
fn page_with_directory() {
    let groups = vec![FileGroup {
        key: "My Page 1a2b".to_string(),
        files: vec![
            FileType::Dir(info("root/My Page 1a2b", "My Page 1a2b")),
            FileType::Markdown(info("root/My Page 1a2b.md", "My Page 1a2b")),
        ],
    }];
    let objects = match NotionObject::objects_from_map(&groups) {
        Ok(v) => v,
        Err(_) => panic!("a page"),
    };
    assert_eq!(objects.len(), 1);
    match &objects[0] {
        NotionObject::Page(i) => {
            assert_eq!(i.name, "My Page");
            assert_eq!(i.uuid, "1a2b");
            assert_eq!(i.path, "root/My Page 1a2b.md");
            assert_eq!(i.dir_path.as_deref(), Some("root/My Page 1a2b"));
            assert!(i.new_name.is_none());
        }
        _ => panic!("a page"),
    }
    assert_eq!(objects[0].get_name_uuid(), "My Page 1a2b");
    assert!(objects[0].has_dir());
    assert_eq!(objects[0].get_dir().map(|d| d.as_str()), Some("root/My Page 1a2b"));
}

#[test]
fn database_with_companions() {
    let groups = vec![FileGroup {
        key: "Tasks 9f9f".to_string(),
        files: vec![
            FileType::Csv(info("root/Tasks 9f9f.csv", "Tasks 9f9f")),
            FileType::CsvAll(info("root/Tasks 9f9f_all.csv", "Tasks 9f9f")),
            FileType::Html(info("root/Tasks 9f9f.html", "Tasks 9f9f")),
        ],
    }];
    let objects = match NotionObject::objects_from_map(&groups) {
        Ok(v) => v,
        Err(_) => panic!("a database"),
    };
    match &objects[0] {
        NotionObject::Database(i, db) => {
            assert_eq!(i.name, "Tasks");
            assert_eq!(i.uuid, "9f9f");
            assert_eq!(i.path, "root/Tasks 9f9f.csv");
            assert_eq!(db.csv_all_path.as_deref(), Some("root/Tasks 9f9f_all.csv"));
            assert_eq!(db.html_path.as_deref(), Some("root/Tasks 9f9f.html"));
        }
        _ => panic!("a database"),
    }
}

#[test]
fn lone_directory_gives_nothing_and_index_is_other_text() {
    let groups = vec![
        FileGroup { key: "assets".to_string(), files: vec![FileType::Dir(info("root/assets", "assets"))] },
        FileGroup { key: "index".to_string(), files: vec![FileType::Html(info("root/index.html", "index"))] },
    ];
    let objects = match NotionObject::objects_from_map(&groups) {
        Ok(v) => v,
        Err(_) => panic!("valid entries"),
    };
    assert_eq!(objects.len(), 1);
    match &objects[0] {
        NotionObject::OtherText { path } => assert_eq!(path, "root/index.html"),
        _ => panic!("the root listing"),
    }
}

#[test]
fn key_without_space_is_malformed() {
    let groups = vec![FileGroup {
        key: "Untitled".to_string(),
        files: vec![FileType::Markdown(info("root/Untitled.md", "Untitled"))],
    }];
    match NotionObject::objects_from_map(&groups) {
        Err(ObjectsFromMapError::MalformedName { key }) => assert_eq!(key, "Untitled"),
        _ => panic!("a malformed name"),
    }
}

#[test]
fn page_and_database_files_under_one_key_are_ambiguous() {
    let groups = vec![FileGroup {
        key: "Mixed 77".to_string(),
        files: vec![
            FileType::Markdown(info("root/Mixed 77.md", "Mixed 77")),
            FileType::Csv(info("root/Mixed 77.csv", "Mixed 77")),
        ],
    }];
    match NotionObject::objects_from_map(&groups) {
        Err(ObjectsFromMapError::AmbiguousGrouping { key }) => assert_eq!(key, "Mixed 77"),
        _ => panic!("ambiguous entries"),
    }
}

#[test]
fn unfiltered_entries_with_directory_but_no_view_are_ambiguous() {
    let groups = vec![FileGroup {
        key: "Db 12".to_string(),
        files: vec![
            FileType::CsvAll(info("root/Db 12_all.csv", "Db 12")),
            FileType::Dir(info("root/Db 12", "Db 12")),
        ],
    }];
    assert!(matches!(
        NotionObject::objects_from_map(&groups),
        Err(ObjectsFromMapError::AmbiguousGrouping { .. })
    ));
}

#[test]
fn classify_entries() {
    let d = FileType::classify("root/Page 12".to_string(), true, false);
    assert!(matches!(d, FileType::Dir(_)));
    assert_eq!(d.get_file_key(), "Page 12");
    let m = FileType::classify("root/Page 12.md".to_string(), false, true);
    assert!(matches!(m, FileType::Markdown(_)));
    assert_eq!(m.get_file_key(), "Page 12");
    let a = FileType::classify("root/Db 34_all.csv".to_string(), false, true);
    assert!(matches!(a, FileType::CsvAll(_)));
    assert_eq!(a.get_file_key(), "Db 34");
    let c = FileType::classify("root/Db 34.csv".to_string(), false, true);
    assert!(matches!(c, FileType::Csv(_)));
    let h = FileType::classify("root/Db 34.html".to_string(), false, true);
    assert!(matches!(h, FileType::Html(_)));
    let t = FileType::classify("root/notes.txt".to_string(), false, true);
    assert!(matches!(t, FileType::OtherTxt(_)));
    assert_eq!(t.get_file_key(), "notes");
    let b = FileType::classify("root/photo.png".to_string(), false, false);
    assert!(matches!(b, FileType::OtherBin(_)));
    assert!(!b.is_readable_type());
    assert!(t.is_readable_type());
    assert_eq!(b.get_path(), "root/photo.png");
}
