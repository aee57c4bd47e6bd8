use notion_export_cleaner::objects::{NotionDatabaseInfo, NotionObject, NotionObjectInfo};
use notion_export_cleaner::rename::{rename_directories, rename_objects_files};

fn info(path: &str, name: &str, uuid: &str, dir: Option<&str>, new_name: &str) -> NotionObjectInfo {
    NotionObjectInfo {
        path: path.to_string(),
        name: name.to_string(),
        uuid: uuid.to_string(),
        dir_path: dir.map(|d| d.to_string()),
        new_name: Some(new_name.to_string()),
        replacements: Vec::new(),
    }
}

fn text(v: &[u8]) -> String {
    String::from_utf8(v.to_vec()).unwrap()
}

#[test]
fn deeper_directory_is_renamed_first() {
    let objects = vec![
        NotionObject::Page(info("Top 1.md", "Top", "1", Some("Top 1"), "Top")),
        NotionObject::Page(info("Top 1/Mid 2/Low 3.md", "Low", "3", Some("Top 1/Mid 2/Low 3"), "Low")),
    ];
    let ops = rename_directories(&objects);
    let pairs: Vec<(String, String)> = ops.iter().map(|o| (text(&o.from), text(&o.to))).collect();
    assert_eq!(
        pairs,
        vec![
            ("Top 1/Mid 2/Low 3".to_string(), "Top 1/Mid 2/Low".to_string()),
            ("Top 1".to_string(), "Top".to_string()),
        ]
    );
}

#[test]
fn files_and_companions_are_renamed() {
    let objects = vec![
        NotionObject::Database(
            info("root/Tasks 9f.csv", "Tasks", "9f", None, "Tasks"),
            NotionDatabaseInfo {
                csv_all_path: Some("root/Tasks 9f_all.csv".to_string()),
                html_path: Some("root/Tasks 9f.html".to_string()),
            },
        ),
        NotionObject::OtherText { path: "root/readme.txt".to_string() },
        NotionObject::Page(info("root/Home 01.md", "Home", "01", None, "Home 1")),
    ];
    let ops = rename_objects_files(&objects);
    let pairs: Vec<(String, String)> = ops.iter().map(|o| (text(&o.from), text(&o.to))).collect();
    assert_eq!(
        pairs,
        vec![
            ("root/Tasks 9f.csv".to_string(), "root/Tasks.csv".to_string()),
            ("root/Tasks 9f_all.csv".to_string(), "root/Tasks_all.csv".to_string()),
            ("root/Tasks 9f.html".to_string(), "root/Tasks.html".to_string()),
            ("root/Home 01.md".to_string(), "root/Home 1.md".to_string()),
        ]
    );
    assert_eq!(NotionObject::rename_objects_files(&objects).len(), 4);
    assert_eq!(NotionObject::rename_directories(&objects).len(), 0);
}
