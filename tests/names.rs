use notion_export_cleaner::entities::FileGroup;
use notion_export_cleaner::file_type::{FileInfo, FileType};
use notion_export_cleaner::names::{resolve_new_names, NameGroup};
use notion_export_cleaner::objects::NotionObject;

fn md_group(dir: &str, key: &str) -> FileGroup {
    FileGroup {
        key: key.to_string(),
        files: vec![FileType::Markdown(FileInfo {
            path: format!("{}/{}.md", dir, key),
            name_uuid: key.to_string(),
        })],
    }
}

fn resolved(groups: &Vec<NameGroup>) -> Vec<(String, String)> {
    let mut out = Vec::new();
    for g in groups {
        for o in &g.objects {
            if let NotionObject::Page(info) | NotionObject::Database(info, _) = o {
                out.push((info.uuid.clone(), info.new_name.clone().unwrap()));
            }
        }
    }
    out.sort();
    out
}

fn build(groups: Vec<FileGroup>) -> Vec<NameGroup> {
    let objects = match NotionObject::objects_from_map(&groups) {
        Ok(v) => v,
        Err(_) => panic!("entries should form entities"),
    };
    let mut by_name = NotionObject::build_map_by_name(objects);
    resolve_new_names(&mut by_name);
    by_name
}

#[test]
fn lone_entity_keeps_display_name() {
    let groups = build(vec![md_group("export", "Project Plan abcd1234")]);
    assert_eq!(groups.len(), 1);
    assert_eq!(groups[0].name, "Project Plan");
    assert_eq!(resolved(&groups), vec![("abcd1234".to_string(), "Project Plan".to_string())]);
}

#[test]
fn colliding_entities_get_suffix_by_identifier_order() {
    let groups = build(vec![
        md_group("export", "Project Plan bbbb0002"),
        md_group("export", "Project Plan aaaa0001"),
    ]);
    assert_eq!(groups.len(), 1);
    assert_eq!(
        resolved(&groups),
        vec![
            ("aaaa0001".to_string(), "Project Plan".to_string()),
            ("bbbb0002".to_string(), "Project Plan 1".to_string()),
        ]
    );
}

#[test]
fn resolution_does_not_depend_on_input_order() {
    let a = build(vec![
        md_group("export", "Notes cccc0003"),
        md_group("export", "Notes aaaa0001"),
        md_group("export", "Notes bbbb0002"),
    ]);
    let b = build(vec![
        md_group("export", "Notes bbbb0002"),
        md_group("export", "Notes cccc0003"),
        md_group("export", "Notes aaaa0001"),
    ]);
    assert_eq!(resolved(&a), resolved(&b));
    assert_eq!(
        resolved(&a),
        vec![
            ("aaaa0001".to_string(), "Notes".to_string()),
            ("bbbb0002".to_string(), "Notes 1".to_string()),
            ("cccc0003".to_string(), "Notes 2".to_string()),
        ]
    );
}

#[test]
fn resolved_names_in_one_directory_are_distinct() {
    let groups = build(vec![
        md_group("export", "Idea 01"),
        md_group("export", "Idea 02"),
        md_group("export", "Idea 03"),
        md_group("export", "Idea 04"),
    ]);
    let names: Vec<String> = resolved(&groups).into_iter().map(|(_, n)| n).collect();
    let mut unique = names.clone();
    unique.sort();
    unique.dedup();
    assert_eq!(names.len(), 4);
    assert_eq!(unique.len(), 4);
}

#[test]
fn same_name_in_different_directories_needs_no_suffix() {
    let groups = build(vec![md_group("export/a", "Todo 1111"), md_group("export/b", "Todo 2222")]);
    assert_eq!(
        resolved(&groups),
        vec![("1111".to_string(), "Todo".to_string()), ("2222".to_string(), "Todo".to_string())]
    );
}

#[test]
fn other_files_are_grouped_but_not_renamed() {
    let groups = build(vec![
        md_group("export", "Plan 1234"),
        FileGroup { key: "Plan".to_string(), files: vec![FileType::OtherBin("export/Plan.png".to_string())] },
    ]);
    assert_eq!(groups.len(), 1);
    assert_eq!(groups[0].objects.len(), 2);
    assert_eq!(resolved(&groups), vec![("1234".to_string(), "Plan".to_string())]);
    let other = groups[0].objects.iter().find(|o| o.is_other()).unwrap();
    assert_eq!(other.get_path(), "export/Plan.png");
    assert_eq!(other.get_name(), "Plan");
}

#[test]
fn resolution_ignores_order_with_other_files_in_the_group() {
    let png = || FileGroup { key: "Draft".to_string(), files: vec![FileType::OtherBin("export/Draft.png".to_string())] };
    let a = build(vec![md_group("export", "Draft 22"), png(), md_group("export", "Draft 11")]);
    let b = build(vec![png(), md_group("export", "Draft 11"), md_group("export", "Draft 22")]);
    assert_eq!(resolved(&a), resolved(&b));
    assert_eq!(
        resolved(&a),
        vec![("11".to_string(), "Draft".to_string()), ("22".to_string(), "Draft 1".to_string())]
    );
}
