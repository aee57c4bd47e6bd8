use notion_export_cleaner::encoding::build_replacement_tokens;
use notion_export_cleaner::locate::prepare_rename_refs_in_content;
use notion_export_cleaner::objects::{NotionObject, NotionObjectInfo};
use notion_export_cleaner::paths::relative_path_to;
use notion_export_cleaner::rewrite::rename_refs_in_file;
use notion_export_cleaner::splice::{do_rename_refs_in_content, ReplaceDescriptor};
use notion_export_cleaner::validate::RenameRefsInFileError;

fn page(path: &str, name: &str, uuid: &str, new_name: &str) -> NotionObject {
    let mut o = NotionObject::Page(NotionObjectInfo {
        path: path.to_string(),
        name: name.to_string(),
        uuid: uuid.to_string(),
        dir_path: None,
        new_name: None,
        replacements: Vec::new(),
    });
    o.try_set_new_name(new_name.to_string());
    o
}

#[test]
fn replacement_tokens_cover_four_encodings() {
    let t = build_replacement_tokens("R&D Plan abcd1234", "R&D Plan");
    let olds: Vec<String> = t.iter().map(|x| String::from_utf8(x.old_ref.clone()).unwrap()).collect();
    let news: Vec<String> = t.iter().map(|x| String::from_utf8(x.new_ref.clone()).unwrap()).collect();
    assert_eq!(
        olds,
        vec!["R&D Plan abcd1234", "R%26D%20Plan%20abcd1234", "R&amp;D Plan abcd1234", "R%26amp%3BD%20Plan%20abcd1234"]
    );
    assert_eq!(news, vec!["R&D Plan", "R%26D%20Plan", "R&amp;D Plan", "R%26amp%3BD%20Plan"]);
}

#[test]
fn every_encoded_form_is_rewritten() {
    let objects = vec![page("root/R&D Plan abcd1234.md", "R&D Plan", "abcd1234", "R&D Plan")];
    let content = b"R&D Plan abcd1234|R%26D%20Plan%20abcd1234|R&amp;D Plan abcd1234|R%26amp%3BD%20Plan%20abcd1234".to_vec();
    let r = rename_refs_in_file(&content, &"root/Other 99.md".to_string(), &objects);
    let out = String::from_utf8(r.new_contents.unwrap()).unwrap();
    assert_eq!(out, "R&D Plan|R%26D%20Plan|R&amp;D Plan|R%26amp%3BD%20Plan");
    assert!(!out.contains("abcd1234"));
    assert!(r.warnings.is_empty());
}

#[test]
fn earlier_of_two_overlapping_edits_wins() {
    let text = b"0123456789ABC".to_vec();
    let edits = vec![
        ReplaceDescriptor::new_from_owned(5, 10, b"YY".to_vec()),
        ReplaceDescriptor::new_from_owned(2, 8, b"X".to_vec()),
    ];
    let out = do_rename_refs_in_content(&text, edits).unwrap();
    assert_eq!(out, b"01X89ABC".to_vec());
    // kept literal spans "01" and "89ABC", plus the one applied replacement
    assert_eq!(out.len(), 2 + 5 + 1);
}

#[test]
fn no_edit_means_no_rewrite() {
    let text = b"unchanged".to_vec();
    assert!(do_rename_refs_in_content(&text, Vec::new()).is_none());
}

#[test]
fn adjacent_edits_are_both_applied() {
    let text = b"aaabbbccc".to_vec();
    let edits = vec![
        ReplaceDescriptor::new_from_borrowed(3, 6, &b"B".to_vec()),
        ReplaceDescriptor::new_from_borrowed(0, 3, &b"A".to_vec()),
    ];
    assert_eq!(do_rename_refs_in_content(&text, edits).unwrap(), b"ABccc".to_vec());
}

#[test]
fn external_link_becomes_relative_path() {
    let objects = vec![page("root/Project Plan abcd1234.md", "Project Plan", "abcd1234", "Project Plan")];
    let content = b"see [plan](https://www.notion.so/Project-Plan-abcd1234) now".to_vec();
    let r = rename_refs_in_file(&content, &"root/Other 9999.md".to_string(), &objects);
    assert_eq!(String::from_utf8(r.new_contents.unwrap()).unwrap(), "see [plan](Project Plan.md) now");
}

#[test]
fn link_from_a_sibling_directory_climbs_up() {
    let objects = vec![page("root/a/Goal 42.md", "Goal", "42", "Goal")];
    let content = b"(https://www.notion.so/Goal-42)".to_vec();
    let edits = prepare_rename_refs_in_content(&content, &"root/b/c/Note.md".to_string(), &objects);
    assert_eq!(edits.len(), 1);
    assert_eq!(edits[0].start, 1);
    assert_eq!(edits[0].end, 30);
    assert_eq!(String::from_utf8(edits[0].new_text.clone()).unwrap(), "../../a/Goal.md");
}

#[test]
fn relative_paths() {
    assert_eq!(relative_path_to(b"a/b/file.md", b"a/c/x.md"), b"../c/x.md".to_vec());
    assert_eq!(relative_path_to(b"a/file.md", b"a/x.md"), b"x.md".to_vec());
    assert_eq!(relative_path_to(b"file.md", b"d/x.md"), b"d/x.md".to_vec());
}

#[test]
fn identifier_left_in_root_listing_is_not_reported() {
    let objects = vec![page("root/Page 5e5e.md", "Page", "5e5e", "Page")];
    let content = b"<a href=\"x\">5e5e</a>".to_vec();
    let r = rename_refs_in_file(&content, &"root/index.html".to_string(), &objects);
    assert!(r.new_contents.is_none());
    assert!(r.warnings.is_empty());
}

#[test]
fn identifier_left_elsewhere_is_reported_once() {
    let objects = vec![page("root/Page 5e5e.md", "Page", "5e5e", "Page")];
    let content = b"<a href=\"x\">5e5e</a>".to_vec();
    let r = rename_refs_in_file(&content, &"root/Other 1.html".to_string(), &objects);
    assert_eq!(r.warnings.len(), 1);
    match &r.warnings[0] {
        RenameRefsInFileError::RefRemainingInFile { uuid, new_name, window_where_uuid_appears, looked_for } => {
            assert_eq!(uuid, "5e5e");
            assert_eq!(new_name, "Page");
            assert_eq!(window_where_uuid_appears, &content);
            assert_eq!(looked_for.len(), 4);
            assert_eq!(looked_for[0], b"Page 5e5e".to_vec());
        }
    }
}

#[test]
fn context_window_is_bounded() {
    let objects = vec![page("root/P 77.md", "P", "77", "P")];
    let mut content = vec![b'x'; 50];
    content.extend_from_slice(b"77");
    content.extend(vec![b'y'; 50]);
    let r = rename_refs_in_file(&content, &"root/n.md".to_string(), &objects);
    match &r.warnings[0] {
        RenameRefsInFileError::RefRemainingInFile { window_where_uuid_appears, .. } => {
            let mut expected = vec![b'x'; 30];
            expected.extend_from_slice(b"77");
            expected.extend(vec![b'y'; 30]);
            assert_eq!(window_where_uuid_appears, &expected);
        }
    }
}

#[test]
fn empty_content_is_left_alone() {
    let objects = vec![page("root/Page 5e5e.md", "Page", "5e5e", "Page")];
    let r = rename_refs_in_file(&Vec::new(), &"root/empty.md".to_string(), &objects);
    assert!(r.new_contents.is_none());
    assert!(r.warnings.is_empty());
}

#[test]
fn entity_without_new_name_asks_only_for_its_tokens() {
    let o = NotionObject::Page(NotionObjectInfo {
        path: "root/Page 5e5e.md".to_string(),
        name: "Page".to_string(),
        uuid: "5e5e".to_string(),
        dir_path: None,
        new_name: None,
        replacements: Vec::new(),
    });
    let content = b"(https://www.notion.so/Page-5e5e)".to_vec();
    let edits = prepare_rename_refs_in_content(&content, &"root/x.md".to_string(), &vec![o]);
    assert!(edits.is_empty());
}
