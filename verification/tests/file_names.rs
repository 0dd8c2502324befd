use pdf_indexer::files::{
    indexed_name, matches_outline, name_belongs_to, outline_file_name, outline_file_names,
    ListedFile, OutlineChoice,
};
use pdf_indexer::{default_output, find_outline_json};
use std::path::{Path, PathBuf};

fn file(stem: &str, extension: Option<&str>) -> ListedFile {
    ListedFile { stem: stem.to_string(), extension: extension.map(str::to_string) }
}

#[test]
fn the_default_output_stands_next_to_the_input() {
    assert_eq!(default_output(Path::new("book.pdf")), PathBuf::from("book_indexed.pdf"));
    let inside = PathBuf::from("some").join("dir");
    assert_eq!(default_output(&inside.join("b.v2.pdf")), inside.join("b.v2_indexed.pdf"));
    assert_eq!(default_output(Path::new("book")), PathBuf::from("book_indexed"));
    assert_eq!(default_output(Path::new(".hidden")), PathBuf::from(".hidden_indexed"));
    assert_eq!(default_output(Path::new("")), PathBuf::from("_indexed"));
}

#[test]
fn names_are_put_together() {
    assert_eq!(indexed_name("a", &Some("pdf".to_string())), "a_indexed.pdf");
    assert_eq!(indexed_name("a", &None), "a_indexed");
    assert_eq!(outline_file_name("SICP"), "SICP-outline.json");
    assert_eq!(outline_file_names("SICP"), ["SICP-outline.json", "SICP.json", "SICP_outline.json"]);
}

#[test]
fn outline_files_match_in_any_case() {
    assert!(matches_outline("SICP", &file("sicp-outline", Some("json"))));
    assert!(matches_outline("SICP", &file("SICP_Outline", Some("JSON"))));
    assert!(matches_outline("Über", &file("über", Some("Json"))));
    assert!(!matches_outline("SICP", &file("sicp-outlines", Some("json"))));
    assert!(!matches_outline("SICP", &file("sicp", Some("jsonx"))));
    assert!(!matches_outline("SICP", &file("sicp", None)));
    assert!(name_belongs_to("sicp_outline", "sicp"));
    assert!(!name_belongs_to("SICP", "sicp"));
}

#[test]
fn named_files_go_before_listed_ones() {
    let listed = [file("other", Some("json")), file("sicp", Some("json"))];
    let found = find_outline_json("SICP", &[true, true, false], &listed);
    assert_eq!(found, Some(OutlineChoice::Named(0)));
    let found = find_outline_json("SICP", &[false, false, true], &listed);
    assert_eq!(found, Some(OutlineChoice::Named(2)));
    let found = find_outline_json("SICP", &[false, false, false], &listed);
    assert_eq!(found, Some(OutlineChoice::Listed(1)));
    assert_eq!(find_outline_json("book", &[false, false, false], &listed), None);
    assert_eq!(find_outline_json("book", &[], &[]), None);
}

/// Which of the names of an outline specification the directory holds, and
/// its files.
fn directory(stem: &str, files: &[&str]) -> (Vec<bool>, Vec<ListedFile>) {
    let present =
        outline_file_names(stem).iter().map(|name| files.contains(&name.as_str())).collect();
    let listed = files
        .iter()
        .map(|name| match name.rsplit_once('.') {
            Some((stem, extension)) => file(stem, Some(extension)),
            None => file(name, None),
        })
        .collect();
    (present, listed)
}

#[test]
fn finds_outline_json_next_to_pdf() {
    let (present, listed) = directory("SICP", &["SICP-outline.json"]);
    assert_eq!(find_outline_json("SICP", &present, &listed), Some(OutlineChoice::Named(0)));
}

#[test]
fn finds_outline_json_case_insensitively() {
    let (present, listed) = directory("SICP", &["sicp-outline.json"]);
    assert_eq!(find_outline_json("SICP", &present, &listed), Some(OutlineChoice::Listed(0)));
}

#[test]
fn outline_json_priority_prefers_gui_name() {
    let (present, listed) = directory("SICP", &["SICP-outline.json", "SICP.json"]);
    assert_eq!(find_outline_json("SICP", &present, &listed), Some(OutlineChoice::Named(0)));
    assert_eq!(outline_file_names("SICP")[0], "SICP-outline.json");
}

#[test]
fn finds_nothing_when_no_json_present() {
    let (present, listed) = directory("book", &[]);
    assert_eq!(find_outline_json("book", &present, &listed), None);
}

#[test]
fn the_least_matching_name_wins() {
    let names = ["sicp.json", "sicp-outline.json", "SICP_outline.JSON", "aaa.json", "sicp-outline.json"];
    let listed: Vec<ListedFile> = directory("SICP", &names).1;
    let none = [false, false, false];
    assert_eq!(find_outline_json("SICP", &none, &listed), Some(OutlineChoice::Listed(2)));
    assert_eq!(find_outline_json("SICP", &none, &listed[..2]), Some(OutlineChoice::Listed(1)));
    // Of two files with the same name it is the first.
    assert_eq!(find_outline_json("SICP", &none, &listed[3..]), Some(OutlineChoice::Listed(1)));
    let twice: Vec<ListedFile> = directory("SICP", &["Sicp.json", "Sicp.json"]).1;
    assert_eq!(find_outline_json("SICP", &none, &twice), Some(OutlineChoice::Listed(0)));
}
