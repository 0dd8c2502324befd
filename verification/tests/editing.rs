use pdf_indexer::count_all;
use pdf_indexer::editor::{gui_to_entries, node_at_mut, selection_counts, set_included, GuiNode};
use pdf_indexer::extract_toc;
use pdf_indexer::mapping::outline_from_spec;
use pdf_indexer::session::{AddTarget, IndexerApp, JobResult};
use pdf_indexer::{OutlineEntry, PageMapping};
use std::path::PathBuf;

fn entry(title: &str, page: u32) -> OutlineEntry {
    OutlineEntry {
        title: title.to_string(),
        page,
        roman: false,
        children: vec![],
    }
}

#[test]
fn inclusion_filter_applies_recursively() {
    let entries = vec![
        OutlineEntry {
            title: "Preface".into(),
            page: 7,
            roman: true,
            children: vec![],
        },
        OutlineEntry {
            title: "1 Introduction".into(),
            page: 1,
            roman: false,
            children: vec![entry("1.1 Background", 2), entry("1.2 Related work", 4)],
        },
    ];
    let mut tree = GuiNode::from_entries(&entries);
    tree[0].included = false;
    tree[1].children[1].included = false;

    let filtered = gui_to_entries(&tree);
    assert_eq!(filtered.len(), 1);
    assert_eq!(filtered[0].children.len(), 1);
    assert_eq!(filtered[0].children[0].title, "1.1 Background");
    assert_eq!(selection_counts(&tree), (2, 4));
}

#[test]
fn select_all_none_toggles_everything() {
    let mut tree = GuiNode::from_entries(&[
        entry("a", 1),
        OutlineEntry {
            title: "b".into(),
            page: 2,
            roman: false,
            children: vec![entry("b.1", 3)],
        },
    ]);
    set_included(&mut tree, false);
    assert!(gui_to_entries(&tree).is_empty());
    set_included(&mut tree, true);
    assert_eq!(count_all(&gui_to_entries(&tree)), 3);
}

#[test]
fn node_at_mut_resolves_nested_paths() {
    let mut tree = GuiNode::from_entries(&[OutlineEntry {
        title: "1".into(),
        page: 1,
        roman: false,
        children: vec![OutlineEntry {
            title: "1.1".into(),
            page: 2,
            roman: false,
            children: vec![entry("1.1.1", 3)],
        }],
    }]);
    let leaf = node_at_mut(&mut tree, &[0, 0, 0]).expect("path should resolve");
    assert_eq!(leaf.title, "1.1.1");
    assert!(node_at_mut(&mut tree, &[5]).is_none());
}

#[test]
fn add_entry_creates_root_and_children() {
    let mut app = IndexerApp::new(None, None);

    app.add_entry(AddTarget::Root, "Chapter 1".to_string(), 1, false);
    assert_eq!(app.tree.len(), 1);
    assert_eq!(app.tree[0].title, "Chapter 1");

    app.add_entry(
        AddTarget::Node(vec![0]),
        "1.1 Background".to_string(),
        2,
        false,
    );
    assert_eq!(app.tree[0].children.len(), 1);
    assert_eq!(app.tree[0].children[0].title, "1.1 Background");
    assert_eq!(app.tree[0].children[0].page, 2);

    // An empty title falls back to a placeholder.
    app.add_entry(AddTarget::Node(vec![0]), "   ".to_string(), 3, true);
    assert_eq!(app.tree[0].children[1].title, "New entry");
    assert!(app.tree[0].children[1].roman);

    // A stale path degrades to a root entry instead of panicking.
    app.add_entry(AddTarget::Node(vec![99, 0]), "Orphan".to_string(), 4, false);
    assert_eq!(app.tree[1].title, "Orphan");
}

#[test]
fn a_changed_node_stays_changed() {
    let mut tree = GuiNode::from_entries(&[entry("a", 1), entry("b", 2)]);
    node_at_mut(&mut tree, &[1]).unwrap().title = "c".to_string();
    assert_eq!(tree[0].title, "a");
    assert_eq!(tree[1].title, "c");
    assert!(node_at_mut(&mut tree, &[]).is_none());
    assert!(node_at_mut(&mut tree, &[0, 0]).is_none());
}

#[test]
fn a_loaded_outline_comes_back() {
    let entries = vec![OutlineEntry {
        title: "1".into(),
        page: 4,
        roman: true,
        children: vec![entry("1.1", 5)],
    }];
    let back = gui_to_entries(&GuiNode::from_entries(&entries));
    assert_eq!(format!("{back:?}"), format!("{entries:?}"));
    let copy = entries[0].clone();
    assert_eq!(format!("{copy:?}"), format!("{:?}", entries[0]));
}

#[test]
fn a_new_session_names_its_output() {
    assert_eq!(IndexerApp::new(None, None).output_path, "indexed.pdf");
    let pdf = PathBuf::from("books").join("SICP.pdf");
    let app = IndexerApp::new(Some(pdf.clone()), None);
    let expected = PathBuf::from("books").join("SICP_indexed.pdf");
    assert_eq!(app.output_path, expected.to_string_lossy());
    assert!(app.can_extract());
    assert!(!app.can_index());
    let app = IndexerApp::new(Some(pdf), Some(PathBuf::from("out.pdf")));
    assert_eq!(app.output_path, "out.pdf");
    assert_eq!(app.default_json_name(), "SICP-outline.json");
    assert_eq!(IndexerApp::new(None, None).default_json_name(), "outline.json");
}

#[test]
fn the_add_dialog_is_confirmed_or_cancelled() {
    let mut app = IndexerApp::new(None, None);
    app.begin_add(AddTarget::Root);
    app.cancel_add();
    assert!(app.pending_add.is_none());
    assert!(!app.has_tree());
    app.confirm_add();
    assert!(!app.has_tree());

    app.begin_add(AddTarget::Root);
    app.add_title = " 1 Results ".to_string();
    app.add_page = 9;
    app.add_roman = true;
    app.confirm_add();
    assert!(app.has_tree());
    assert_eq!(app.tree[0].title, "1 Results");
    assert_eq!((app.tree[0].page, app.tree[0].roman, app.tree[0].included), (9, true, true));
    assert_eq!((app.add_title.as_str(), app.add_page, app.add_roman), ("", 1, false));
    assert!(app.pending_add.is_none());
    assert!(app.status.starts_with("Entry added"));
}

#[test]
fn a_json_outline_is_taken_over() {
    let mut app = IndexerApp::new(None, None);
    app.page_texts = vec!["x".to_string()];
    let entries = vec![entry("a", 1), entry("b", 2)];
    let mapping = PageMapping { arabic_start_pdf: 8, ..PageMapping::default() };
    app.json_found(PathBuf::from("b.json"), "b.json", &entries, mapping);
    assert_eq!(app.status, "Loaded 2 entries from b.json (found next to the PDF)");
    assert!(!app.status_is_error);
    assert_eq!(app.mapping.arabic_start_pdf, 8);
    assert_eq!(app.json_path, Some(PathBuf::from("b.json")));
    assert!(app.page_texts.is_empty());
    app.json_loaded(PathBuf::from("c.json"), "c.json", &[], PageMapping::default());
    assert_eq!(app.status, "Loaded 0 entries from c.json");
    assert!(!app.has_tree());
    app.json_refused("no such file");
    assert_eq!(app.status, "Cannot load JSON: no such file");
    assert!(app.status_is_error);
    app.found_json_refused("bad");
    assert_eq!(app.status, "Found JSON next to the PDF but could not load it: bad");
    app.no_json_found();
    assert!(app.status.starts_with("PDF selected"));
    assert!(!app.status_is_error);
}

#[test]
fn opening_a_pdf_starts_afresh() {
    let mut app = IndexerApp::new(None, None);
    app.json_loaded(PathBuf::from("c.json"), "c.json", &[entry("a", 1)], PageMapping::default());
    app.mapping.roman_start_pdf = 5;
    app.open_pdf(PathBuf::from("book.pdf"));
    assert_eq!(app.output_path, "book_indexed.pdf");
    assert!(!app.has_tree());
    assert_eq!(app.json_path, None);
    assert_eq!(app.mapping.roman_start_pdf, 1);
    assert_eq!(app.pdf_path, Some(PathBuf::from("book.pdf")));
}

#[test]
fn indexing_needs_a_pdf_an_output_and_entries() {
    let mut app = IndexerApp::new(None, None);
    let before = app.status.clone();
    assert!(app.start_index().is_none());
    assert_eq!(app.status, before);

    app.open_pdf(PathBuf::from("book.pdf"));
    app.output_path = "  ".to_string();
    assert!(app.start_index().is_none());
    assert_eq!(app.status, "Output path is empty.");
    assert!(app.status_is_error && !app.busy);

    app.output_path = " out.pdf ".to_string();
    assert!(app.start_index().is_none());
    assert_eq!(app.status, "No entries selected — tick at least one chapter.");
    assert!(app.build_spec().is_none());

    app.json_loaded(
        PathBuf::from("c.json"),
        "c.json",
        &[entry("a", 1), entry("b", 2)],
        PageMapping::default(),
    );
    app.tree[0].included = false;
    assert_eq!(
        app.selection_text(),
        "1 of 2 entries selected — only checked entries are indexed and exported"
    );
    assert!(app.can_index() && app.can_export());
    let job = app.start_index().unwrap();
    assert_eq!(job.output, "out.pdf");
    assert_eq!(job.entries.len(), 1);
    assert_eq!(job.entries[0].title, "b");
    assert_eq!(app.status, "Indexing 1 entries → out.pdf…");
    assert!(app.busy && !app.can_index() && !app.can_export() && !app.can_extract());

    app.job_finished(JobResult::Indexed(Ok(())));
    assert_eq!(app.status, "Done — wrote  out.pdf ");
    assert!(!app.busy && !app.status_is_error);
    app.job_finished(JobResult::Indexed(Err("disk full".to_string())));
    assert_eq!(app.status, "Indexing failed: disk full");
    assert!(app.status_is_error);
}

#[test]
fn an_extraction_fills_the_session() {
    let mut app = IndexerApp::new(None, None);
    assert!(!app.start_extract());
    app.open_pdf(PathBuf::from("book.pdf"));
    assert!(app.start_extract());
    assert!(app.busy);
    assert_eq!(app.status, "Extracting TOC…");
    let found = extract_toc("Contents\nPart 1\x0c1 Intro\x0c40 x\x0c41 x").unwrap();
    app.job_finished(JobResult::Extracted(Ok(found)));
    assert_eq!(app.status, "Extracted 2 entries — tick the chapters to include.");
    assert!(!app.busy);
    assert_eq!(app.page_texts.len(), 4);
    assert_eq!(app.mapping.page_map.get_pdf_page(41), Some(4));
    // The anchor decides which pages the map knows.
    app.mapping.arabic_start_pdf = 4;
    app.anchors_edited();
    assert_eq!(app.mapping.page_map.get_pdf_page(41), Some(4));
    assert_eq!(app.mapping.page_map.get_pdf_page(1), None);
    app.job_finished(JobResult::Extracted(Err("no pdftotext".to_string())));
    assert_eq!(app.status, "Auto-extraction failed: no pdftotext");
    assert!(app.status_is_error);
}

#[test]
fn a_saved_selection_is_loaded_again() {
    let mut app = IndexerApp::new(None, None);
    let mapping = PageMapping { roman_start_pdf: 3, ..PageMapping::default() };
    app.json_loaded(PathBuf::from("c.json"), "c.json", &[entry("a", 1), entry("b", 2)], mapping);
    app.tree[0].included = false;
    let spec = app.build_spec().unwrap();
    let (entries, mapping) = outline_from_spec(spec);
    app.json_loaded(PathBuf::from("d.json"), "d.json", &entries, mapping);
    assert_eq!(selection_counts(&app.tree), (1, 1));
    assert_eq!(app.tree[0].title, "b");
    assert_eq!(app.mapping.roman_start_pdf, 3);
}

#[test]
fn written_files_are_remembered() {
    let mut app = IndexerApp::new(None, None);
    app.json_not_written("x.json", "denied");
    assert_eq!(app.status, "Cannot write x.json: denied");
    assert_eq!(app.json_path, None);
    app.json_written(PathBuf::from("x.json"), "x.json");
    assert_eq!(app.status, "Wrote x.json");
    assert_eq!(app.json_path, Some(PathBuf::from("x.json")));
    assert!(!app.status_is_error);
    app.nothing_selected();
    assert_eq!(app.status, "No entries selected — tick at least one chapter.");
    app.status_ok("fine".to_string());
    assert!(!app.status_is_error);
    app.status_err("wrong".to_string());
    assert!(app.status_is_error);
}

#[test]
fn auto_loads_json_found_next_to_pdf() {
    let mut app = IndexerApp::new(Some(PathBuf::from("SICP.pdf")), None);
    let json = PathBuf::from("SICP-outline.json");
    app.json_found(json, "SICP-outline.json", &[entry("Chapter 1", 1)], PageMapping::default());
    assert_eq!(app.tree.len(), 1);
    assert!(app.status.contains("found next to the PDF"));
}

#[test]
fn adding_an_entry_raises_both_counts() {
    let mut app = IndexerApp::new(None, None);
    app.json_loaded(
        PathBuf::from("c.json"),
        "c.json",
        &[entry("a", 1), entry("b", 2)],
        PageMapping::default(),
    );
    app.tree[0].included = false;
    assert_eq!(selection_counts(&app.tree), (1, 2));
    for target in [AddTarget::Root, AddTarget::Node(vec![0]), AddTarget::Node(vec![7])] {
        let (chosen, total) = selection_counts(&app.tree);
        app.add_entry(target, "new".to_string(), 3, false);
        assert_eq!(selection_counts(&app.tree), (chosen + 1, total + 1));
    }
    assert!(count_all(&gui_to_entries(&app.tree)) <= selection_counts(&app.tree).0);
}
