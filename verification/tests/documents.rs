use lopdf::{Dictionary, Document, Object, ObjectId, StringFormat};
use pdf_indexer::outline::{
    can_inject_outline, inject_outline, try_inject_outline, SkippedEntry,
};
use pdf_indexer::pages::{collect_page_ids, is_page_tree_finite, OutlineError};
use pdf_indexer::pdf_value::TextFormat;
use pdf_indexer::titles::pdf_string;
use pdf_indexer::{OutlineEntry, PageMapping};

fn dictionary(entries: Vec<(&str, Object)>) -> Object {
    let mut d = Dictionary::new();
    for (key, value) in entries {
        d.set(key, value);
    }
    Object::Dictionary(d)
}

fn name(s: &str) -> Object {
    Object::Name(s.as_bytes().to_vec())
}

fn refer(number: u32) -> Object {
    Object::Reference((number, 0))
}

/// A document with a catalog (1), a page tree (2) and three pages (3 to 5).
fn three_pages() -> Document {
    let mut doc = Document::new();
    doc.objects.insert((1, 0), dictionary(vec![("Type", name("Catalog")), ("Pages", refer(2))]));
    doc.objects.insert(
        (2, 0),
        dictionary(vec![
            ("Type", name("Pages")),
            ("Kids", Object::Array(vec![refer(3), refer(4), refer(5)])),
            ("Count", Object::Integer(3)),
        ]),
    );
    for number in 3..=5 {
        doc.objects.insert((number, 0), dictionary(vec![("Type", name("Page"))]));
    }
    doc.trailer.set("Root", refer(1));
    doc.max_id = 5;
    doc
}

fn entry(title: &str, page: u32, children: Vec<OutlineEntry>) -> OutlineEntry {
    OutlineEntry { title: title.to_string(), page, roman: false, children }
}

fn get(doc: &Document, id: ObjectId, key: &str) -> Option<Object> {
    doc.get_object(id).unwrap().as_dict().unwrap().get(key.as_bytes()).ok().cloned()
}

fn link(doc: &Document, id: ObjectId, key: &str) -> Option<ObjectId> {
    get(doc, id, key).map(|o| o.as_reference().unwrap())
}

fn title(doc: &Document, id: ObjectId) -> String {
    match get(doc, id, "Title") {
        Some(Object::String(bytes, _)) => String::from_utf8(bytes).unwrap(),
        other => panic!("no title: {other:?}"),
    }
}

fn inject(
    doc: &mut Document,
    entries: &[OutlineEntry],
    mapping: &PageMapping,
) -> Vec<SkippedEntry> {
    inject_outline(doc, entries, mapping).unwrap()
}

fn pages(doc: &Document) -> Vec<ObjectId> {
    collect_page_ids(doc).unwrap()
}

#[test]
fn pages_are_collected_in_document_order() {
    let mut doc = three_pages();
    assert!(is_page_tree_finite(&doc));
    assert_eq!(pages(&doc), [(3, 0), (4, 0), (5, 0)]);
    // A nested node, and a page without a type.
    doc.objects.insert(
        (2, 0),
        dictionary(vec![
            ("Type", name("Pages")),
            ("Kids", Object::Array(vec![refer(5), refer(6), refer(3)])),
        ]),
    );
    doc.objects.insert(
        (6, 0),
        dictionary(vec![("Type", name("Pages")), ("Kids", Object::Array(vec![refer(7), refer(4)]))]),
    );
    doc.objects.insert((7, 0), dictionary(vec![]));
    assert_eq!(pages(&doc), [(5, 0), (7, 0), (4, 0), (3, 0)]);
}

#[test]
fn references_to_the_catalog_are_followed() {
    let mut doc = three_pages();
    doc.objects.insert((9, 0), refer(1));
    doc.trailer.set("Root", refer(9));
    assert_eq!(pages(&doc).len(), 3);
    inject(&mut doc, &[entry("a", 1, vec![])], &PageMapping::default());
    // The catalog itself is changed, not the reference to it.
    assert!(matches!(doc.objects[&(9, 0)], Object::Reference((1, 0))));
    assert_eq!(link(&doc, (1, 0), "Outlines"), Some((6, 0)));
}

#[test]
fn a_page_tree_with_a_cycle_is_detected() {
    let mut doc = three_pages();
    doc.objects.insert(
        (2, 0),
        dictionary(vec![("Type", name("Pages")), ("Kids", Object::Array(vec![refer(3), refer(2)]))]),
    );
    assert!(!is_page_tree_finite(&doc));
    assert!(!can_inject_outline(&doc, &[], &PageMapping::default()));
    assert!(try_inject_outline(&mut doc, &[], &PageMapping::default()).is_none());
}

#[test]
fn faults_of_the_catalog_are_reported() {
    let mut doc = three_pages();
    doc.trailer = Dictionary::new();
    assert!(matches!(collect_page_ids(&doc), Err(OutlineError::MissingRoot)));
    doc.trailer.set("Root", Object::Integer(1));
    assert!(matches!(collect_page_ids(&doc), Err(OutlineError::MissingRoot)));
    doc.trailer.set("Root", refer(77));
    assert!(matches!(collect_page_ids(&doc), Err(OutlineError::CatalogUnreadable)));
    doc.objects.insert((77, 0), Object::Null);
    assert!(matches!(collect_page_ids(&doc), Err(OutlineError::CatalogNotDictionary)));
    doc.objects.insert((77, 0), dictionary(vec![]));
    assert!(matches!(collect_page_ids(&doc), Err(OutlineError::MissingPages)));
    doc.objects.insert((77, 0), dictionary(vec![("Pages", Object::Null)]));
    assert!(matches!(collect_page_ids(&doc), Err(OutlineError::PagesNotReference)));
}

#[test]
fn faults_of_the_page_tree_are_reported() {
    let mut doc = three_pages();
    doc.objects.remove(&(4, 0));
    assert!(matches!(collect_page_ids(&doc), Err(OutlineError::NodeUnreadable((4, 0)))));
    doc.objects.insert((4, 0), Object::Integer(1));
    assert!(matches!(collect_page_ids(&doc), Err(OutlineError::NodeNotDictionary((4, 0)))));
    doc.objects.insert((4, 0), dictionary(vec![("Type", name("Font"))]));
    assert!(matches!(
        collect_page_ids(&doc),
        Err(OutlineError::UnexpectedNodeType(t)) if t == b"Font"
    ));
    doc.objects.insert((4, 0), dictionary(vec![("Type", name("Pages"))]));
    assert!(matches!(collect_page_ids(&doc), Err(OutlineError::MissingKids((4, 0)))));
    doc.objects.insert((4, 0), dictionary(vec![("Type", name("Pages")), ("Kids", Object::Null)]));
    assert!(matches!(collect_page_ids(&doc), Err(OutlineError::KidsNotArray((4, 0)))));
    doc.objects.insert(
        (4, 0),
        dictionary(vec![("Type", name("Pages")), ("Kids", Object::Array(vec![Object::Null]))]),
    );
    assert!(matches!(collect_page_ids(&doc), Err(OutlineError::KidNotReference((4, 0)))));
}

#[test]
fn a_document_without_pages_gets_no_outline() {
    let mut doc = three_pages();
    doc.objects.insert(
        (2, 0),
        dictionary(vec![("Type", name("Pages")), ("Kids", Object::Array(vec![]))]),
    );
    assert!(pages(&doc).is_empty());
    let count = doc.objects.len();
    let entries = [entry("a", 9, vec![])];
    assert!(matches!(
        try_inject_outline(&mut doc, &entries, &PageMapping::default()),
        Some(Err(OutlineError::NoPages))
    ));
    assert_eq!(doc.objects.len(), count);
    assert_eq!(doc.max_id, 5);
}

#[test]
fn an_outline_is_written() {
    let mut doc = three_pages();
    let entries = [
        entry("1 Intro", 1, vec![entry("1.1", 2, vec![entry("1.1.1", 3, vec![])])]),
        entry("2 End", 3, vec![]),
    ];
    assert!(can_inject_outline(&doc, &entries, &PageMapping::default()));
    let skipped = inject(&mut doc, &entries, &PageMapping::default());
    assert!(skipped.is_empty());
    assert_eq!(doc.max_id, 10);
    assert_eq!(pages(&doc), [(3, 0), (4, 0), (5, 0)]);

    let root = link(&doc, (1, 0), "Outlines").unwrap();
    assert_eq!(root, (6, 0));
    assert!(matches!(get(&doc, root, "Type"), Some(Object::Name(n)) if n == b"Outlines"));
    assert!(matches!(get(&doc, root, "Count"), Some(Object::Integer(4))));
    let first = link(&doc, root, "First").unwrap();
    let last = link(&doc, root, "Last").unwrap();
    assert_eq!((first, last), ((7, 0), (10, 0)));
    assert_eq!(title(&doc, first), "1 Intro");
    assert_eq!(title(&doc, last), "2 End");
    assert_eq!(link(&doc, first, "Parent"), Some(root));
    assert_eq!(link(&doc, first, "Next"), Some(last));
    assert_eq!(link(&doc, first, "Prev"), None);
    assert_eq!(link(&doc, last, "Prev"), Some(first));
    assert_eq!(link(&doc, last, "Next"), None);
    assert!(matches!(get(&doc, first, "Count"), Some(Object::Integer(-2))));
    assert!(get(&doc, last, "Count").is_none());

    let child = link(&doc, first, "First").unwrap();
    assert_eq!(link(&doc, first, "Last"), Some(child));
    assert_eq!(title(&doc, child), "1.1");
    assert_eq!(link(&doc, child, "Parent"), Some(first));
    let leaf = link(&doc, child, "First").unwrap();
    assert_eq!(title(&doc, leaf), "1.1.1");
    match get(&doc, leaf, "Dest") {
        Some(Object::Array(place)) => {
            assert!(matches!(place[0], Object::Reference((5, 0))));
            assert!(matches!(&place[1], Object::Name(n) if n == b"XYZ"));
            assert_eq!(place.len(), 5);
            assert!(place[2..].iter().all(|o| matches!(o, Object::Null)));
        }
        other => panic!("no destination: {other:?}"),
    }
}

#[test]
fn an_empty_outline_has_only_a_root() {
    let mut doc = three_pages();
    inject(&mut doc, &[], &PageMapping::default());
    let root = link(&doc, (1, 0), "Outlines").unwrap();
    assert!(matches!(get(&doc, root, "Count"), Some(Object::Integer(0))));
    assert!(get(&doc, root, "First").is_none());
    assert_eq!(doc.max_id, 6);
}

#[test]
fn entries_without_a_page_are_skipped_with_their_children() {
    let mut doc = three_pages();
    let entries = [
        entry("gone", 9, vec![entry("child", 1, vec![])]),
        entry("a", 1, vec![]),
        entry("zero", 0, vec![]),
        entry("b", 2, vec![]),
    ];
    let skipped = inject(&mut doc, &entries, &PageMapping::default());
    let told: Vec<(&str, u32, u32)> =
        skipped.iter().map(|s: &SkippedEntry| (s.title.as_str(), s.page, s.pdf_page)).collect();
    assert_eq!(told, [("gone", 9, 9), ("zero", 0, 0)]);
    // Skipped entries use up a number each; their children do not.
    let root = link(&doc, (1, 0), "Outlines").unwrap();
    let first = link(&doc, root, "First").unwrap();
    assert_eq!(first, (8, 0));
    assert_eq!(title(&doc, first), "a");
    let second = link(&doc, first, "Next").unwrap();
    assert_eq!(second, (10, 0));
    assert_eq!(title(&doc, second), "b");
    assert_eq!(link(&doc, root, "Last"), Some(second));
    assert!(matches!(get(&doc, root, "Count"), Some(Object::Integer(2))));
    assert_eq!(doc.max_id, 10);
    assert!(!doc.objects.contains_key(&(7, 0)));
}

#[test]
fn a_row_without_any_page_is_skipped() {
    let mut doc = three_pages();
    let entries = [entry("a", 1, vec![entry("lost", 50, vec![])])];
    assert!(can_inject_outline(&doc, &entries, &PageMapping::default()));
    let skipped = inject(&mut doc, &entries, &PageMapping::default());
    assert_eq!(skipped.len(), 1);
    assert_eq!(skipped[0].title, "lost");
    assert_eq!(title(&doc, (7, 0)), "a");
    assert!(get(&doc, (7, 0), "First").is_none());
    assert!(get(&doc, (7, 0), "Last").is_none());
    assert!(get(&doc, (7, 0), "Count").is_none());
    assert!(!doc.objects.contains_key(&(8, 0)));

    let mut doc = three_pages();
    let entries = [entry("x", 50, vec![]), entry("y", 51, vec![])];
    let skipped = inject(&mut doc, &entries, &PageMapping::default());
    assert_eq!(skipped.len(), 2);
    let root = link(&doc, (1, 0), "Outlines").unwrap();
    assert!(matches!(get(&doc, root, "Count"), Some(Object::Integer(0))));
    assert!(get(&doc, root, "First").is_none());
    // Only the outline root is new.
    assert_eq!(doc.objects.len(), 6);
}

#[test]
fn numbers_that_run_out_are_refused() {
    let mut doc = three_pages();
    doc.max_id = u32::MAX - 1;
    let entries = [entry("a", 1, vec![])];
    assert!(!can_inject_outline(&doc, &entries, &PageMapping::default()));
    assert!(can_inject_outline(&doc, &[], &PageMapping::default()));
}

#[test]
fn pages_follow_the_mapping() {
    let mut doc = three_pages();
    let mapping = PageMapping { arabic_start_logical: 11, arabic_start_pdf: 2, ..PageMapping::default() };
    let mut roman = entry("preface", 1, vec![]);
    roman.roman = true;
    inject(&mut doc, &[roman, entry("eleven", 11, vec![])], &mapping);
    let target = |id: ObjectId| match get(&doc, id, "Dest") {
        Some(Object::Array(place)) => place[0].as_reference().unwrap(),
        other => panic!("no destination: {other:?}"),
    };
    assert_eq!(target((7, 0)), (3, 0));
    assert_eq!(target((8, 0)), (4, 0));
}

#[test]
fn titles_are_literal_or_hexadecimal() {
    let (bytes, format) = pdf_string("1 Intro");
    assert_eq!(bytes, b"1 Intro");
    assert_eq!(format, TextFormat::Literal);
    let (bytes, format) = pdf_string("Über 𝄞");
    assert_eq!(
        bytes,
        [0xfe, 0xff, 0, 0xdc, 0, 0x62, 0, 0x65, 0, 0x72, 0, 0x20, 0xd8, 0x34, 0xdd, 0x1e]
    );
    assert_eq!(format, TextFormat::Hexadecimal);
    assert_eq!(pdf_string("").0, b"");

    let mut doc = three_pages();
    inject(&mut doc, &[entry("Ü", 1, vec![])], &PageMapping::default());
    assert!(matches!(
        get(&doc, (7, 0), "Title"),
        Some(Object::String(b, StringFormat::Hexadecimal)) if b == [0xfe, 0xff, 0, 0xdc]
    ));
}

#[test]
fn titles_are_encoded_as_std_encodes_them() {
    for s in ["é", "日本語", "a\u{10ffff}b", "\u{ffff}x", "\u{80}"] {
        let mut expected = vec![0xfe, 0xff];
        for unit in s.encode_utf16() {
            expected.extend_from_slice(&unit.to_be_bytes());
        }
        assert_eq!(pdf_string(s).0, expected, "{s:?}");
    }
}

#[test]
fn a_saved_document_keeps_its_outline() {
    let mut doc = three_pages();
    inject(&mut doc, &[entry("1 Intro", 2, vec![])], &PageMapping::default());
    let mut bytes = Vec::new();
    doc.save_to(&mut bytes).unwrap();
    let back = Document::load_mem(&bytes).unwrap();
    let root = link(&back, (1, 0), "Outlines").unwrap();
    let first = link(&back, root, "First").unwrap();
    assert_eq!(title(&back, first), "1 Intro");
    assert_eq!(pages(&back), [(3, 0), (4, 0), (5, 0)]);
}

#[test]
fn different_titles_are_written_differently() {
    let titles = ["a", "A", "", "\u{fe}\u{ff}", "ä", "a\u{308}", "\u{10000}", "\u{d7ff}"];
    for (i, a) in titles.iter().enumerate() {
        for b in &titles[i + 1..] {
            assert_ne!(pdf_string(a), pdf_string(b), "{a:?} {b:?}");
        }
    }
}

#[test]
fn skipped_entries_are_told_however_the_objects_are_numbered() {
    // The catalog has a number beyond the highest one that is claimed, and
    // the outline takes it.
    let mut doc = three_pages();
    let catalog = doc.objects.remove(&(1, 0)).unwrap();
    doc.objects.insert((8, 0), catalog);
    doc.objects.insert((1, 0), refer(8));
    let entries = [entry("lost", 50, vec![]), entry("found", 1, vec![])];
    let skipped = inject(&mut doc, &entries, &PageMapping::default());
    assert_eq!(skipped.len(), 1);
    assert_eq!(skipped[0].title, "lost");
}
