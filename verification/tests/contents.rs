use pdf_indexer::extract::{
    guess_offsets, has_contents_heading, is_behind_contents, is_contents_heading,
    looks_like_chapter_one, starts_chapter_one,
};
use pdf_indexer::text::to_chars;
use pdf_indexer::toc::{
    is_back_matter, is_back_matter_name, is_contents_title, parse_toc_entries, TocError, TocLine,
};
use pdf_indexer::toc_tree::build_toc_tree;
use pdf_indexer::{count_all, extract_toc};

fn line(level: u32, title: &str) -> TocLine {
    TocLine { level, title: title.to_string(), page: 1, is_roman: false }
}

#[test]
fn toc_entries_nest_by_section_numbering() {
    let text = "1  Introduction  1\n1.1  Background  2\n1.2  Related work  4\n2  Methods  9\n";
    let lines = parse_toc_entries(text).unwrap();
    let tree = build_toc_tree(&lines);
    assert_eq!(tree.len(), 2);
    assert_eq!(tree[0].children.len(), 2);
    assert_eq!(tree[0].children[0].title, "1.1 Background");
    assert!(tree[1].children.is_empty());
}

#[test]
fn section_numbers_give_levels() {
    let text = "I First part 1\n1. One 2\n1.1. Sub 3\n1.1.1 Deep 4\n2 Two 5\nplain words 6\n\
                Index 7\n";
    let lines = parse_toc_entries(text).unwrap();
    let levels: Vec<u32> = lines.iter().map(|l| l.level).collect();
    assert_eq!(levels, [1, 1, 2, 3, 1, 1, 1]);
    let text = "1.1 Sub 3\nplain words 6\nGLOSSARY 7\nmore words 8\n";
    let lines = parse_toc_entries(text).unwrap();
    let levels: Vec<u32> = lines.iter().map(|l| l.level).collect();
    // The back matter goes to the top and leaves the level in force alone.
    assert_eq!(levels, [2, 2, 1, 2]);
}

#[test]
fn titles_lose_their_leaders() {
    let lines = parse_toc_entries("1.2 Graphs and trees . . . . . 17\nPreface .... vii\n").unwrap();
    assert_eq!(lines[0].title, "1.2 Graphs and trees");
    assert_eq!((lines[0].page, lines[0].is_roman), (17, false));
    assert_eq!(lines[1].title, "Preface");
    assert_eq!((lines[1].page, lines[1].is_roman), (7, true));
}

#[test]
fn lines_that_are_no_entries_are_passed_over() {
    let text = "Contents\nContents v\nInhalt ix\n\n. . . 12\nno page here\n7\nContents 5\n";
    let lines = parse_toc_entries(text).unwrap();
    assert_eq!(lines.len(), 1);
    assert_eq!(lines[0].title, "Contents");
    assert_eq!(lines[0].page, 5);
}

#[test]
fn a_text_without_entries_is_refused() {
    assert!(matches!(parse_toc_entries("Contents\n\nnothing here"), Err(TocError::NoEntries)));
    assert!(matches!(parse_toc_entries(""), Err(TocError::NoEntries)));
}

#[test]
fn back_matter_is_known_in_any_case() {
    for word in ["glossary", "Index", "BIBLIOGRAPHY", "appendix", "Notation", "Symbols"] {
        assert!(is_back_matter(word));
    }
    assert!(!is_back_matter("indexes"));
    assert!(is_back_matter_name(&to_chars("index")));
    assert!(!is_back_matter_name(&to_chars("Index")));
    assert!(is_contents_title(&to_chars("the contents")));
    assert!(!is_contents_title(&to_chars("the content")));
}

#[test]
fn levels_that_jump_are_flattened() {
    let lines = [line(3, "a"), line(3, "b"), line(2, "c"), line(0, "d"), line(2, "e")];
    let tree = build_toc_tree(&lines);
    let roots: Vec<&str> = tree.iter().map(|e| e.title.as_str()).collect();
    assert_eq!(roots, ["a", "d"]);
    assert_eq!(tree[0].children.len(), 2);
    assert_eq!(tree[0].children[0].title, "b");
    assert_eq!(tree[0].children[1].title, "c");
    assert_eq!(tree[1].children[0].title, "e");
    assert_eq!(count_all(&tree), lines.len());
    assert!(build_toc_tree(&[]).is_empty());
}

#[test]
fn headings_are_recognised() {
    for page in ["Contents", "  CONTENTS  \nx", "intro\nInhalt", "Brief Table of Contents",
        "Inhaltsverzeichnis", "Contents in brief"]
    {
        assert!(has_contents_heading(page), "{page}");
    }
    for page in ["CONTENTS: 1. Programming  1", "discontents", "the contents", ""] {
        assert!(!has_contents_heading(page), "{page}");
    }
    assert!(is_contents_heading(&to_chars("inhalt des buches")));
    assert!(!is_contents_heading(&to_chars("Inhalt des buches")));
}

#[test]
fn the_first_chapter_is_recognised() {
    for page in ["Chapter 1\nIntro", "1\nIntroduction", "1 Introduction", "x\n1 Ünicode"] {
        assert!(looks_like_chapter_one(page), "{page}");
        assert!(is_behind_contents(page), "{page}");
    }
    // A lone 1 is enough to end the contents, but not to open the body.
    for page in ["1", "1\n\nIntroduction"] {
        assert!(!looks_like_chapter_one(page), "{page}");
        assert!(is_behind_contents(page), "{page}");
    }
    for page in ["1  Introduction", "1 .", "Chapter 10", "2 Methods"] {
        assert!(!looks_like_chapter_one(page), "{page}");
        assert!(!is_behind_contents(page), "{page}");
    }
    assert!(is_behind_contents(" \n "));
    assert!(!looks_like_chapter_one(""));
    assert!(starts_chapter_one(&to_chars("1 intro")));
    assert!(!starts_chapter_one(&to_chars("1 2")));
}

#[test]
fn offsets_are_guessed_from_preface_and_first_chapter() {
    let pages = ["Title", "Preface vii\ntext", "Contents", "1 Introduction", "77 body"];
    let mapping = guess_offsets(&pages, 2, 3);
    assert_eq!((mapping.roman_start_logical, mapping.roman_start_pdf), (7, 2));
    assert_eq!((mapping.arabic_start_logical, mapping.arabic_start_pdf), (1, 4));
    assert_eq!(mapping.page_map.get_pdf_page(77), Some(5));
}

#[test]
fn a_numeral_behind_the_preface_page_is_counted_back() {
    let pages = ["Title", "Vorwort\ntext", "text viii", "Contents"];
    let mapping = guess_offsets(&pages, 3, 4);
    assert_eq!((mapping.roman_start_logical, mapping.roman_start_pdf), (7, 2));
    // Numerals from 30 on do not count, and the search goes no further than
    // the table of contents.
    let pages = ["Title", "Preface xxx", "text", "Contents ix"];
    let mapping = guess_offsets(&pages, 3, 4);
    assert_eq!((mapping.roman_start_logical, mapping.roman_start_pdf), (2, 2));
    let pages = ["Preface", "a", "b", "c", "v", "Contents"];
    let mapping = guess_offsets(&pages, 5, 6);
    assert_eq!((mapping.roman_start_logical, mapping.roman_start_pdf), (1, 1));
}

#[test]
fn offsets_default_to_one() {
    let mapping = guess_offsets(&["Contents", "x"], 0, 1);
    assert_eq!((mapping.roman_start_logical, mapping.roman_start_pdf), (1, 1));
    assert_eq!((mapping.arabic_start_logical, mapping.arabic_start_pdf), (1, 1));
    let mapping = guess_offsets(&[], 5, 9);
    assert_eq!((mapping.arabic_start_logical, mapping.arabic_start_pdf), (1, 1));
}

#[test]
fn a_table_of_contents_is_extracted() {
    let text = "Title\x0cPreface v\x0cContents\nPreface v\n1 Introduction 1\n1.1 Background 2\n\
                \x0c2 Methods 9\n\x0c1 Introduction\x0c30 body";
    let found = extract_toc(text).unwrap();
    let titles: Vec<&str> = found.entries.iter().map(|e| e.title.as_str()).collect();
    assert_eq!(titles, ["Contents", "Preface", "1 Introduction", "2 Methods"]);
    assert!(found.entries[0].roman);
    // The preface is page v on the second page, the contents are on the third.
    assert_eq!(found.entries[0].page, 6);
    assert_eq!(found.entries[1].page, 5);
    assert!(found.entries[1].roman);
    assert_eq!(found.entries[2].children[0].title, "1.1 Background");
    assert_eq!(found.mapping.arabic_start_pdf, 5);
    assert_eq!(found.mapping.page_map.get_pdf_page(30), Some(6));
    assert_eq!(found.page_texts.len(), 6);
    assert_eq!(found.page_texts[0], "Title");
    assert_eq!(count_all(&found.entries), 5);
}

#[test]
fn without_an_end_eight_pages_are_taken() {
    let mut pages = vec!["Contents\nPart 1".to_string()];
    for i in 2..=12 {
        pages.push(format!("Part {i}"));
    }
    let found = extract_toc(&pages.join("\x0c")).unwrap();
    // Eight contents pages and the entry for the contents itself.
    assert_eq!(count_all(&found.entries), 9);
    assert_eq!(found.page_texts, pages);
}

#[test]
fn contents_at_the_end_of_the_text_are_read() {
    let found = extract_toc("Contents\nPart 1").unwrap();
    assert_eq!(count_all(&found.entries), 2);
}

#[test]
fn a_text_without_a_contents_page_is_refused() {
    assert!(matches!(extract_toc("no such page\x0cnor here"), Err(TocError::NoContentsPage)));
    assert!(matches!(extract_toc(""), Err(TocError::NoContentsPage)));
    assert!(matches!(extract_toc("Contents\x0c\x0c1 Intro"), Err(TocError::NoEntries)));
}
