use pdf_indexer::mapping::{compute_pdf_page, one, outline_from_spec, parse_offset, OffsetError};
use pdf_indexer::numerals::{decimal, parse_u32, roman_to_int};
use pdf_indexer::page_map::extract_page_number;
use pdf_indexer::text::{
    contains, count_of, equals, join_parts, less_text, lower_text, split_lines, split_on, split_words,
    starts_with, to_chars, to_text, trim_end_chars, trim_text,
};
use pdf_indexer::{
    apply_anchor_overrides, OutlineEntry, OutlineSpec, PageMapping, PageNumberMap,
};

fn chars(s: &str) -> Vec<char> {
    to_chars(s)
}

fn texts(parts: Vec<&[char]>) -> Vec<String> {
    parts.into_iter().map(to_text).collect()
}

#[test]
fn roman_numeral_parsing() {
    assert_eq!(roman_to_int("vii"), Some(7));
    assert_eq!(roman_to_int("XLVII"), Some(47));
    assert_eq!(roman_to_int("mcmxcix"), Some(1999));
    assert_eq!(roman_to_int(""), None);
    assert_eq!(roman_to_int("abc"), None);
}

#[test]
fn roman_numerals_ignore_case_and_order_rules() {
    assert_eq!(roman_to_int("MCMXCIX"), roman_to_int("mcmxcix"));
    assert_eq!(roman_to_int("iix"), Some(10));
    assert_eq!(roman_to_int("vx"), Some(5));
    assert_eq!(roman_to_int("x i"), None);
}

#[test]
fn decimal_numbers_are_written_and_read() {
    for n in [0usize, 7, 10, 99, 100, 4_294_967_295] {
        let text = decimal(n);
        assert_eq!(text, n.to_string());
        assert_eq!(parse_u32(&chars(&text)), Some(n as u32));
    }
    assert_eq!(parse_u32(&chars("+12")), Some(12));
    assert_eq!(parse_u32(&chars("007")), Some(7));
    assert_eq!(parse_u32(&chars("+")), None);
    assert_eq!(parse_u32(&chars("")), None);
    assert_eq!(parse_u32(&chars("-1")), None);
    assert_eq!(parse_u32(&chars("1.2")), None);
    assert_eq!(parse_u32(&chars("4294967296")), None);
}

#[test]
fn numbers_are_read_as_std_reads_them() {
    for s in ["", "+", "-", "0", "+0", "-0", "++1", "1+", "12a", "99999999999", "4294967295", "００"] {
        assert_eq!(parse_u32(&chars(s)), s.parse::<u32>().ok(), "{s:?}");
    }
}

#[test]
fn white_space_is_what_std_takes_for_it() {
    for code in 0..=0x10ffffu32 {
        if let Some(c) = char::from_u32(code) {
            let word = [c];
            assert_eq!(split_words(&word).is_empty(), c.is_whitespace(), "{code:x}");
        }
    }
}

#[test]
fn text_is_taken_apart_as_std_takes_it() {
    let samples = [
        "", " ", "a", " a b\t c ", "one\ntwo\r\nthree", "\n\nx\n", "a\r\n", "\u{a0}x\u{2003}", "x\r",
        "a\x0cb\x0c",
    ];
    for s in samples {
        let all = chars(s);
        assert_eq!(texts(split_words(&all)), s.split_whitespace().collect::<Vec<_>>(), "{s:?}");
        assert_eq!(texts(split_lines(&all)), s.lines().collect::<Vec<_>>(), "{s:?}");
        assert_eq!(texts(split_on(&all, '\x0c')), s.split('\x0c').collect::<Vec<_>>(), "{s:?}");
        assert_eq!(to_text(trim_text(&all)), s.trim(), "{s:?}");
        assert_eq!(to_text(&lower_text(&all)), s.to_lowercase(), "{s:?}");
        assert_eq!(count_of(&all, 'a'), s.matches('a').count(), "{s:?}");
    }
}

#[test]
fn text_is_searched_and_joined() {
    assert!(contains(&chars("table of contents"), "contents"));
    assert!(!contains(&chars("content"), "contents"));
    assert!(contains(&chars(""), ""));
    assert!(starts_with(&chars("1 Intro"), "1 "));
    assert!(!starts_with(&chars("1"), "1 "));
    assert!(equals(&chars("1:1"), "1:1"));
    assert!(!equals(&chars("1:10"), "1:1"));
    let (a, b, c) = (chars("a"), chars(""), chars("c"));
    assert_eq!(to_text(&join_parts(&[&a, &b, &c], ',')), "a,,c");
    assert_eq!(to_text(&join_parts(&[], ',')), "");
    assert_eq!(to_text(trim_end_chars(&chars("1.2.. ."), &['.', ' '])), "1.2");
}

#[test]
fn lower_case_goes_beyond_ascii() {
    assert_eq!(to_text(&lower_text(&chars("ÜBERSICHT ΣΑΣ"))), "übersicht σας");
    assert_eq!(to_text(&lower_text(&chars("Contents 1"))), "contents 1");
}

#[test]
fn page_numbers_come_from_the_first_line() {
    assert_eq!(extract_page_number("12  Vorwort\nbody"), Some(12));
    assert_eq!(extract_page_number("78  5. Generalized things"), Some(78));
    assert_eq!(extract_page_number("1.2. Subgraphs  3"), Some(3));
    assert_eq!(extract_page_number("References 381"), Some(381));
    assert_eq!(extract_page_number("97 | 99  Zweytes Kapitel ...  381"), Some(381));
    assert_eq!(extract_page_number("6 | VII f.  Vorrede ...  101"), Some(101));
    assert_eq!(extract_page_number("17 XXVIII f. 137"), Some(137));
    assert_eq!(extract_page_number("\n\n   42\n7"), Some(42));
}

#[test]
fn chapter_openings_have_no_page_number() {
    assert_eq!(extract_page_number("5"), None);
    assert_eq!(extract_page_number("25\nTitle"), None);
    assert_eq!(extract_page_number("26\nTitle"), Some(26));
    assert_eq!(extract_page_number("VI"), None);
    assert_eq!(extract_page_number(""), None);
    assert_eq!(extract_page_number(" \n\t"), None);
    assert_eq!(extract_page_number("no number here"), None);
}

#[test]
fn page_map_handles_blank_pages() {
    let pages: Vec<String> = (1..=35)
        .map(|i| {
            if (31..=32).contains(&i) || (34..=35).contains(&i) {
                format!("{i}\nBody text")
            } else {
                "Front matter".into()
            }
        })
        .collect();
    let mut mapping = PageMapping {
        arabic_start_logical: 1,
        arabic_start_pdf: 31,
        roman_start_logical: 1,
        roman_start_pdf: 1,
        page_map: PageNumberMap::empty(),
    };
    mapping.rebuild_page_map(&pages);
    assert_eq!(mapping.page_map.get_pdf_page(31), Some(31));
    // Page 33 is blank in the PDF text; it still resolves linearly.
    assert_eq!(mapping.page_map.get_pdf_page(33), Some(33));
}

#[test]
fn page_map_keeps_the_first_page_of_a_number_and_counts_on() {
    let map = PageNumberMap::build(&["30 x", "31 x", "31 y", "40 z"], 1);
    assert_eq!(map.get_pdf_page(30), Some(1));
    assert_eq!(map.get_pdf_page(31), Some(2));
    // Counted back from page 40, which is the fourth one.
    assert_eq!(map.get_pdf_page(39), Some(3));
    // Counting back from 40 leads before the first page, and 32 is not behind it.
    assert_eq!(map.get_pdf_page(32), None);
    assert_eq!(map.get_pdf_page(45), Some(9));
    assert_eq!(map.get_pdf_page(29), None);
    assert_eq!(PageNumberMap::empty().get_pdf_page(1), None);
}

#[test]
fn page_map_starts_at_the_body() {
    let map = PageNumberMap::build(&["90 x", "91 x", "92 x"], 3);
    assert_eq!(map.get_pdf_page(92), Some(3));
    assert_eq!(map.get_pdf_page(91), Some(2));
    let none = PageNumberMap::build(&["90 x", "91 x"], 3);
    assert_eq!(none.get_pdf_page(90), None);
}

#[test]
fn outlying_numbers_are_discarded() {
    let mut pages: Vec<String> = (100..110).map(|n| format!("{n} header")).collect();
    pages[4] = "4000 bogus".to_string();
    let refs: Vec<&str> = pages.iter().map(String::as_str).collect();
    let map = PageNumberMap::build(&refs, 1);
    assert_eq!(map.get_pdf_page(109), Some(10));
    assert_eq!(map.get_pdf_page(104), Some(5));
    // Nothing is left of page 4000: it is counted on from page 109.
    assert_eq!(map.get_pdf_page(4000), Some(3901));
    // Three entries are not enough to tell an outlier.
    let few = PageNumberMap::build(&["100 a", "101 a", "4000 b"], 1);
    assert_eq!(few.get_pdf_page(4000), Some(3));
}

#[test]
fn the_map_ends_fifty_pages_from_the_median() {
    let pages = ["100 a", "101 a", "102 a", "153 b"];
    assert_eq!(PageNumberMap::build(&pages, 1).get_pdf_page(153), Some(4));
    let pages = ["100 a", "101 a", "102 a", "154 b"];
    assert_eq!(PageNumberMap::build(&pages, 1).get_pdf_page(154), Some(55));
}

#[test]
fn rebuilding_without_pages_drops_the_map() {
    let mut mapping = PageMapping::default();
    mapping.rebuild_page_map(&["77 text".to_string()]);
    assert_eq!(mapping.page_map.get_pdf_page(77), Some(1));
    mapping.rebuild_page_map(&[]);
    assert_eq!(mapping.page_map.get_pdf_page(77), None);
    assert_eq!(mapping.arabic_start_pdf, 1);
}

#[test]
fn pages_are_counted_from_the_anchors() {
    let mapping = PageMapping {
        arabic_start_logical: 11,
        arabic_start_pdf: 12,
        roman_start_logical: 7,
        roman_start_pdf: 5,
        page_map: PageNumberMap::empty(),
    };
    assert_eq!(compute_pdf_page(11, false, &mapping), 12);
    assert_eq!(compute_pdf_page(20, false, &mapping), 21);
    assert_eq!(compute_pdf_page(7, true, &mapping), 5);
    assert_eq!(compute_pdf_page(9, true, &mapping), 7);
    // Before the first page there is only page 0.
    assert_eq!(compute_pdf_page(1, true, &mapping), 0);
    let copy = mapping.clone();
    assert_eq!(compute_pdf_page(20, false, &copy), 21);
}

#[test]
fn the_map_goes_before_the_anchor_for_body_pages_only() {
    let mut mapping = PageMapping::default();
    mapping.rebuild_page_map(&["50 text".to_string(), "51 text".to_string()]);
    assert_eq!(compute_pdf_page(51, false, &mapping), 2);
    assert_eq!(compute_pdf_page(51, true, &mapping), 51);
}

#[test]
fn pages_behind_the_map_follow_the_anchor() {
    let mapping = PageMapping {
        page_map: PageNumberMap::build(&["100 A"], 1),
        ..PageMapping::default()
    };
    assert_eq!(compute_pdf_page(100, false, &mapping), 1);
    assert_eq!(compute_pdf_page(101, false, &mapping), 101);
    // Counting back from page 100 leads before the first page.
    assert_eq!(compute_pdf_page(99, false, &mapping), 99);
    assert!(mapping.page_map.covers(100) && mapping.page_map.covers(1));
    assert!(!mapping.page_map.covers(101));
    assert!(!PageNumberMap::empty().covers(0));
    // The map by itself extends forward.
    assert_eq!(mapping.page_map.get_pdf_page(101), Some(2));
}

#[test]
fn anchor_overrides_apply_only_when_non_default() {
    let mut mapping = PageMapping {
        arabic_start_logical: 11,
        arabic_start_pdf: 12,
        roman_start_logical: 7,
        roman_start_pdf: 5,
        page_map: PageNumberMap::empty(),
    };
    apply_anchor_overrides(&mut mapping, "1:1", "vii:3").unwrap();
    assert_eq!(mapping.arabic_start_logical, 11);
    assert_eq!(mapping.arabic_start_pdf, 12);
    assert_eq!(mapping.roman_start_logical, 7);
    assert_eq!(mapping.roman_start_pdf, 3);
}

#[test]
fn offsets_are_read() {
    assert_eq!(parse_offset("1:21").unwrap(), (1, 21));
    assert_eq!(parse_offset("vii:5").unwrap(), (7, 5));
    assert_eq!(parse_offset("+3:4").unwrap(), (3, 4));
}

#[test]
fn bad_offsets_are_refused() {
    assert!(matches!(parse_offset("121"), Err(OffsetError::MissingColon(s)) if s == "121"));
    assert!(matches!(parse_offset("a:1"), Err(OffsetError::InvalidLogicalPage(s)) if s == "a"));
    assert!(matches!(parse_offset(":1"), Err(OffsetError::InvalidLogicalPage(s)) if s.is_empty()));
    assert!(matches!(parse_offset("1:x"), Err(OffsetError::InvalidPdfPage(s)) if s == "x"));
    assert!(matches!(parse_offset("1:2:3"), Err(OffsetError::InvalidPdfPage(s)) if s == "2:3"));
    assert!(matches!(parse_offset("1:v"), Err(OffsetError::InvalidPdfPage(_))));
}

#[test]
fn a_refused_roman_anchor_leaves_the_arabic_one_applied() {
    let mut mapping = PageMapping::default();
    assert!(apply_anchor_overrides(&mut mapping, "2:22", "bad").is_err());
    assert_eq!((mapping.arabic_start_logical, mapping.arabic_start_pdf), (2, 22));
    assert_eq!((mapping.roman_start_logical, mapping.roman_start_pdf), (1, 1));
    assert!(apply_anchor_overrides(&mut mapping, "bad", "v:9").is_err());
    assert_eq!((mapping.roman_start_logical, mapping.roman_start_pdf), (1, 1));
}

#[test]
fn a_specification_gives_its_entries_and_anchors() {
    let spec = OutlineSpec {
        arabic_start_logical: one(),
        arabic_start_pdf: 21,
        roman_start_logical: 7,
        roman_start_pdf: 5,
        outline: vec![OutlineEntry {
            title: "Preface".into(),
            page: 7,
            roman: true,
            children: vec![],
        }],
    };
    let (entries, mapping) = outline_from_spec(spec);
    assert_eq!(entries.len(), 1);
    assert_eq!(entries[0].title, "Preface");
    assert_eq!(mapping.arabic_start_logical, 1);
    assert_eq!(mapping.arabic_start_pdf, 21);
    assert_eq!(compute_pdf_page(7, true, &mapping), 5);
    assert_eq!(mapping.page_map.get_pdf_page(1), None);
}

#[test]
fn split_text_is_joined_again() {
    for s in ["", "a", "a\x0cb", "\x0c\x0c", "one\x0c\x0ctwo\x0c"] {
        let all = chars(s);
        assert_eq!(to_text(&join_parts(&split_on(&all, '\x0c'), '\x0c')), s);
    }
    let line = chars("1.2 Graphs 17");
    assert_eq!(to_text(&join_parts(&split_words(&line), ' ')), "1.2 Graphs 17");
}

#[test]
fn texts_are_ordered_as_std_orders_them() {
    let samples = ["", "a", "A", "ab", "b", "a.json", "a-outline.json", "ä", "z", "\u{ffff}", "𝄞"];
    for a in samples {
        for b in samples {
            assert_eq!(less_text(&chars(a), &chars(b)), a < b, "{a:?} {b:?}");
        }
    }
}

#[test]
fn standard_roman_numerals_are_read_back() {
    let places: [(u32, &str); 13] = [
        (1000, "M"), (900, "CM"), (500, "D"), (400, "CD"), (100, "C"), (90, "XC"), (50, "L"),
        (40, "XL"), (10, "X"), (9, "IX"), (5, "V"), (4, "IV"), (1, "I"),
    ];
    for n in 1..=3999u32 {
        let mut left = n;
        let mut numeral = String::new();
        for (value, digits) in places {
            while left >= value {
                numeral.push_str(digits);
                left -= value;
            }
        }
        assert_eq!(roman_to_int(&numeral), Some(n));
        assert_eq!(roman_to_int(&numeral.to_lowercase()), Some(n));
    }
}
