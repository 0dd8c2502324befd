//! Extracting the table of contents from the text of a PDF.
use crate::mapping;
use crate::model;
use crate::numerals;
use crate::page_map;
use crate::text;
use crate::toc;
use crate::toc_tree;
use crate::mapping::PageMapping;
use crate::model::{OutlineEntry, OutlineNode};
use crate::numerals::parse_roman;
use crate::page_map::PageNumberMap;
use crate::text::{
    contains, equals, join_parts, lower_text, split_lines, split_on, split_words, starts_with,
    to_chars, to_text, trim_text,
};
use crate::toc::{parse_toc_entries, TocError, TocItem};
use crate::toc_tree::{build_toc_tree, FlatNode};
use vstd::prelude::*;

verus! {

/// Result of extracting a table of contents from the contents pages of a PDF.
pub struct TocExtraction {
    pub entries: Vec<OutlineEntry>,
    pub mapping: PageMapping,
    /// The raw text of every page. It is needed to rebuild the page map after
    /// the page-number anchors were edited.
    pub page_texts: Vec<String>,
}

/// The first of the pages from `from` up to `to` that passes the test, or
/// `to` when none does.
pub open spec fn first_page(
    pages: Seq<Seq<char>>,
    from: int,
    to: int,
    test: spec_fn(Seq<char>) -> bool,
) -> int
    decreases to - from,
{
    if from >= to {
        to
    } else if test(pages[from]) {
        from
    } else {
        first_page(pages, from + 1, to, test)
    }
}

/// The lines of a text, each trimmed and in lower case.
pub open spec fn plain_lines(s: Seq<char>) -> Seq<Seq<char>> {
    text::lines(s).map_values(|line: Seq<char>| text::lower(text::trim(line)))
}

/// Whether a plain line is the heading of a table of contents: its first word
/// is "contents" or "inhalt", or it names the table of contents in full.
pub open spec fn is_heading(line: Seq<char>) -> bool {
    let words = text::words(line);
    ||| words.len() > 0 && (words[0] == "contents"@ || words[0] == "inhalt"@)
    ||| text::contains_text(line, "table of contents"@)
    ||| text::contains_text(line, "inhaltsverzeichnis"@)
}

/// Whether a page has the heading of a table of contents.
pub open spec fn has_heading(page: Seq<char>) -> bool {
    exists|i: int| 0 <= i < plain_lines(page).len() && is_heading(#[trigger] plain_lines(page)[i])
}

/// Whether a plain line is "chapter 1", or a 1 with a title behind it.
pub open spec fn is_chapter_one(line: Seq<char>) -> bool {
    ||| line == "chapter 1"@
    ||| text::occurs_at(line, "1 "@, 0) && line.len() > 2 && text::is_letter(line[2])
}

/// Whether a page behind the first contents page is no contents page any
/// more: it is blank, or a line on it starts the first chapter.
pub open spec fn ends_contents(page: Seq<char>) -> bool {
    let rows = plain_lines(text::trim(page));
    text::trim(page).len() == 0 || exists|i: int|
        0 <= i < rows.len() && (#[trigger] rows[i] == "1"@ || is_chapter_one(rows[i]))
}

/// Whether a page looks like the start of the first chapter. A lone 1 counts
/// only where the second line of the page holds text.
pub open spec fn opens_body(page: Seq<char>) -> bool {
    let lines = text::lines(text::trim(page));
    let rows = plain_lines(text::trim(page));
    exists|i: int|
        0 <= i < rows.len() && (is_chapter_one(#[trigger] rows[i]) || (rows[i] == "1"@
            && lines.len() > 1 && text::trim(lines[1]).len() > 0))
}

/// The page where the table of contents starts, or the number of pages when
/// there is none. Pages are counted from 0.
pub open spec fn contents_start(pages: Seq<Seq<char>>) -> int {
    first_page(pages, 0, pages.len() as int, |page: Seq<char>| has_heading(page))
}

/// The page behind the table of contents that starts at `start`. It is looked
/// for on the nine pages that follow; where none of them ends the contents,
/// eight pages are taken.
pub open spec fn contents_end(pages: Seq<Seq<char>>, start: int) -> int {
    let to = if start + 10 < pages.len() {
        start + 10
    } else {
        pages.len() as int
    };
    let n = first_page(pages, start + 1, to, |page: Seq<char>| ends_contents(page));
    if n < to {
        n
    } else {
        start + 8
    }
}

/// The text of the contents pages from `start` up to `end`.
pub open spec fn contents_text(pages: Seq<Seq<char>>, start: int, end: int) -> Seq<char> {
    text::join(
        pages.subrange(
            start,
            if end < pages.len() {
                end
            } else {
                pages.len() as int
            },
        ),
        '\n',
    )
}

/// The entries that the table of contents of the pages holds.
pub open spec fn contents_entries(pages: Seq<Seq<char>>) -> Seq<TocItem> {
    let start = contents_start(pages);
    toc::entries_of(text::lines(contents_text(pages, start, contents_end(pages, start))))
}

/// Whether a page belongs to the preface.
pub open spec fn is_preface(page: Seq<char>) -> bool {
    text::contains_text(page, "Preface"@) || text::contains_text(page, "Vorwort"@)
}

/// The first of the words that is a Roman numeral from 1 to 29, as a number.
pub open spec fn small_numeral(words: Seq<Seq<char>>) -> Option<u32>
    decreases words.len(),
{
    if words.len() == 0 {
        None
    } else {
        match numerals::roman(words[0]) {
            Some(n) if 1 <= n < 30 => Some(n),
            _ => small_numeral(words.skip(1)),
        }
    }
}

/// The Roman number of the page `at`. A numeral on one of the pages that
/// follow it, up to the fourth page and before the page `to`, is counted back.
pub open spec fn preface_number(
    pages: Seq<Seq<char>>,
    at: int,
    to: int,
    ahead: nat,
) -> Option<u32>
    decreases 4 - ahead,
{
    if ahead >= 4 || at + ahead >= to {
        None
    } else {
        match small_numeral(text::words(pages[at + ahead])) {
            Some(n) => Some(
                if n < ahead {
                    0
                } else {
                    (n - ahead) as u32
                },
            ),
            None => preface_number(pages, at, to, ahead + 1),
        }
    }
}

/// The Roman anchor, where the table of contents starts at the page `start`:
/// the first page of the preface and its number. Where no number is found the
/// preface counts as numbered like the PDF.
pub open spec fn guessed_roman(pages: Seq<Seq<char>>, start: int) -> (u32, u32) {
    let to = if start < pages.len() {
        start
    } else {
        pages.len() as int
    };
    let at = first_page(pages, 0, to, |page: Seq<char>| is_preface(page));
    if at < to {
        let pdf = numerals::wrap32(at + 1);
        match preface_number(pages, at, to, 0) {
            Some(n) => (n, pdf),
            None => (pdf, pdf),
        }
    } else {
        (1, 1)
    }
}

/// The Arabic anchor, where the table of contents ends before the page `end`:
/// page 1 is the first page from there on that looks like the first chapter.
pub open spec fn guessed_arabic(pages: Seq<Seq<char>>, end: int) -> (u32, u32) {
    let at = first_page(pages, end, pages.len() as int, |page: Seq<char>| opens_body(page));
    if at < pages.len() {
        (1, numerals::wrap32(at + 1))
    } else {
        (1, 1)
    }
}

/// Whether a mapping is the one that is guessed from the pages.
pub open spec fn is_guessed(m: PageMapping, pages: Seq<Seq<char>>, start: int, end: int) -> bool {
    &&& mapping::roman_anchor(m) == guessed_roman(pages, start)
    &&& mapping::arabic_anchor(m) == guessed_arabic(pages, end)
    &&& m.page_map@ == page_map::sanitized(page_map::page_index(pages, m.arabic_start_pdf))
}

/// The entry that leads to the table of contents itself, which starts at the
/// page `start`. Its page is counted from the Roman anchor.
pub open spec fn contents_entry(start: int, anchor: (u32, u32)) -> FlatNode {
    let pdf = numerals::wrap32(start + 1);
    let ahead = if pdf < anchor.1 {
        0
    } else {
        pdf - anchor.1
    };
    FlatNode {
        depth: 1,
        title: "Contents"@,
        page: numerals::wrap32(ahead + anchor.0),
        roman: true,
    }
}

/// An extracted outline has one entry for each line of the table of contents
/// that could be read, and one for the table of contents itself, which comes
/// first.
pub proof fn extraction_counts_entries(
    nodes: Seq<OutlineNode>,
    first: FlatNode,
    lines: Seq<TocItem>,
)
    requires
        toc_tree::flatten(nodes, 1) == seq![first] + toc_tree::nested(lines),
    ensures
        model::node_count(nodes) == lines.len() + 1,
        nodes.len() > 0,
        toc_tree::flatten(nodes, 1)[0] == first,
{
    toc_tree::flatten_counts_nodes(nodes, 1);
    toc_tree::nesting_keeps_lines(lines);
}

proof fn lemma_first_page(
    pages: Seq<Seq<char>>,
    from: int,
    to: int,
    test: spec_fn(Seq<char>) -> bool,
    n: int,
)
    requires
        from <= n <= to,
        forall|j: int| from <= j < n ==> !test(#[trigger] pages[j]),
        n < to ==> test(pages[n]),
    ensures
        first_page(pages, from, to, test) == n,
    decreases n - from,
{
    if from < n {
        assert(!test(pages[from]));
        lemma_first_page(pages, from + 1, to, test, n);
    }
}

/// The lines of a text, each trimmed and in lower case.
fn lowered_lines(s: &[char]) -> (r: Vec<Vec<char>>)
    ensures
        r@.len() == plain_lines(s@).len(),
        forall|i: int| 0 <= i < r@.len() ==> (#[trigger] r@[i])@ == plain_lines(s@)[i],
{
    let lines = split_lines(s);
    let ghost rows = text::texts(lines@);
    let mut out: Vec<Vec<char>> = Vec::new();
    let mut i: usize = 0;
    while i < lines.len()
        invariant
            i <= lines@.len(),
            rows == text::texts(lines@),
            rows == text::lines(s@),
            out@.len() == i,
            forall|j: int| 0 <= j < i ==> (#[trigger] out@[j])@ == plain_lines(s@)[j],
        decreases lines@.len() - i,
    {
        proof {
            assert(rows[i as int] == lines@[i as int]@);
        }
        out.push(lower_text(trim_text(lines[i])));
        i += 1;
    }
    out
}

/// Whether a plain line is the heading of a table of contents.
pub fn is_contents_heading(line: &[char]) -> (r: bool)
    ensures
        r == is_heading(line@),
{
    let words = split_words(line);
    proof {
        if words@.len() > 0 {
            assert(text::texts(words@)[0] == words@[0]@);
        }
    }
    if words.len() > 0 && (equals(words[0], "contents") || equals(words[0], "inhalt")) {
        return true;
    }
    contains(line, "table of contents") || contains(line, "inhaltsverzeichnis")
}

/// Whether a plain line is "chapter 1", or a 1 with a title behind it.
pub fn starts_chapter_one(line: &[char]) -> (r: bool)
    ensures
        r == is_chapter_one(line@),
{
    equals(line, "chapter 1") || (starts_with(line, "1 ") && line.len() > 2
        && line[2].is_alphabetic())
}

/// Whether a page has the heading of a table of contents.
pub fn has_contents_heading(page: &str) -> (r: bool)
    ensures
        r == has_heading(page@),
{
    let chars = to_chars(page);
    let rows = lowered_lines(chars.as_slice());
    let mut i: usize = 0;
    while i < rows.len()
        invariant
            i <= rows@.len(),
            rows@.len() == plain_lines(page@).len(),
            forall|j: int| 0 <= j < rows@.len() ==> (#[trigger] rows@[j])@ == plain_lines(page@)[j],
            forall|j: int| 0 <= j < i ==> !is_heading(#[trigger] plain_lines(page@)[j]),
        decreases rows@.len() - i,
    {
        proof {
            assert(rows@[i as int]@ == plain_lines(page@)[i as int]);
        }
        if is_contents_heading(rows[i].as_slice()) {
            return true;
        }
        i += 1;
    }
    false
}

/// Whether a page behind the first contents page is no contents page any
/// more.
pub fn is_behind_contents(page: &str) -> (r: bool)
    ensures
        r == ends_contents(page@),
{
    let chars = to_chars(page);
    let body = trim_text(chars.as_slice());
    if body.len() == 0 {
        return true;
    }
    let rows = lowered_lines(body);
    let ghost plain = plain_lines(body@);
    let mut i: usize = 0;
    while i < rows.len()
        invariant
            i <= rows@.len(),
            plain == plain_lines(text::trim(page@)),
            rows@.len() == plain.len(),
            forall|j: int| 0 <= j < rows@.len() ==> (#[trigger] rows@[j])@ == plain[j],
            forall|j: int|
                0 <= j < i ==> !(#[trigger] plain[j] == "1"@ || is_chapter_one(plain[j])),
        decreases rows@.len() - i,
    {
        proof {
            assert(rows@[i as int]@ == plain[i as int]);
        }
        if equals(rows[i].as_slice(), "1") || starts_chapter_one(rows[i].as_slice()) {
            return true;
        }
        i += 1;
    }
    false
}

/// Whether a page looks like the start of the first chapter.
pub fn looks_like_chapter_one(page: &str) -> (r: bool)
    ensures
        r == opens_body(page@),
{
    let chars = to_chars(page);
    let body = trim_text(chars.as_slice());
    let lines = split_lines(body);
    proof {
        if lines@.len() > 1 {
            assert(text::texts(lines@)[1] == lines@[1]@);
        }
    }
    let second = lines.len() > 1 && trim_text(lines[1]).len() > 0;
    let rows = lowered_lines(body);
    let ghost plain = plain_lines(body@);
    let mut i: usize = 0;
    while i < rows.len()
        invariant
            i <= rows@.len(),
            plain == plain_lines(text::trim(page@)),
            rows@.len() == plain.len(),
            second == (text::lines(text::trim(page@)).len() > 1 && text::trim(
                text::lines(text::trim(page@))[1],
            ).len() > 0),
            forall|j: int| 0 <= j < rows@.len() ==> (#[trigger] rows@[j])@ == plain[j],
            forall|j: int|
                0 <= j < i ==> !(is_chapter_one(#[trigger] plain[j]) || (plain[j] == "1"@
                    && second)),
        decreases rows@.len() - i,
    {
        proof {
            assert(rows@[i as int]@ == plain[i as int]);
        }
        if starts_chapter_one(rows[i].as_slice()) || (second && equals(rows[i].as_slice(), "1")) {
            return true;
        }
        i += 1;
    }
    false
}

/// A page counted from 0 as a page counted from 1, in 32 bits.
fn one_based(page: usize) -> (r: u32)
    ensures
        r == numerals::wrap32(page + 1),
{
    ((page as u128 + 1) % 0x1_0000_0000) as u32
}

/// The first of the words of a page that is a Roman numeral from 1 to 29.
fn find_small_numeral(page: &str) -> (r: Option<u32>)
    ensures
        r == small_numeral(text::words(page@)),
{
    let chars = to_chars(page);
    let words = split_words(chars.as_slice());
    let ghost parts = text::texts(words@);
    let mut i: usize = 0;
    proof {
        assert(parts.skip(0) =~= parts);
    }
    while i < words.len()
        invariant
            i <= words@.len(),
            parts == text::texts(words@),
            parts == text::words(page@),
            small_numeral(parts.skip(i as int)) == small_numeral(parts),
        decreases words@.len() - i,
    {
        proof {
            assert(parts.skip(i as int)[0] == words@[i as int]@);
            assert(parts.skip(i as int).skip(1) =~= parts.skip(i + 1));
        }
        if let Some(n) = parse_roman(words[i]) {
            if n >= 1 && n < 30 {
                return Some(n);
            }
        }
        i += 1;
    }
    None
}

/// The Roman number of the preface that starts at the page `at`.
fn find_preface_number(pages: &[&str], at: usize, to: usize) -> (r: Option<u32>)
    requires
        at < to <= pages@.len(),
    ensures
        r == preface_number(text::str_texts(pages@), at as int, to as int, 0),
{
    let ghost all = text::str_texts(pages@);
    let mut ahead: usize = 0;
    while ahead < 4 && ahead < to - at
        invariant
            at < to <= pages@.len(),
            ahead <= 4,
            all == text::str_texts(pages@),
            preface_number(all, at as int, to as int, ahead as nat) == preface_number(
                all,
                at as int,
                to as int,
                0,
            ),
        decreases 4 - ahead,
    {
        proof {
            assert(all[at + ahead] == pages@[at + ahead]@);
        }
        if let Some(n) = find_small_numeral(pages[at + ahead]) {
            return Some(n.saturating_sub(ahead as u32));
        }
        ahead += 1;
    }
    None
}

/// Guesses the Roman anchor from the preface.
fn guess_roman(pages: &[&str], toc_start: usize) -> (r: (u32, u32))
    ensures
        r == guessed_roman(text::str_texts(pages@), toc_start as int),
{
    let ghost all = text::str_texts(pages@);
    let ghost test = |page: Seq<char>| is_preface(page);
    let to: usize = if toc_start < pages.len() {
        toc_start
    } else {
        pages.len()
    };
    let mut i: usize = 0;
    while i < to
        invariant
            i <= to <= pages@.len(),
            all == text::str_texts(pages@),
            test == |page: Seq<char>| is_preface(page),
            to == if toc_start < pages@.len() {
                toc_start as int
            } else {
                pages@.len() as int
            },
            forall|j: int| 0 <= j < i ==> !test(#[trigger] all[j]),
        decreases to - i,
    {
        let chars = to_chars(pages[i]);
        proof {
            assert(all[i as int] == pages@[i as int]@);
        }
        if contains(chars.as_slice(), "Preface") || contains(chars.as_slice(), "Vorwort") {
            proof {
                lemma_first_page(all, 0, to as int, test, i as int);
            }
            let pdf: u32 = one_based(i);
            return match find_preface_number(pages, i, to) {
                Some(n) => (n, pdf),
                None => (pdf, pdf),
            };
        }
        i += 1;
    }
    proof {
        lemma_first_page(all, 0, to as int, test, to as int);
    }
    (1, 1)
}

/// Guesses the Arabic anchor from the start of the first chapter.
fn guess_arabic(pages: &[&str], toc_end: usize) -> (r: (u32, u32))
    ensures
        r == guessed_arabic(text::str_texts(pages@), toc_end as int),
{
    let ghost all = text::str_texts(pages@);
    let ghost test = |page: Seq<char>| opens_body(page);
    let mut i: usize = toc_end;
    while i < pages.len()
        invariant
            toc_end <= i,
            i <= pages@.len() || i == toc_end,
            all == text::str_texts(pages@),
            test == |page: Seq<char>| opens_body(page),
            forall|j: int| toc_end <= j < i ==> !test(#[trigger] all[j]),
        decreases pages@.len() - i,
    {
        proof {
            assert(all[i as int] == pages@[i as int]@);
        }
        if looks_like_chapter_one(pages[i]) {
            proof {
                lemma_first_page(all, toc_end as int, all.len() as int, test, i as int);
            }
            return (1, one_based(i));
        }
        i += 1;
    }
    proof {
        if toc_end <= all.len() {
            lemma_first_page(all, toc_end as int, all.len() as int, test, all.len() as int);
        }
    }
    (1, 1)
}

/// Guesses the Arabic and Roman page-number anchors.
///
/// The Roman anchor is found by locating the preface before the table of
/// contents and the Roman numeral on it or on one of the pages behind it. The
/// Arabic anchor is the first page behind the table of contents that looks
/// like the first chapter. The page map is built from there on.
pub fn guess_offsets(pages: &[&str], toc_start: usize, toc_end: usize) -> (r: PageMapping)
    ensures
        is_guessed(r, text::str_texts(pages@), toc_start as int, toc_end as int),
{
    let (roman_start_logical, roman_start_pdf) = guess_roman(pages, toc_start);
    let (arabic_start_logical, arabic_start_pdf) = guess_arabic(pages, toc_end);
    PageMapping {
        arabic_start_logical,
        arabic_start_pdf,
        roman_start_logical,
        roman_start_pdf,
        page_map: PageNumberMap::build(pages, arabic_start_pdf),
    }
}

/// Finds the page where the table of contents starts.
fn find_contents_start(pages: &[&str]) -> (r: Option<usize>)
    ensures
        match r {
            Some(i) => i == contents_start(text::str_texts(pages@)) && i < pages@.len(),
            None => contents_start(text::str_texts(pages@)) == pages@.len(),
        },
{
    let ghost all = text::str_texts(pages@);
    let ghost test = |page: Seq<char>| has_heading(page);
    let mut i: usize = 0;
    while i < pages.len()
        invariant
            i <= pages@.len(),
            all == text::str_texts(pages@),
            test == |page: Seq<char>| has_heading(page),
            forall|j: int| 0 <= j < i ==> !test(#[trigger] all[j]),
        decreases pages@.len() - i,
    {
        proof {
            assert(all[i as int] == pages@[i as int]@);
        }
        if has_contents_heading(pages[i]) {
            proof {
                lemma_first_page(all, 0, all.len() as int, test, i as int);
            }
            return Some(i);
        }
        i += 1;
    }
    proof {
        lemma_first_page(all, 0, all.len() as int, test, i as int);
    }
    None
}

/// Finds the page behind the table of contents, or the number of pages where
/// that page would lie behind the last one.
fn find_contents_end(pages: &[&str], start: usize) -> (r: usize)
    requires
        start < pages@.len(),
    ensures
        ({
            let end = contents_end(text::str_texts(pages@), start as int);
            r == if end < pages@.len() {
                end
            } else {
                pages@.len() as int
            }
        }),
        start < r <= pages@.len(),
{
    let ghost all = text::str_texts(pages@);
    let ghost test = |page: Seq<char>| ends_contents(page);
    let left: usize = pages.len() - start;
    let to: usize = if left > 10 {
        start + 10
    } else {
        pages.len()
    };
    let mut i: usize = start + 1;
    while i < to
        invariant
            start < i <= to <= pages@.len(),
            all == text::str_texts(pages@),
            test == |page: Seq<char>| ends_contents(page),
            to == if start + 10 < pages@.len() {
                start + 10
            } else {
                pages@.len() as int
            },
            forall|j: int| start < j < i ==> !test(#[trigger] all[j]),
        decreases to - i,
    {
        proof {
            assert(all[i as int] == pages@[i as int]@);
        }
        if is_behind_contents(pages[i]) {
            proof {
                lemma_first_page(all, start + 1, to as int, test, i as int);
            }
            return i;
        }
        i += 1;
    }
    proof {
        lemma_first_page(all, start + 1, to as int, test, to as int);
    }
    if left > 8 {
        start + 8
    } else {
        pages.len()
    }
}

/// The text of the contents pages from `start` up to `end`.
fn join_contents(pages: &[&str], start: usize, end: usize) -> (r: String)
    requires
        start <= end <= pages@.len(),
    ensures
        r@ == contents_text(text::str_texts(pages@), start as int, end as int),
{
    let ghost all = text::str_texts(pages@);
    let mut chars: Vec<Vec<char>> = Vec::new();
    let mut i: usize = start;
    while i < end
        invariant
            start <= i <= end <= pages@.len(),
            chars@.len() == i - start,
            forall|j: int| 0 <= j < chars@.len() ==> (#[trigger] chars@[j])@ == pages@[start + j]@,
        decreases end - i,
    {
        chars.push(to_chars(pages[i]));
        i += 1;
    }
    let mut parts: Vec<&[char]> = Vec::new();
    let mut k: usize = 0;
    while k < chars.len()
        invariant
            k <= chars@.len(),
            parts@.len() == k,
            forall|j: int| 0 <= j < k ==> (#[trigger] parts@[j])@ == chars@[j]@,
        decreases chars@.len() - k,
    {
        parts.push(chars[k].as_slice());
        k += 1;
    }
    let joined = join_parts(parts.as_slice(), '\n');
    proof {
        assert(text::texts(parts@) =~= all.subrange(start as int, end as int));
    }
    to_text(joined.as_slice())
}

/// Locates the table of contents in the text of a PDF, parses its entries,
/// and guesses the page mapping.
///
/// The text holds the pages in order, with a form feed between neighbours. An
/// entry for the table of contents itself is put before the others.
#[verifier::rlimit(50)]
pub fn extract_toc(text: &str) -> (r: Result<TocExtraction, TocError>)
    ensures
        ({
            let pages = text::split_text(text@, '\x0c');
            let start = contents_start(pages);
            match r {
                Err(TocError::NoContentsPage) => start == pages.len(),
                Err(TocError::NoEntries) => start < pages.len() && contents_entries(pages).len()
                    == 0,
                Ok(found) => {
                    &&& start < pages.len()
                    &&& contents_entries(pages).len() > 0
                    &&& text::string_texts(found.page_texts@) == pages
                    &&& is_guessed(found.mapping, pages, start, contents_end(pages, start))
                    &&& toc_tree::flatten(model::outline(found.entries@), 1) == seq![
                        contents_entry(start, guessed_roman(pages, start)),
                    ] + toc_tree::nested(contents_entries(pages))
                },
            }
        }),
{
    let chars = to_chars(text);
    let pieces = split_on(chars.as_slice(), '\x0c');
    let ghost all = text::split_text(text@, '\x0c');
    let mut page_texts: Vec<String> = Vec::new();
    let mut i: usize = 0;
    while i < pieces.len()
        invariant
            i <= pieces@.len(),
            page_texts@.len() == i,
            forall|j: int| 0 <= j < i ==> (#[trigger] page_texts@[j])@ == pieces@[j]@,
        decreases pieces@.len() - i,
    {
        page_texts.push(to_text(pieces[i]));
        i += 1;
    }
    proof {
        assert(text::string_texts(page_texts@) =~= text::texts(pieces@));
    }
    let mut pages: Vec<&str> = Vec::new();
    let mut k: usize = 0;
    while k < page_texts.len()
        invariant
            k <= page_texts@.len(),
            pages@.len() == k,
            forall|j: int| 0 <= j < k ==> (#[trigger] pages@[j])@ == page_texts@[j]@,
        decreases page_texts@.len() - k,
    {
        pages.push(page_texts[k].as_str());
        k += 1;
    }
    proof {
        assert(text::str_texts(pages@) =~= all);
    }
    let start: usize = match find_contents_start(pages.as_slice()) {
        Some(start) => start,
        None => {
            return Err(TocError::NoContentsPage);
        },
    };
    let end: usize = find_contents_end(pages.as_slice(), start);
    let toc_text = join_contents(pages.as_slice(), start, end);
    let parsed = match parse_toc_entries(toc_text.as_str()) {
        Ok(parsed) => parsed,
        Err(_) => {
            return Err(TocError::NoEntries);
        },
    };
    let mapping = guess_offsets(pages.as_slice(), start, end);
    let mut entries = build_toc_tree(parsed.as_slice());
    let toc_pdf: u32 = one_based(start);
    let toc_logical: u32 = toc_pdf.saturating_sub(mapping.roman_start_pdf).wrapping_add(
        mapping.roman_start_logical,
    );
    let contents = OutlineEntry {
        title: "Contents".to_owned(),
        page: toc_logical,
        roman: true,
        children: Vec::new(),
    };
    let ghost tree = entries@;
    entries.insert(0, contents);
    proof {
        lemma_contents_first(tree, contents);
        lemma_arabic_behind(all, end as int, contents_end(all, start as int));
    }
    Ok(TocExtraction { entries, mapping, page_texts })
}

proof fn lemma_contents_first(tree: Seq<OutlineEntry>, contents: OutlineEntry)
    requires
        contents.children@.len() == 0,
    ensures
        toc_tree::flatten(model::outline(tree.insert(0, contents)), 1) == seq![
            toc_tree::at_depth(contents@, 1),
        ] + toc_tree::flatten(model::outline(tree), 1),
{
    let all = tree.insert(0, contents);
    model::lemma_outline_index(tree);
    model::lemma_outline_index(all);
    let first = seq![contents@];
    assert(model::outline(all) =~= first + model::outline(tree));
    toc_tree::flatten_concatenates(first, model::outline(tree), 1);
    assert(first.drop_last() =~= seq![]);
    reveal_with_fuel(toc_tree::flatten, 2);
    assert(contents@.children =~= seq![]);
    assert(toc_tree::flatten(first, 1) =~= seq![toc_tree::at_depth(contents@, 1)]);
}

/// Looking for the first chapter from the end of the pages on finds as little
/// as looking from further behind.
proof fn lemma_arabic_behind(pages: Seq<Seq<char>>, a: int, b: int)
    requires
        a == b || (a == pages.len() && b >= a),
    ensures
        guessed_arabic(pages, a) == guessed_arabic(pages, b),
{
}

} // verus!
