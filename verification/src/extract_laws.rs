//! What holds of a table of contents that is found in the text of a PDF, and
//! of the page anchors that are guessed from it.
use crate::extract;
use crate::numerals;
use crate::page_map;
use crate::text;
use crate::toc;
use crate::mapping::PageMapping;
use vstd::prelude::*;

verus! {

/// A page has the heading of a table of contents exactly when one of its
/// lines, trimmed and in lower case, starts with the word "contents" or
/// "inhalt", or names the table of contents in full.
pub proof fn headings_name_the_contents(page: Seq<char>)
    ensures
        extract::has_heading(page) <==> exists|i: int|
            0 <= i < text::lines(page).len() && ({
                let line = text::lower(text::trim(#[trigger] text::lines(page)[i]));
                let words = text::words(line);
                ||| words.len() > 0 && words[0] == "contents"@
                ||| words.len() > 0 && words[0] == "inhalt"@
                ||| text::contains_text(line, "table of contents"@)
                ||| text::contains_text(line, "inhaltsverzeichnis"@)
            }),
{
    let rows = extract::plain_lines(page);
    assert(rows.len() == text::lines(page).len());
    assert forall|i: int| 0 <= i < rows.len() implies #[trigger] rows[i] == text::lower(
        text::trim(text::lines(page)[i]),
    ) by {}
    if extract::has_heading(page) {
        let i = choose|i: int| 0 <= i < rows.len() && extract::is_heading(#[trigger] rows[i]);
        assert(rows[i] == text::lower(text::trim(text::lines(page)[i])));
    }
    if exists|i: int|
        0 <= i < text::lines(page).len() && extract::is_heading(
            text::lower(text::trim(#[trigger] text::lines(page)[i])),
        ) {
        let i = choose|i: int|
            0 <= i < text::lines(page).len() && extract::is_heading(
                text::lower(text::trim(#[trigger] text::lines(page)[i])),
            );
        assert(extract::is_heading(rows[i]));
    }
}

/// Whether a line starts the first chapter: it is "chapter 1", or a 1, one
/// space and a letter.
proof fn lemma_chapter_one(line: Seq<char>)
    ensures
        extract::is_chapter_one(line) <==> line == "chapter 1"@ || (line.len() > 2 && line[0] == '1'
            && line[1] == ' ' && text::is_letter(line[2])),
{
    reveal_strlit("1 ");
    assert("1 "@ =~= seq!['1', ' ']);
    if line.len() > 2 {
        let start = line.subrange(0, 2);
        assert(start[0] == line[0] && start[1] == line[1]);
        if line[0] == '1' && line[1] == ' ' {
            assert(start =~= "1 "@);
        }
    }
}

/// A page behind the first contents page ends the contents exactly when it is
/// blank, or one of its lines, trimmed and in lower case, is "1", "chapter 1",
/// or a 1, one space and a letter.
pub proof fn contents_end_where_the_first_chapter_starts(page: Seq<char>)
    ensures
        extract::ends_contents(page) <==> text::trim(page).len() == 0 || exists|i: int|
            0 <= i < text::lines(text::trim(page)).len() && ({
                let line = text::lower(text::trim(#[trigger] text::lines(text::trim(page))[i]));
                ||| line == "1"@
                ||| line == "chapter 1"@
                ||| line.len() > 2 && line[0] == '1' && line[1] == ' ' && text::is_letter(line[2])
            }),
{
    let lines = text::lines(text::trim(page));
    let rows = extract::plain_lines(text::trim(page));
    assert(rows.len() == lines.len());
    assert forall|i: int| 0 <= i < rows.len() implies #[trigger] rows[i] == text::lower(
        text::trim(lines[i]),
    ) by {}
    assert forall|i: int| 0 <= i < rows.len() implies (extract::is_chapter_one(#[trigger] rows[i])
        <==> rows[i] == "chapter 1"@ || (rows[i].len() > 2 && rows[i][0] == '1' && rows[i][1] == ' '
        && text::is_letter(rows[i][2]))) by {
        lemma_chapter_one(rows[i]);
    }
    if extract::ends_contents(page) && text::trim(page).len() > 0 {
        let i = choose|i: int|
            0 <= i < rows.len() && (#[trigger] rows[i] == "1"@ || extract::is_chapter_one(rows[i]));
        assert(rows[i] == text::lower(text::trim(lines[i])));
    }
    if exists|i: int|
        0 <= i < lines.len() && ({
            let line = text::lower(text::trim(#[trigger] lines[i]));
            line == "1"@ || extract::is_chapter_one(line)
        }) {
        let i = choose|i: int|
            0 <= i < lines.len() && ({
                let line = text::lower(text::trim(#[trigger] lines[i]));
                line == "1"@ || extract::is_chapter_one(line)
            });
        assert(rows[i] == "1"@ || extract::is_chapter_one(rows[i]));
    }
    if exists|i: int|
        0 <= i < lines.len() && ({
            let line = text::lower(text::trim(#[trigger] lines[i]));
            ||| line == "1"@
            ||| line == "chapter 1"@
            ||| line.len() > 2 && line[0] == '1' && line[1] == ' ' && text::is_letter(line[2])
        }) {
        let i = choose|i: int|
            0 <= i < lines.len() && ({
                let line = text::lower(text::trim(#[trigger] lines[i]));
                ||| line == "1"@
                ||| line == "chapter 1"@
                ||| line.len() > 2 && line[0] == '1' && line[1] == ' ' && text::is_letter(line[2])
            });
        assert(rows[i] == "1"@ || extract::is_chapter_one(rows[i]));
    }
}

/// A page looks like the first chapter exactly when one of its lines, trimmed
/// and in lower case, is "chapter 1", or a 1, one space and a letter, or is
/// "1" and the second line of the page holds text.
pub proof fn the_first_chapter_is_known_by_its_title(page: Seq<char>)
    ensures
        extract::opens_body(page) <==> exists|i: int|
            0 <= i < text::lines(text::trim(page)).len() && ({
                let line = text::lower(text::trim(#[trigger] text::lines(text::trim(page))[i]));
                ||| line == "chapter 1"@
                ||| line.len() > 2 && line[0] == '1' && line[1] == ' ' && text::is_letter(line[2])
                ||| line == "1"@ && text::lines(text::trim(page)).len() > 1 && text::trim(
                    text::lines(text::trim(page))[1],
                ).len() > 0
            }),
{
    let lines = text::lines(text::trim(page));
    let rows = extract::plain_lines(text::trim(page));
    let second = lines.len() > 1 && text::trim(lines[1]).len() > 0;
    assert(rows.len() == lines.len());
    assert forall|i: int| 0 <= i < rows.len() implies #[trigger] rows[i] == text::lower(
        text::trim(lines[i]),
    ) by {}
    assert forall|i: int| 0 <= i < rows.len() implies (extract::is_chapter_one(#[trigger] rows[i])
        <==> rows[i] == "chapter 1"@ || (rows[i].len() > 2 && rows[i][0] == '1' && rows[i][1] == ' '
        && text::is_letter(rows[i][2]))) by {
        lemma_chapter_one(rows[i]);
    }
    if extract::opens_body(page) {
        let i = choose|i: int|
            0 <= i < rows.len() && (extract::is_chapter_one(#[trigger] rows[i]) || (rows[i] == "1"@
                && second));
        assert(rows[i] == text::lower(text::trim(lines[i])));
    }
    if exists|i: int|
        0 <= i < lines.len() && ({
            let line = text::lower(text::trim(#[trigger] lines[i]));
            ||| line == "chapter 1"@
            ||| line.len() > 2 && line[0] == '1' && line[1] == ' ' && text::is_letter(line[2])
            ||| line == "1"@ && second
        }) {
        let i = choose|i: int|
            0 <= i < lines.len() && ({
                let line = text::lower(text::trim(#[trigger] lines[i]));
                ||| line == "chapter 1"@
                ||| line.len() > 2 && line[0] == '1' && line[1] == ' ' && text::is_letter(line[2])
                ||| line == "1"@ && second
            });
        assert(extract::is_chapter_one(rows[i]) || (rows[i] == "1"@ && second));
    }
}

proof fn lemma_least(
    pages: Seq<Seq<char>>,
    from: int,
    to: int,
    test: spec_fn(Seq<char>) -> bool,
)
    ensures
        ({
            let r = extract::first_page(pages, from, to, test);
            &&& from <= to ==> from <= r <= to
            &&& from > to ==> r == to
            &&& forall|j: int| from <= j < r ==> !test(#[trigger] pages[j])
            &&& from <= to && r < to ==> test(pages[r])
        }),
    decreases to - from,
{
    if from < to && !test(pages[from]) {
        lemma_least(pages, from + 1, to, test);
        let r = extract::first_page(pages, from, to, test);
        assert forall|j: int| from <= j < r implies !test(#[trigger] pages[j]) by {
            if j > from {
                assert(!test(pages[j]));
            }
        }
    }
}

/// The table of contents starts at the first page with its heading; without
/// one the start lies behind the last page.
pub proof fn contents_start_at_the_first_heading(pages: Seq<Seq<char>>)
    ensures
        0 <= extract::contents_start(pages) <= pages.len(),
        extract::contents_start(pages) < pages.len() ==> extract::has_heading(
            pages[extract::contents_start(pages)],
        ),
        forall|j: int|
            0 <= j < extract::contents_start(pages) ==> !extract::has_heading(#[trigger] pages[j]),
{
    let test = |page: Seq<char>| extract::has_heading(page);
    lemma_least(pages, 0, pages.len() as int, test);
    assert forall|j: int| 0 <= j < extract::contents_start(pages) implies !extract::has_heading(
        #[trigger] pages[j],
    ) by {
        assert(!test(pages[j]));
    }
}

/// The table of contents ends before the first of the nine pages behind its
/// start that ends it. Where none of them does, it takes eight pages.
pub proof fn contents_end_at_the_first_page_that_ends_them(
    pages: Seq<Seq<char>>,
    start: int,
    i: int,
)
    requires
        0 <= start < pages.len(),
    ensures
        start < i < start + 10 && i < pages.len() && extract::ends_contents(pages[i]) && (forall|
            j: int,
        |
            start < j < i ==> !extract::ends_contents(#[trigger] pages[j]))
            ==> extract::contents_end(pages, start) == i,
        (forall|j: int|
            start < j < start + 10 && j < pages.len() ==> !extract::ends_contents(
                #[trigger] pages[j],
            )) ==> extract::contents_end(pages, start) == start + 8,
{
    let to = if start + 10 < pages.len() {
        start + 10
    } else {
        pages.len() as int
    };
    let test = |page: Seq<char>| extract::ends_contents(page);
    lemma_least(pages, start + 1, to, test);
    let r = extract::first_page(pages, start + 1, to, test);
    if r < to {
        assert(extract::ends_contents(pages[r]));
        if start < i < to && i < r {
            assert(!test(pages[i]));
        }
    } else {
        if start < i < to {
            assert(!test(pages[i]));
        }
    }
}

/// The text of the contents is that of its pages in order, each on lines of
/// its own.
pub proof fn contents_pages_follow_each_other(pages: Seq<Seq<char>>, start: int, end: int)
    requires
        0 <= start < end,
        start < pages.len(),
    ensures
        end == start + 1 ==> extract::contents_text(pages, start, end) == pages[start],
        end < pages.len() ==> extract::contents_text(pages, start, end + 1)
            == extract::contents_text(pages, start, end).push('\n') + pages[end],
        end >= pages.len() ==> extract::contents_text(pages, start, end) == extract::contents_text(
            pages,
            start,
            pages.len() as int,
        ),
{
    if end == start + 1 {
        assert(pages.subrange(start, end) =~= seq![pages[start]]);
    }
    if end < pages.len() {
        let a = pages.subrange(start, end);
        let b = pages.subrange(start, end + 1);
        assert(b.drop_last() =~= a);
        assert(b.last() == pages[end]);
    }
}

/// The entries of the contents are those that the lines of its pages hold.
pub proof fn contents_entries_come_from_the_contents_pages(pages: Seq<Seq<char>>)
    ensures
        ({
            let start = extract::contents_start(pages);
            let end = extract::contents_end(pages, start);
            extract::contents_entries(pages) == toc::entries_of(
                text::lines(extract::contents_text(pages, start, end)),
            )
        }),
{
}

/// The Arabic anchor is page 1 at the first page at or behind the end of the
/// contents that looks like the first chapter, however far behind it is.
/// Without such a page it is page 1 at the first page.
pub proof fn the_body_starts_at_the_first_chapter(
    m: PageMapping,
    pages: Seq<Seq<char>>,
    start: int,
    end: int,
    i: int,
)
    requires
        extract::is_guessed(m, pages, start, end),
        0 <= end,
        pages.len() <= u32::MAX,
    ensures
        m.arabic_start_logical == 1,
        end <= i < pages.len() && extract::opens_body(pages[i]) && (forall|j: int|
            end <= j < i ==> !extract::opens_body(#[trigger] pages[j])) ==> m.arabic_start_pdf == i
            + 1,
        (forall|j: int| end <= j < pages.len() ==> !extract::opens_body(#[trigger] pages[j]))
            ==> m.arabic_start_pdf == 1,
{
    let test = |page: Seq<char>| extract::opens_body(page);
    let to = pages.len() as int;
    lemma_least(pages, end, to, test);
    let r = extract::first_page(pages, end, to, test);
    if end <= i < to && i < r {
        assert(!test(pages[i]));
    }
    if end <= r < to {
        assert(extract::opens_body(pages[r]));
    }
}

/// Whether a page names the preface.
spec fn names_preface(page: Seq<char>) -> bool {
    text::contains_text(page, "Preface"@) || text::contains_text(page, "Vorwort"@)
}

proof fn lemma_preface_at(pages: Seq<Seq<char>>, start: int, at: int)
    requires
        0 <= at < start,
        at < pages.len(),
        names_preface(pages[at]),
        forall|j: int| 0 <= j < at ==> !names_preface(#[trigger] pages[j]),
    ensures
        ({
            let to = if start < pages.len() {
                start
            } else {
                pages.len() as int
            };
            extract::first_page(pages, 0, to, |page: Seq<char>| extract::is_preface(page)) == at
        }),
{
    let to = if start < pages.len() {
        start
    } else {
        pages.len() as int
    };
    let test = |page: Seq<char>| extract::is_preface(page);
    lemma_least(pages, 0, to, test);
    let r = extract::first_page(pages, 0, to, test);
    if at < r {
        assert(!test(pages[at]));
    } else if r < at {
        assert(test(pages[r]));
        assert(!names_preface(pages[r]));
    }
}

/// Without a preface before the contents, the Roman anchor is page 1 at the
/// first page.
pub proof fn without_a_preface_roman_pages_start_at_one(
    m: PageMapping,
    pages: Seq<Seq<char>>,
    start: int,
    end: int,
)
    requires
        extract::is_guessed(m, pages, start, end),
        0 <= start,
        forall|j: int|
            0 <= j < start && j < pages.len() ==> !text::contains_text(
                #[trigger] pages[j],
                "Preface"@,
            ) && !text::contains_text(pages[j], "Vorwort"@),
    ensures
        m.roman_start_logical == 1,
        m.roman_start_pdf == 1,
{
    let to = if start < pages.len() {
        start
    } else {
        pages.len() as int
    };
    let test = |page: Seq<char>| extract::is_preface(page);
    lemma_least(pages, 0, to, test);
    let r = extract::first_page(pages, 0, to, test);
    if r < to {
        assert(test(pages[r]));
    }
}

/// Whether a word is a Roman numeral from 1 to 29.
spec fn is_small_numeral(word: Seq<char>) -> bool {
    numerals::roman(word) matches Some(n) && 1 <= n < 30
}

proof fn lemma_small_numeral(words: Seq<Seq<char>>)
    ensures
        match extract::small_numeral(words) {
            Some(n) => exists|k: int| #[trigger] first_small_numeral(words, k, n),
            None => forall|j: int| 0 <= j < words.len() ==> !is_small_numeral(#[trigger] words[j]),
        },
    decreases words.len(),
{
    if words.len() > 0 {
        let rest = words.skip(1);
        lemma_small_numeral(rest);
        if is_small_numeral(words[0]) {
            assert(first_small_numeral(words, 0, extract::small_numeral(words)->0));
        } else {
            match extract::small_numeral(rest) {
                Some(n) => {
                    let k = choose|k: int| #[trigger] first_small_numeral(rest, k, n);
                    assert forall|j: int| 0 <= j < k + 1 implies !is_small_numeral(
                        #[trigger] words[j],
                    ) by {
                        if j > 0 {
                            assert(!is_small_numeral(rest[j - 1]));
                        }
                    }
                    assert(words[k + 1] == rest[k]);
                    assert(first_small_numeral(words, k + 1, n));
                },
                None => {
                    assert forall|j: int| 0 <= j < words.len() implies !is_small_numeral(
                        #[trigger] words[j],
                    ) by {
                        if j > 0 {
                            assert(!is_small_numeral(rest[j - 1]));
                        }
                    }
                },
            }
        }
    }
}

spec fn first_small_numeral(words: Seq<Seq<char>>, k: int, n: u32) -> bool {
    &&& 0 <= k < words.len()
    &&& numerals::roman(words[k]) == Some(n)
    &&& 1 <= n < 30
    &&& forall|j: int| 0 <= j < k ==> !is_small_numeral(#[trigger] words[j])
}

proof fn lemma_small_numeral_is(words: Seq<Seq<char>>, k: int, n: u32)
    requires
        first_small_numeral(words, k, n),
    ensures
        extract::small_numeral(words) == Some(n),
{
    lemma_small_numeral(words);
    assert(is_small_numeral(words[k]));
    let m = extract::small_numeral(words)->0;
    let l = choose|l: int| #[trigger] first_small_numeral(words, l, m);
    if l < k {
        assert(!is_small_numeral(words[l]));
    } else if k < l {
        assert(!is_small_numeral(words[k]));
    }
}

proof fn lemma_no_small_numeral(words: Seq<Seq<char>>)
    requires
        forall|j: int| 0 <= j < words.len() ==> !is_small_numeral(#[trigger] words[j]),
    ensures
        extract::small_numeral(words) is None,
{
    lemma_small_numeral(words);
    if let Some(m) = extract::small_numeral(words) {
        let l = choose|l: int| #[trigger] first_small_numeral(words, l, m);
        assert(is_small_numeral(words[l]));
    }
}

proof fn lemma_preface_number(pages: Seq<Seq<char>>, at: int, to: int, from: nat, ahead: nat)
    requires
        from <= ahead,
        forall|d: int|
            from <= d < ahead && at + d < to ==> extract::small_numeral(
                #[trigger] text::words(pages[at + d]),
            ) is None,
    ensures
        extract::preface_number(pages, at, to, from) == extract::preface_number(
            pages,
            at,
            to,
            ahead,
        ) || (ahead >= 4 || at + ahead >= to) && extract::preface_number(pages, at, to, from)
            is None,
    decreases ahead - from,
{
    if from < ahead && from < 4 && at + from < to {
        assert(extract::small_numeral(text::words(pages[at + from])) is None);
        lemma_preface_number(pages, at, to, from + 1, ahead);
    }
}

/// The Roman anchor is the first page before the contents that names the
/// preface, in English or in German. Its number is the first Roman numeral
/// from 1 to 29 on it, or on one of the three pages that follow it before the
/// contents, less the pages in between, down to 0.
pub proof fn the_preface_anchors_roman_pages(
    m: PageMapping,
    pages: Seq<Seq<char>>,
    start: int,
    end: int,
    at: int,
    ahead: int,
    k: int,
)
    requires
        extract::is_guessed(m, pages, start, end),
        pages.len() <= u32::MAX,
        0 <= at < start,
        at < pages.len(),
        text::contains_text(pages[at], "Preface"@) || text::contains_text(pages[at], "Vorwort"@),
        forall|j: int|
            0 <= j < at ==> !text::contains_text(#[trigger] pages[j], "Preface"@)
                && !text::contains_text(pages[j], "Vorwort"@),
        0 <= ahead < 4,
        at + ahead < start,
        at + ahead < pages.len(),
        0 <= k < text::words(pages[at + ahead]).len(),
        numerals::roman(text::words(pages[at + ahead])[k]) matches Some(n) && 1 <= n < 30,
        forall|j: int|
            0 <= j < k ==> !(numerals::roman(#[trigger] text::words(pages[at + ahead])[j]) matches Some(
                n,
            ) && 1 <= n < 30),
        forall|d: int, j: int|
            0 <= d < ahead && 0 <= j < text::words(pages[at + d]).len() ==> !(numerals::roman(
                #[trigger] text::words(pages[at + d])[j],
            ) matches Some(n) && 1 <= n < 30),
    ensures
        m.roman_start_pdf == at + 1,
        ({
            let n = numerals::roman(text::words(pages[at + ahead])[k])->0;
            m.roman_start_logical == if n >= ahead {
                n - ahead
            } else {
                0
            }
        }),
{
    let to = if start < pages.len() {
        start
    } else {
        pages.len() as int
    };
    assert forall|j: int| 0 <= j < at implies !names_preface(#[trigger] pages[j]) by {}
    lemma_preface_at(pages, start, at);
    let n = numerals::roman(text::words(pages[at + ahead])[k])->0;
    assert(first_small_numeral(text::words(pages[at + ahead]), k, n)) by {
        assert forall|j: int| 0 <= j < k implies !is_small_numeral(
            #[trigger] text::words(pages[at + ahead])[j],
        ) by {}
    }
    lemma_small_numeral_is(text::words(pages[at + ahead]), k, n);
    assert forall|d: int| 0 <= d < ahead && at + d < to implies extract::small_numeral(
        #[trigger] text::words(pages[at + d]),
    ) is None by {
        let words = text::words(pages[at + d]);
        assert forall|j: int| 0 <= j < words.len() implies !is_small_numeral(
            #[trigger] words[j],
        ) by {
            assert(!(numerals::roman(text::words(pages[at + d])[j]) matches Some(n) && 1 <= n < 30));
        }
        lemma_no_small_numeral(words);
    }
    lemma_preface_number(pages, at, to, 0, ahead as nat);
}

/// Where neither the first page that names the preface nor the three pages
/// that follow it before the contents show such a numeral, the preface counts
/// as numbered like the PDF.
pub proof fn a_preface_without_numerals_is_numbered_like_the_pdf(
    m: PageMapping,
    pages: Seq<Seq<char>>,
    start: int,
    end: int,
    at: int,
)
    requires
        extract::is_guessed(m, pages, start, end),
        pages.len() <= u32::MAX,
        0 <= at < start,
        at < pages.len(),
        text::contains_text(pages[at], "Preface"@) || text::contains_text(pages[at], "Vorwort"@),
        forall|j: int|
            0 <= j < at ==> !text::contains_text(#[trigger] pages[j], "Preface"@)
                && !text::contains_text(pages[j], "Vorwort"@),
        forall|d: int, j: int|
            0 <= d < 4 && at + d < start && at + d < pages.len() && 0 <= j < text::words(
                pages[at + d],
            ).len() ==> !(numerals::roman(#[trigger] text::words(pages[at + d])[j]) matches Some(n)
                && 1 <= n < 30),
    ensures
        m.roman_start_pdf == at + 1,
        m.roman_start_logical == at + 1,
{
    let to = if start < pages.len() {
        start
    } else {
        pages.len() as int
    };
    assert forall|j: int| 0 <= j < at implies !names_preface(#[trigger] pages[j]) by {}
    lemma_preface_at(pages, start, at);
    assert forall|d: int| 0 <= d < 4 && at + d < to implies extract::small_numeral(
        #[trigger] text::words(pages[at + d]),
    ) is None by {
        let words = text::words(pages[at + d]);
        assert forall|j: int| 0 <= j < words.len() implies !is_small_numeral(
            #[trigger] words[j],
        ) by {
            assert(!(numerals::roman(text::words(pages[at + d])[j]) matches Some(n) && 1 <= n < 30));
        }
        lemma_no_small_numeral(words);
    }
    lemma_preface_number(pages, at, to, 0, 4);
}

/// A guessed mapping knows the pages that the text prints from the start of
/// the body on.
pub proof fn a_guessed_mapping_knows_the_printed_pages(
    m: PageMapping,
    pages: Seq<Seq<char>>,
    start: int,
    end: int,
)
    requires
        extract::is_guessed(m, pages, start, end),
    ensures
        m.page_map@ == page_map::sanitized(page_map::page_index(pages, m.arabic_start_pdf)),
{
}

/// The entry for the contents itself is a top-level Roman page, as far behind
/// the Roman anchor as the contents are in the PDF, and on the anchor's page
/// where the contents come before it.
pub proof fn the_contents_entry_leads_to_the_contents(start: int, anchor: (u32, u32))
    requires
        0 <= start < u32::MAX,
    ensures
        ({
            let entry = extract::contents_entry(start, anchor);
            let page = if start + 1 >= anchor.1 {
                start + 1 - anchor.1 + anchor.0
            } else {
                anchor.0 as int
            };
            &&& entry.title == "Contents"@
            &&& entry.roman
            &&& entry.depth == 1
            &&& page <= u32::MAX ==> entry.page == page
        }),
{
}

} // verus!
