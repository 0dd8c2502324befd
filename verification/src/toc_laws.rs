//! What holds of the lines of a table of contents.
use crate::numerals;
use crate::text;
use crate::text_laws;
use crate::toc;
use crate::toc::{TocItem, TocLine};
use vstd::prelude::*;

verus! {

/// Whether a text is a row of digits, at least one.
pub open spec fn is_digits(s: Seq<char>) -> bool {
    s.len() > 0 && forall|i: int| 0 <= i < s.len() ==> numerals::is_digit(#[trigger] s[i])
}

proof fn lemma_count_concat(a: Seq<char>, b: Seq<char>, c: char)
    ensures
        text::count_char(a + b, c) == text::count_char(a, c) + text::count_char(b, c),
    decreases b.len(),
{
    if b.len() == 0 {
        assert(a + b =~= a);
    } else {
        assert((a + b).drop_last() =~= a + b.drop_last());
        lemma_count_concat(a, b.drop_last(), c);
    }
}

proof fn lemma_no_dots(s: Seq<char>)
    requires
        forall|i: int| 0 <= i < s.len() ==> numerals::is_digit(#[trigger] s[i]),
    ensures
        text::count_char(s, '.') == 0,
    decreases s.len(),
{
    if s.len() > 0 {
        assert(numerals::is_digit(s[s.len() - 1]));
        lemma_no_dots(s.drop_last());
    }
}

proof fn lemma_dotted(parts: Seq<Seq<char>>)
    requires
        parts.len() > 0,
        forall|i: int| 0 <= i < parts.len() ==> is_digits(#[trigger] parts[i]),
    ensures
        text::join(parts, '.').len() > 0,
        toc::is_dotted_number(text::join(parts, '.')),
        numerals::is_digit(text::join(parts, '.')[0]),
        numerals::is_digit(text::join(parts, '.').last()),
        text::count_char(text::join(parts, '.'), '.') == parts.len() - 1,
    decreases parts.len(),
{
    let s = text::join(parts, '.');
    let last = parts.last();
    assert(is_digits(parts[parts.len() - 1]));
    lemma_no_dots(last);
    if parts.len() == 1 {
        assert(s == last);
        assert(numerals::is_digit(last[0]));
        assert(numerals::is_digit(last[last.len() - 1]));
    } else {
        let before = parts.drop_last();
        assert forall|i: int| 0 <= i < before.len() implies is_digits(#[trigger] before[i]) by {
            assert(is_digits(parts[i]));
        }
        lemma_dotted(before);
        let head = text::join(before, '.').push('.');
        assert(head.drop_last() =~= text::join(before, '.'));
        lemma_count_concat(head, last, '.');
        assert(s == head + last);
        assert(numerals::is_digit(last[last.len() - 1]));
        assert forall|i: int| 0 <= i < s.len() implies numerals::is_digit(#[trigger] s[i]) || s[i]
            == '.' by {
            if i < head.len() - 1 {
                assert(s[i] == text::join(before, '.')[i]);
            } else if i >= head.len() {
                assert(s[i] == last[i - head.len()]);
            }
        }
    }
}

/// A section number of decimal parts with dots between them gives a level for
/// each part, with or without a dot behind it.
pub proof fn section_depth_is_its_level(parts: Seq<Seq<char>>)
    requires
        0 < parts.len() <= u32::MAX,
        forall|i: int| 0 <= i < parts.len() ==> is_digits(#[trigger] parts[i]),
    ensures
        toc::numbered_level(text::join(parts, '.')) == Some(parts.len() as u32),
        toc::numbered_level(text::join(parts, '.').push('.')) == Some(parts.len() as u32),
{
    let s = text::join(parts, '.');
    lemma_dotted(parts);
    assert(numerals::roman_digit(s[0]) == 0);
    let dotted = s.push('.');
    assert(dotted.drop_last() =~= s);
    let dot = seq!['.'];
    assert(dot[0] == '.');
    assert(dot.contains('.'));
    assert(!dot.contains(s.last()));
    assert(text::trim_end_of(s, dot) == s);
    assert(text::trim_end_of(dotted, dot) == s);
}

/// A line that is made of words with single spaces between them, of which the
/// last one is a decimal page, is an entry with that page. Its title is made
/// of the other words; spaces and leader dots at its end do not belong to it.
pub proof fn written_line_is_read(words: Seq<Seq<char>>, level: u32)
    requires
        words.len() >= 2,
        forall|i: int| 0 <= i < words.len() ==> (#[trigger] words[i]).len() > 0,
        forall|i: int, j: int|
            0 <= i < words.len() && 0 <= j < words[i].len() ==> !text::is_white_space(
                #[trigger] words[i][j],
            ),
        numerals::number(words.last()) is Some,
        text::trim_end_of(text::join(words.drop_last(), ' '), seq![' ', '.', '\t']).len() > 0,
    ensures
        toc::line_entry(text::join(words, ' '), level) == Some(
            TocItem {
                level: match toc::numbered_level(words[0]) {
                    Some(own) => own,
                    None => if toc::names_back_matter(text::lower(words[0])) {
                        1
                    } else {
                        level
                    },
                },
                title: text::trim_end_of(
                    text::join(words.drop_last(), ' '),
                    seq![' ', '.', '\t'],
                ),
                page: numerals::number(words.last())->0,
                is_roman: false,
            },
        ),
{
    text_laws::words_are_read_back(words);
}

/// A line that does not end with a page is no entry, and leaves the level in
/// force as it is.
pub proof fn lines_without_a_page_are_no_entries(line: Seq<char>, level: u32)
    requires
        text::words(line).len() > 0 ==> toc::page_label(text::words(line).last()) is None,
    ensures
        toc::line_entry(line, level) is None,
        toc::level_behind(line, level) == level,
{
}

/// A Roman numeral numbers a top-level section.
pub proof fn roman_sections_are_top_level(word: Seq<char>)
    requires
        numerals::roman(word) is Some,
    ensures
        toc::numbered_level(word) == Some(1u32),
{
    assert(numerals::roman_digit(word[word.len() - 1]) > 0);
}

/// Dots at the end of a word make it a section number. Its level is one more
/// than the number of dots before them.
pub proof fn dots_at_the_end_make_a_section_number(base: Seq<char>, dots: Seq<char>)
    requires
        dots.len() > 0,
        forall|i: int| 0 <= i < dots.len() ==> #[trigger] dots[i] == '.',
        base.len() > 0 ==> base.last() != '.',
        text::count_char(base, '.') < u32::MAX,
    ensures
        toc::numbered_level(base + dots) matches Some(level) && level == text::count_char(base, '.')
            + 1,
{
    let word = base + dots;
    let dot = seq!['.'];
    assert(word.last() == dots[dots.len() - 1]);
    lemma_cut_dots(base, dots);
}

proof fn lemma_cut_dots(base: Seq<char>, dots: Seq<char>)
    requires
        forall|i: int| 0 <= i < dots.len() ==> #[trigger] dots[i] == '.',
        base.len() > 0 ==> base.last() != '.',
    ensures
        text::trim_end_of(base + dots, seq!['.']) == base,
    decreases dots.len(),
{
    let dot = seq!['.'];
    assert(dot[0] == '.');
    assert(dot.contains('.'));
    if dots.len() == 0 {
        assert(base + dots =~= base);
        if base.len() > 0 {
            assert(!dot.contains(base.last()));
        }
    } else {
        assert((base + dots).last() == dots[dots.len() - 1]);
        assert((base + dots).drop_last() =~= base + dots.drop_last());
        lemma_cut_dots(base, dots.drop_last());
    }
}

/// A word of digits and dots that does not end with a dot is a section number
/// with one level more than it has dots. Any other word that does not end with
/// a dot and is no Roman numeral numbers no section.
pub proof fn other_words_number_sections_by_their_dots(word: Seq<char>)
    requires
        word.len() > 0,
        word.last() != '.',
        numerals::roman(word) is None,
        text::count_char(word, '.') < u32::MAX,
    ensures
        (forall|i: int|
            0 <= i < word.len() ==> ('0' <= #[trigger] word[i] <= '9') || word[i] == '.')
            ==> (toc::numbered_level(word) matches Some(level) && level == text::count_char(
            word,
            '.',
        ) + 1),
        (exists|i: int|
            0 <= i < word.len() && !('0' <= #[trigger] word[i] <= '9') && word[i] != '.')
            ==> toc::numbered_level(word) is None,
{
    assert forall|i: int| 0 <= i < word.len() implies (numerals::is_digit(#[trigger] word[i]) <==> (
    '0' <= word[i] <= '9')) by {}
    if exists|i: int|
        0 <= i < word.len() && !('0' <= #[trigger] word[i] <= '9') && word[i] != '.' {
        let i = choose|i: int|
            0 <= i < word.len() && !('0' <= #[trigger] word[i] <= '9') && word[i] != '.';
        assert(!numerals::is_digit(word[i]));
    }
}

/// A word names a decimal page, or else a Roman one, or none.
pub proof fn pages_are_decimal_or_roman(word: Seq<char>)
    ensures
        numerals::number(word) matches Some(n) ==> toc::page_label(word) == Some((n, false)),
        numerals::number(word) is None ==> (numerals::roman(word) matches Some(n)
            ==> toc::page_label(word) == Some((n, true))),
        numerals::number(word) is None && numerals::roman(word) is None ==> toc::page_label(word)
            is None,
{
}

/// A line of a title and a page is an entry with that title and that page,
/// without the spaces and leader dots that end the title. It stands at the
/// level of its section number; a line without one stands at the top level if
/// it starts the back matter, and at the level in force otherwise.
pub proof fn a_title_and_a_page_make_an_entry(line: Seq<char>, level: u32)
    requires
        text::words(line).len() >= 2,
        toc::page_label(text::words(line).last()) is Some,
    ensures
        ({
            let words = text::words(line);
            let whole = text::join(words.take(words.len() - 1), ' ');
            let title = text::trim_end_of(whole, seq![' ', '.', '\t']);
            let (page, is_roman) = toc::page_label(words.last())->0;
            let first = text::lower(words[0]);
            let plain = text::trim(text::lower(whole));
            let own_contents = text::contains_text(plain, "contents"@) || text::contains_text(
                plain,
                "inhalt"@,
            );
            let back = first == "glossary"@ || first == "index"@ || first == "bibliography"@
                || first == "appendix"@ || first == "notation"@ || first == "symbols"@;
            &&& toc::line_entry(line, level) is None <==> (title.len() == 0 || (is_roman
                && own_contents))
            &&& toc::line_entry(line, level) matches Some(item) ==> {
                &&& item.title == title
                &&& item.page == page
                &&& item.is_roman == is_roman
                &&& toc::numbered_level(words[0]) matches Some(own) ==> item.level == own
                &&& toc::numbered_level(words[0]) is None && back ==> item.level == 1
                &&& toc::numbered_level(words[0]) is None && !back ==> item.level == level
            }
        }),
{
    let words = text::words(line);
    assert(words.take(words.len() - 1) =~= words.drop_last());
}

/// The level in force is 1 at the start. A line with a page and a section
/// number sets it to that section's level; any other line leaves it.
pub proof fn section_numbers_set_the_level(lines: Seq<Seq<char>>, line: Seq<char>)
    ensures
        toc::running_level(seq![]) == 1,
        ({
            let words = text::words(line);
            let has_page = words.len() >= 2 && toc::page_label(words.last()) is Some;
            let own = toc::numbered_level(words[0]);
            &&& has_page && own is Some ==> toc::running_level(lines.push(line)) == own->0
            &&& !(has_page && own is Some) ==> toc::running_level(lines.push(line))
                == toc::running_level(lines)
        }),
{
    assert(lines.push(line).drop_last() =~= lines);
}

/// A further line adds the entry that it holds behind the others, whatever
/// entries came before it, and adds nothing if it holds none.
pub proof fn each_line_adds_its_own_entry(lines: Seq<Seq<char>>, line: Seq<char>)
    ensures
        toc::entries_of(seq![]) == Seq::<TocItem>::empty(),
        toc::line_entry(line, toc::running_level(lines)) matches Some(item) ==> toc::entries_of(
            lines.push(line),
        ) == toc::entries_of(lines).push(item),
        toc::line_entry(line, toc::running_level(lines)) is None ==> toc::entries_of(
            lines.push(line),
        ) == toc::entries_of(lines),
{
    assert(lines.push(line).drop_last() =~= lines);
}

/// There are as many entries as there are lines that hold one. Whether a line
/// holds one does not depend on the lines before it.
pub proof fn entries_are_as_many_as_lines_that_hold_one(lines: Seq<Seq<char>>, level: u32)
    ensures
        toc::entries_of(lines).len() == lines.filter(
            |line: Seq<char>| toc::line_entry(line, level) is Some,
        ).len(),
    decreases lines.len(),
{
    let holds = |line: Seq<char>| toc::line_entry(line, level) is Some;
    if lines.len() > 0 {
        let before = lines.drop_last();
        entries_are_as_many_as_lines_that_hold_one(before, level);
        before.lemma_filter_len_push(holds, lines.last());
        assert(lines =~= before.push(lines.last()));
        assert(toc::line_entry(lines.last(), toc::running_level(before)) is Some
            == toc::line_entry(lines.last(), level) is Some);
    } else {
        reveal(Seq::filter);
    }
}

/// The entries of the first lines of a text come first, unchanged.
pub proof fn later_lines_keep_earlier_entries(lines: Seq<Seq<char>>, more: Seq<Seq<char>>)
    ensures
        toc::entries_of(lines).is_prefix_of(toc::entries_of(lines + more)),
    decreases more.len(),
{
    if more.len() == 0 {
        assert(lines + more =~= lines);
    } else {
        later_lines_keep_earlier_entries(lines, more.drop_last());
        assert((lines + more).drop_last() =~= lines + more.drop_last());
    }
}

/// A line of a table of contents says what its fields hold.
pub proof fn lines_say_what_they_hold(lines: Seq<TocLine>)
    ensures
        toc::items(lines).len() == lines.len(),
        forall|i: int|
            #![trigger toc::items(lines)[i]]
            0 <= i < lines.len() ==> {
                &&& toc::items(lines)[i].level == lines[i].level
                &&& toc::items(lines)[i].title == lines[i].title@
                &&& toc::items(lines)[i].page == lines[i].page
                &&& toc::items(lines)[i].is_roman == lines[i].is_roman
            },
{
}

} // verus!
