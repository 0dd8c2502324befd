//! The lines of a table of contents.
use crate::numerals;
use crate::text;
use crate::numerals::{parse_roman, parse_u32};
use crate::text::{
    contains, count_of, equals, join_parts, lower_text, split_lines, split_words,
    to_chars, to_text, trim_end_chars, trim_text,
};
use vstd::prelude::*;
use vstd::slice::slice_subrange;

verus! {

/// Why no table of contents could be read.
#[derive(Debug)]
pub enum TocError {
    /// No page has a contents heading.
    NoContentsPage,
    /// The contents pages hold no line that could be parsed as an entry.
    NoEntries,
}

/// A line of a table of contents.
#[derive(Debug)]
pub struct TocLine {
    pub level: u32,
    pub title: String,
    pub page: u32,
    pub is_roman: bool,
}

/// What a [`TocLine`] says.
#[verifier::ext_equal]
pub struct TocItem {
    pub level: u32,
    pub title: Seq<char>,
    pub page: u32,
    pub is_roman: bool,
}

impl TocLine {
    pub open spec fn view(&self) -> TocItem {
        TocItem {
            level: self.level,
            title: self.title@,
            page: self.page,
            is_roman: self.is_roman,
        }
    }
}

/// What a row of lines says.
pub open spec fn items(lines: Seq<TocLine>) -> Seq<TocItem> {
    lines.map_values(|l: TocLine| l@)
}

/// Whether a word in lower case names a part of the back matter.
pub open spec fn names_back_matter(word: Seq<char>) -> bool {
    ||| word == "glossary"@
    ||| word == "index"@
    ||| word == "bibliography"@
    ||| word == "appendix"@
    ||| word == "notation"@
    ||| word == "symbols"@
}

/// Whether a word consists of digits and dots.
pub open spec fn is_dotted_number(word: Seq<char>) -> bool {
    forall|i: int|
        0 <= i < word.len() ==> numerals::is_digit(#[trigger] word[i]) || word[i] == '.'
}

/// The nesting level that a section number gives, or nothing for a word that
/// is no section number. The dots within the number count; those that end it
/// do not. A Roman numeral numbers a top-level section.
pub open spec fn numbered_level(word: Seq<char>) -> Option<u32> {
    if word.len() > 0 && word.last() == '.' {
        Some(numerals::wrap32(text::count_char(text::trim_end_of(word, seq!['.']), '.') as int + 1))
    } else if numerals::is_roman(word) {
        Some(1)
    } else if is_dotted_number(word) {
        Some(numerals::wrap32(text::count_char(word, '.') as int + 1))
    } else {
        None
    }
}

/// The page that a word names, and whether it is a Roman one.
pub open spec fn page_label(word: Seq<char>) -> Option<(u32, bool)> {
    match numerals::number(word) {
        Some(n) => Some((n, false)),
        None => match numerals::roman(word) {
            Some(n) => Some((n, true)),
            None => None,
        },
    }
}

/// Whether a title in lower case refers to the table of contents itself.
pub open spec fn names_contents(title: Seq<char>) -> bool {
    text::contains_text(title, "contents"@) || text::contains_text(title, "inhalt"@)
}

/// The level in force behind a line, where `level` was in force before it: a
/// numbered line that ends with a page sets it.
pub open spec fn level_behind(line: Seq<char>, level: u32) -> u32 {
    let words = text::words(line);
    if words.len() < 2 || page_label(words.last()) is None {
        level
    } else {
        match numbered_level(words[0]) {
            Some(l) => l,
            None => level,
        }
    }
}

/// The entry that a line holds, where `level` is in force before it. The last
/// word is its page and the words before it are its title. A line without a
/// section number is at the level in force, or at the top level if it starts
/// the back matter. The line of the contents in the front matter is no entry,
/// nor is one whose title is only spaces and leader dots.
pub open spec fn line_entry(line: Seq<char>, level: u32) -> Option<TocItem> {
    let words = text::words(line);
    if words.len() < 2 {
        None
    } else {
        match page_label(words.last()) {
            None => None,
            Some((page, is_roman)) => {
                let title = text::join(words.drop_last(), ' ');
                let bare = text::trim_end_of(title, seq![' ', '.', '\t']);
                if is_roman && names_contents(text::trim(text::lower(title))) {
                    None
                } else if bare.len() == 0 {
                    None
                } else {
                    let own = match numbered_level(words[0]) {
                        Some(l) => l,
                        None => if names_back_matter(text::lower(words[0])) {
                            1
                        } else {
                            level
                        },
                    };
                    Some(TocItem { level: own, title: bare, page, is_roman })
                }
            },
        }
    }
}

/// The level in force behind the lines; it is 1 at the start.
pub open spec fn running_level(lines: Seq<Seq<char>>) -> u32
    decreases lines.len(),
{
    if lines.len() == 0 {
        1
    } else {
        level_behind(lines.last(), running_level(lines.drop_last()))
    }
}

/// The entries that the lines hold, in order.
pub open spec fn entries_of(lines: Seq<Seq<char>>) -> Seq<TocItem>
    decreases lines.len(),
{
    if lines.len() == 0 {
        seq![]
    } else {
        let before = entries_of(lines.drop_last());
        match line_entry(lines.last(), running_level(lines.drop_last())) {
            Some(item) => before.push(item),
            None => before,
        }
    }
}

/// Whether a word in lower case names a part of the back matter.
pub fn is_back_matter_name(word: &[char]) -> (r: bool)
    ensures
        r == names_back_matter(word@),
{
    equals(word, "glossary") || equals(word, "index") || equals(word, "bibliography") || equals(
        word,
        "appendix",
    ) || equals(word, "notation") || equals(word, "symbols")
}

/// Whether a word names a part of the back matter, in any case.
pub fn is_back_matter(word: &str) -> (r: bool)
    ensures
        r == names_back_matter(text::lower(word@)),
{
    let chars = to_chars(word);
    let lower = lower_text(chars.as_slice());
    is_back_matter_name(lower.as_slice())
}

/// Whether a title in lower case refers to the table of contents itself.
pub fn is_contents_title(title: &[char]) -> (r: bool)
    ensures
        r == names_contents(title@),
{
    contains(title, "contents") || contains(title, "inhalt")
}

fn dotted_number(word: &[char]) -> (r: bool)
    ensures
        r == is_dotted_number(word@),
{
    let mut i: usize = 0;
    while i < word.len()
        invariant
            i <= word@.len(),
            forall|j: int|
                0 <= j < i ==> numerals::is_digit(#[trigger] word@[j]) || word@[j] == '.',
        decreases word@.len() - i,
    {
        let c = word[i];
        if !(c >= '0' && c <= '9') && c != '.' {
            proof {
                assert(!numerals::is_digit(word@[i as int]));
            }
            return false;
        }
        i += 1;
    }
    true
}

/// The number of dots in a word, and one more, in 32 bits.
fn dot_level(word: &[char]) -> (r: u32)
    ensures
        r == numerals::wrap32(text::count_char(word@, '.') as int + 1),
{
    let n: usize = count_of(word, '.');
    ((n as u128 + 1) % 0x1_0000_0000) as u32
}

fn parse_level(word: &[char]) -> (r: Option<u32>)
    ensures
        r == numbered_level(word@),
{
    if word.len() > 0 && word[word.len() - 1] == '.' {
        let dot = ['.'];
        let stripped = trim_end_chars(word, dot.as_slice());
        proof {
            assert(dot@ =~= seq!['.']);
        }
        Some(dot_level(stripped))
    } else if parse_roman(word).is_some() {
        Some(1)
    } else if dotted_number(word) {
        Some(dot_level(word))
    } else {
        None
    }
}

fn parse_page(word: &[char]) -> (r: Option<(u32, bool)>)
    ensures
        r == page_label(word@),
{
    match parse_u32(word) {
        Some(n) => Some((n, false)),
        None => match parse_roman(word) {
            Some(n) => Some((n, true)),
            None => None,
        },
    }
}

/// Reads a line: the entry that it holds, and the level in force behind it.
fn parse_line(line: &[char], level: u32) -> (r: (Option<TocLine>, u32))
    ensures
        match r.0 {
            Some(entry) => line_entry(line@, level) == Some(entry@),
            None => line_entry(line@, level) is None,
        },
        r.1 == level_behind(line@, level),
{
    let words = split_words(line);
    let ghost parts = text::texts(words@);
    if words.len() < 2 {
        return (None, level);
    }
    let last = words[words.len() - 1];
    let first = words[0];
    proof {
        assert(parts.last() == last@);
        assert(parts[0] == first@);
    }
    let (page, is_roman) = match parse_page(last) {
        None => {
            return (None, level);
        },
        Some(label) => label,
    };
    let numbered = parse_level(first);
    let behind: u32 = match numbered {
        Some(l) => l,
        None => level,
    };
    let title_words = slice_subrange(words.as_slice(), 0, words.len() - 1);
    let title = join_parts(title_words, ' ');
    proof {
        assert(text::texts(title_words@) =~= parts.drop_last());
    }
    if is_roman {
        let lower = lower_text(title.as_slice());
        if is_contents_title(trim_text(lower.as_slice())) {
            return (None, behind);
        }
    }
    let leaders = [' ', '.', '\t'];
    let bare = trim_end_chars(title.as_slice(), leaders.as_slice());
    proof {
        assert(leaders@ =~= seq![' ', '.', '\t']);
    }
    if bare.len() == 0 {
        return (None, behind);
    }
    let own: u32 = match numbered {
        Some(l) => l,
        None => {
            let lower = lower_text(first);
            if is_back_matter_name(lower.as_slice()) {
                1
            } else {
                level
            }
        },
    };
    (Some(TocLine { level: own, title: to_text(bare), page, is_roman }), behind)
}

/// Parses the entries of a table of contents from the concatenated text of
/// the contents pages.
///
/// Each line holds an optional section number, a title and a page number,
/// which is decimal or Roman. The section number determines the nesting
/// depth.
pub fn parse_toc_entries(toc_text: &str) -> (r: Result<Vec<TocLine>, TocError>)
    ensures
        match r {
            Ok(entries) => items(entries@) == entries_of(text::lines(toc_text@))
                && entries@.len() > 0,
            Err(e) => e is NoEntries && entries_of(text::lines(toc_text@)).len() == 0,
        },
{
    let chars = to_chars(toc_text);
    let lines = split_lines(chars.as_slice());
    let ghost rows = text::texts(lines@);
    let mut entries: Vec<TocLine> = Vec::new();
    let mut level: u32 = 1;
    let mut i: usize = 0;
    proof {
        assert(items(entries@) =~= seq![]);
    }
    while i < lines.len()
        invariant
            i <= lines@.len(),
            rows == text::texts(lines@),
            items(entries@) == entries_of(rows.take(i as int)),
            level == running_level(rows.take(i as int)),
        decreases lines@.len() - i,
    {
        proof {
            assert(rows.take(i + 1).drop_last() =~= rows.take(i as int));
            assert(rows[i as int] == lines@[i as int]@);
        }
        let (entry, behind) = parse_line(lines[i], level);
        level = behind;
        if let Some(entry) = entry {
            let ghost before = entries@;
            entries.push(entry);
            proof {
                assert(items(entries@) =~= items(before).push(entry@));
            }
        }
        i += 1;
    }
    proof {
        assert(rows.take(i as int) =~= rows);
        assert(items(entries@).len() == entries@.len());
    }
    if entries.len() == 0 {
        return Err(TocError::NoEntries);
    }
    Ok(entries)
}

} // verus!
