//! The map from printed page numbers to physical PDF pages.
use crate::numerals;
use crate::text;
use crate::numerals::parse_u32;
use crate::text::{has_char, split_lines, split_words, to_chars, trim_text};
use vstd::prelude::*;

verus! {

/// The numbers among the words, in order.
pub open spec fn numbers(words: Seq<Seq<char>>) -> Seq<u32>
    decreases words.len(),
{
    if words.len() == 0 {
        seq![]
    } else {
        match numerals::number(words.last()) {
            Some(n) => numbers(words.drop_last()).push(n),
            None => numbers(words.drop_last()),
        }
    }
}

/// Whether a word looks like a section number: it holds a dot and a digit.
pub open spec fn is_section_number(word: Seq<char>) -> bool {
    word.contains('.') && exists|i: int|
        0 <= i < word.len() && numerals::is_digit(#[trigger] word[i])
}

/// The page number that a running header prints.
///
/// After a section number, or after a first word that is no number, it is the
/// last number of the line. A lone number up to 25 is a chapter number and no
/// page number. Otherwise the first number is the page, unless other numbers
/// follow and the line has a cross-reference bar or the first number is at
/// most 25: then it is the last number.
pub open spec fn header_number(line: Seq<char>) -> Option<u32> {
    let all = text::words(line);
    let found = numbers(all);
    if found.len() == 0 {
        None
    } else if is_section_number(all[0]) {
        Some(found.last())
    } else {
        match numerals::number(all[0]) {
            Some(n) => if all.len() == 1 && n <= 25 {
                None
            } else if found.len() > 1 && (line.contains('|') || n <= 25) {
                Some(found.last())
            } else {
                Some(n)
            },
            None => Some(found.last()),
        }
    }
}

/// The printed page number of a page: the one that its first line shows.
pub open spec fn page_number(text: Seq<char>) -> Option<u32> {
    let rows = text::lines(text::trim(text));
    if rows.len() == 0 {
        None
    } else {
        header_number(text::trim(rows[0]))
    }
}

/// How many entries come before the first one at `logical` or later.
pub open spec fn entries_below(entries: Seq<(u32, u32)>, logical: u32) -> nat
    decreases entries.len(),
{
    if entries.len() == 0 || entries[0].0 >= logical {
        0
    } else {
        1 + entries_below(entries.skip(1), logical)
    }
}

/// The entries in order of their logical pages, with one for `logical` added
/// unless there is one already.
pub open spec fn with_entry(entries: Seq<(u32, u32)>, logical: u32, pdf: u32) -> Seq<(u32, u32)> {
    let i = entries_below(entries, logical) as int;
    if i < entries.len() && entries[i].0 == logical {
        entries
    } else {
        entries.insert(i, (logical, pdf))
    }
}

/// The printed numbers of the pages from `body_start` on, each with the first
/// page that prints it, in order of the printed numbers.
pub open spec fn page_index(pages: Seq<Seq<char>>, body_start: u32) -> Seq<(u32, u32)>
    decreases pages.len(),
{
    if pages.len() == 0 {
        seq![]
    } else {
        let before = page_index(pages.drop_last(), body_start);
        let pdf = numerals::wrap32(pages.len() as int);
        match page_number(pages.last()) {
            Some(logical) if pdf >= body_start => with_entry(before, logical, pdf),
            _ => before,
        }
    }
}

/// How far the physical page lies behind the printed number.
pub open spec fn offset_of(entry: (u32, u32)) -> i64 {
    (entry.1 - entry.0) as i64
}

/// The offsets of all entries.
pub open spec fn offsets(entries: Seq<(u32, u32)>) -> Seq<i64> {
    entries.map_values(|e: (u32, u32)| offset_of(e))
}

/// How many leading numbers are less than `x`.
pub open spec fn numbers_below(s: Seq<i64>, x: i64) -> nat
    decreases s.len(),
{
    if s.len() == 0 || s[0] >= x {
        0
    } else {
        1 + numbers_below(s.skip(1), x)
    }
}

/// The numbers in ascending order.
pub open spec fn ascending(s: Seq<i64>) -> Seq<i64>
    decreases s.len(),
{
    if s.len() == 0 {
        seq![]
    } else {
        let before = ascending(s.drop_last());
        before.insert(numbers_below(before, s.last()) as int, s.last())
    }
}

/// The upper median of the numbers.
pub open spec fn median(s: Seq<i64>) -> i64 {
    ascending(s)[(s.len() / 2) as int]
}

/// Whether an entry's offset lies within 50 pages of `middle`.
pub open spec fn is_consistent(entry: (u32, u32), middle: i64) -> bool {
    -50 <= offset_of(entry) - middle <= 50
}

/// The entries without those whose offset is far from the median offset.
/// Fewer than four entries are left as they are.
pub open spec fn sanitized(entries: Seq<(u32, u32)>) -> Seq<(u32, u32)> {
    if entries.len() < 4 {
        entries
    } else {
        let middle = median(offsets(entries));
        entries.filter(|e: (u32, u32)| is_consistent(e, middle))
    }
}

/// The PDF page of a logical page, by a sorted list of known pages.
///
/// The first entry at `logical` or later gives the page by walking back from
/// it, unless that leads before the first page. Behind the last entry the
/// pages are counted on from it.
pub open spec fn lookup(entries: Seq<(u32, u32)>, logical: u32) -> Option<u32> {
    let i = entries_below(entries, logical) as int;
    if entries.len() == 0 {
        None
    } else if i < entries.len() && entries[i].1 - (entries[i].0 - logical) > 0 {
        Some((entries[i].1 - (entries[i].0 - logical)) as u32)
    } else if logical >= entries.last().0 {
        Some(numerals::wrap32(entries.last().1 + (logical - entries.last().0)))
    } else {
        None
    }
}

/// Whether a logical page lies within the range of the entries: at the last
/// of them or before it.
pub open spec fn is_covered(entries: Seq<(u32, u32)>, logical: u32) -> bool {
    entries.len() > 0 && logical <= entries.last().0
}

/// Whether the entries are in strictly ascending order of logical pages.
pub open spec fn is_sorted(entries: Seq<(u32, u32)>) -> bool {
    forall|i: int, j: int| 0 <= i < j < entries.len() ==> entries[i].0 < entries[j].0
}

pub proof fn lemma_entries_below(entries: Seq<(u32, u32)>, logical: u32, n: nat)
    requires
        n <= entries.len(),
        forall|j: int| 0 <= j < n ==> entries[j].0 < logical,
        n < entries.len() ==> entries[n as int].0 >= logical,
    ensures
        entries_below(entries, logical) == n,
    decreases n,
{
    if n > 0 {
        assert(entries[0].0 < logical);
        assert forall|j: int| 0 <= j < n - 1 implies entries.skip(1)[j].0 < logical by {
            assert(entries[j + 1].0 < logical);
        }
        lemma_entries_below(entries.skip(1), logical, (n - 1) as nat);
    }
}

pub proof fn lemma_entries_below_bound(entries: Seq<(u32, u32)>, logical: u32)
    ensures
        entries_below(entries, logical) <= entries.len(),
        forall|j: int| 0 <= j < entries_below(entries, logical) ==> entries[j].0 < logical,
        entries_below(entries, logical) < entries.len() ==> entries[entries_below(
            entries,
            logical,
        ) as int].0 >= logical,
    decreases entries.len(),
{
    if entries.len() > 0 && entries[0].0 < logical {
        let rest = entries.skip(1);
        lemma_entries_below_bound(rest, logical);
        assert forall|j: int| 0 <= j < entries_below(entries, logical) implies entries[j].0
            < logical by {
            if j > 0 {
                assert(rest[j - 1].0 < logical);
            }
        }
    }
}

pub proof fn lemma_with_entry_sorted(entries: Seq<(u32, u32)>, logical: u32, pdf: u32)
    requires
        is_sorted(entries),
    ensures
        is_sorted(with_entry(entries, logical, pdf)),
{
    lemma_entries_below_bound(entries, logical);
    let i = entries_below(entries, logical) as int;
    let after = with_entry(entries, logical, pdf);
    if !(i < entries.len() && entries[i].0 == logical) {
        assert forall|a: int, b: int| 0 <= a < b < after.len() implies after[a].0 < after[b].0 by {
            if i < entries.len() && b > i {
                assert(entries[i].0 <= entries[b - 1].0);
            }
        }
    }
}

proof fn lemma_numbers_below(s: Seq<i64>, x: i64, n: nat)
    requires
        n <= s.len(),
        forall|j: int| 0 <= j < n ==> s[j] < x,
        n < s.len() ==> s[n as int] >= x,
    ensures
        numbers_below(s, x) == n,
    decreases n,
{
    if n > 0 {
        assert(s[0] < x);
        assert forall|j: int| 0 <= j < n - 1 implies s.skip(1)[j] < x by {
            assert(s[j + 1] < x);
        }
        lemma_numbers_below(s.skip(1), x, (n - 1) as nat);
    }
}

/// Putting numbers in ascending order keeps each of them and orders them.
pub proof fn ascending_sorts(s: Seq<i64>)
    ensures
        ascending(s).len() == s.len(),
        ascending(s).to_multiset() == s.to_multiset(),
        forall|i: int, j: int| 0 <= i <= j < s.len() ==> ascending(s)[i] <= ascending(s)[j],
    decreases s.len(),
{
    broadcast use vstd::seq_lib::group_to_multiset_ensures;

    if s.len() > 0 {
        let rest = s.drop_last();
        ascending_sorts(rest);
        let before = ascending(rest);
        let x = s.last();
        let n = numbers_below(before, x);
        lemma_numbers_below_bound(before, x);
        let after = before.insert(n as int, x);
        assert forall|i: int, j: int| 0 <= i <= j < s.len() implies after[i] <= after[j] by {
            if n < before.len() && j > n {
                assert(before[n as int] <= before[j - 1]);
            }
        }
        vstd::seq_lib::to_multiset_insert(before, n as int, x);
        assert(s =~= rest.push(x));
    }
}

pub proof fn lemma_numbers_below_bound(s: Seq<i64>, x: i64)
    ensures
        numbers_below(s, x) <= s.len(),
        forall|j: int| 0 <= j < numbers_below(s, x) ==> s[j] < x,
        numbers_below(s, x) < s.len() ==> s[numbers_below(s, x) as int] >= x,
    decreases s.len(),
{
    if s.len() > 0 && s[0] < x {
        let rest = s.skip(1);
        lemma_numbers_below_bound(rest, x);
        assert forall|j: int| 0 <= j < numbers_below(s, x) implies s[j] < x by {
            if j > 0 {
                assert(rest[j - 1] < x);
            }
        }
    }
}

/// Extracts the printed page number from a page's text.
///
/// Gives nothing for a page that shows no number on its first line, or only a
/// chapter number.
pub fn extract_page_number(page_text: &str) -> (r: Option<u32>)
    ensures
        r == page_number(page_text@),
{
    let chars = to_chars(page_text);
    let rows = split_lines(trim_text(chars.as_slice()));
    if rows.len() == 0 {
        return None;
    }
    let first_line = trim_text(rows[0]);
    let all = split_words(first_line);
    proof {
        assert(text::texts(rows@)[0] == rows@[0]@);
    }
    let mut found: Vec<u32> = Vec::new();
    let mut i: usize = 0;
    let ghost parts = text::texts(all@);
    while i < all.len()
        invariant
            i <= all@.len(),
            parts == text::texts(all@),
            found@ == numbers(parts.take(i as int)),
        decreases all@.len() - i,
    {
        proof {
            assert(parts.take(i + 1).drop_last() =~= parts.take(i as int));
            assert(parts[i as int] == all@[i as int]@);
        }
        if let Some(n) = parse_u32(all[i]) {
            found.push(n);
        }
        i += 1;
    }
    proof {
        assert(parts.take(i as int) =~= parts);
    }
    if found.len() == 0 {
        return None;
    }
    let last: u32 = found[found.len() - 1];
    let first = all[0];
    proof {
        assert(parts[0] == first@);
    }
    if has_char(first, '.') && has_digit(first) {
        return Some(last);
    }
    match parse_u32(first) {
        Some(n) => {
            if all.len() == 1 && n <= 25 {
                None
            } else if found.len() > 1 && (has_char(first_line, '|') || n <= 25) {
                Some(last)
            } else {
                Some(n)
            }
        },
        None => Some(last),
    }
}

/// Whether the word holds a decimal digit.
fn has_digit(word: &[char]) -> (r: bool)
    ensures
        r == exists|i: int|
            0 <= i < word@.len() && numerals::is_digit(#[trigger] word@[i]),
{
    let mut i: usize = 0;
    while i < word.len()
        invariant
            i <= word@.len(),
            forall|j: int| 0 <= j < i ==> !numerals::is_digit(#[trigger] word@[j]),
        decreases word@.len() - i,
    {
        if word[i] >= '0' && word[i] <= '9' {
            proof {
                assert(numerals::is_digit(word@[i as int]));
            }
            return true;
        }
        i += 1;
    }
    false
}

/// Adds the page to the sorted entries unless its number is known already.
fn add_entry(entries: &mut Vec<(u32, u32)>, logical: u32, pdf: u32)
    requires
        is_sorted(old(entries)@),
    ensures
        final(entries)@ == with_entry(old(entries)@, logical, pdf),
        is_sorted(final(entries)@),
{
    let mut i: usize = entries.len();
    while i > 0 && entries[i - 1].0 >= logical
        invariant
            i <= entries@.len(),
            entries@ == old(entries)@,
            forall|j: int| i <= j < entries@.len() ==> entries@[j].0 >= logical,
        decreases i,
    {
        i -= 1;
    }
    proof {
        lemma_entries_below(entries@, logical, i as nat);
        lemma_with_entry_sorted(entries@, logical, pdf);
    }
    if i < entries.len() && entries[i].0 == logical {
        return;
    }
    entries.insert(i, (logical, pdf));
}

/// The upper median of the offsets of the entries.
fn median_offset(entries: &Vec<(u32, u32)>) -> (r: i64)
    requires
        entries@.len() > 0,
    ensures
        r == median(offsets(entries@)),
{
    let mut sorted: Vec<i64> = Vec::new();
    let ghost all = offsets(entries@);
    let mut k: usize = 0;
    while k < entries.len()
        invariant
            k <= entries@.len(),
            all == offsets(entries@),
            sorted@ == ascending(all.take(k as int)),
        decreases entries@.len() - k,
    {
        let x: i64 = entries[k].1 as i64 - entries[k].0 as i64;
        proof {
            assert(all[k as int] == x);
            assert(all.take(k + 1).drop_last() =~= all.take(k as int));
            ascending_sorts(all.take(k as int));
        }
        let mut i: usize = sorted.len();
        while i > 0 && sorted[i - 1] >= x
            invariant
                i <= sorted@.len(),
                forall|j: int| i <= j < sorted@.len() ==> sorted@[j] >= x,
            decreases i,
        {
            i -= 1;
        }
        proof {
            assert forall|j: int| 0 <= j < i implies sorted@[j] < x by {
                assert(sorted@[j] <= sorted@[i - 1]);
            }
            lemma_numbers_below(sorted@, x, i as nat);
        }
        sorted.insert(i, x);
        k += 1;
    }
    proof {
        assert(all.take(k as int) =~= all);
        ascending_sorts(all);
    }
    sorted[entries.len() / 2]
}

pub proof fn lemma_filter_sorted(entries: Seq<(u32, u32)>, pred: spec_fn((u32, u32)) -> bool)
    requires
        is_sorted(entries),
    ensures
        is_sorted(entries.filter(pred)),
    decreases entries.len(),
{
    reveal(Seq::filter);
    if entries.len() > 0 {
        let before = entries.drop_last();
        lemma_filter_sorted(before, pred);
        let kept = before.filter(pred);
        assert forall|i: int| 0 <= i < kept.len() implies kept[i].0 < entries.last().0 by {
            assert(kept.contains(kept[i]));
            before.lemma_filter_contains_rev(pred, kept[i]);
        }
    }
}

/// Drops the entries whose offset is far from the median offset.
fn sanitize(entries: Vec<(u32, u32)>) -> (r: Vec<(u32, u32)>)
    requires
        is_sorted(entries@),
    ensures
        r@ == sanitized(entries@),
        is_sorted(r@),
{
    if entries.len() < 4 {
        return entries;
    }
    let middle: i64 = median_offset(&entries);
    let mut kept: Vec<(u32, u32)> = Vec::new();
    let ghost pred = |e: (u32, u32)| is_consistent(e, middle);
    let mut i: usize = 0;
    proof {
        lemma_median_range(entries@);
    }
    while i < entries.len()
        invariant
            i <= entries@.len(),
            pred == (|e: (u32, u32)| is_consistent(e, middle)),
            is_sorted(entries@),
            kept@ == entries@.take(i as int).filter(pred),
            is_sorted(kept@),
            -0x1_0000_0000 < middle < 0x1_0000_0000,
            forall|j: int|
                0 <= j < kept@.len() && i < entries@.len() ==> #[trigger] kept@[j].0
                    < entries@[i as int].0,
        decreases entries@.len() - i,
    {
        let entry = entries[i];
        let distance: i64 = entry.1 as i64 - entry.0 as i64 - middle;
        proof {
            reveal(Seq::filter);
            assert(entries@.take(i + 1).drop_last() =~= entries@.take(i as int));
        }
        if distance >= -50 && distance <= 50 {
            kept.push(entry);
        }
        i += 1;
    }
    proof {
        assert(entries@.take(i as int) =~= entries@);
    }
    kept
}

proof fn lemma_median_range(entries: Seq<(u32, u32)>)
    requires
        entries.len() > 0,
    ensures
        -0x1_0000_0000 < median(offsets(entries)) < 0x1_0000_0000,
{
    let all = offsets(entries);
    ascending_sorts(all);
    let m = median(all);
    assert(ascending(all).contains(m));
    vstd::seq_lib::to_multiset_contains(ascending(all), m);
    vstd::seq_lib::to_multiset_contains(all, m);
}

/// Map from logical (printed) page numbers to 1-based physical PDF pages.
///
/// It holds the printed page numbers that the text of the body pages shows.
/// Pages that show none, such as chapter-title pages, are found by way of
/// their neighbours when they are looked up.
///
/// The linear offsets of a [`crate::PageMapping`] are the fallback for pages
/// that fall outside the map's range (such as Roman front matter).
pub struct PageNumberMap {
    entries: Vec<(u32, u32)>,
}

impl PageNumberMap {
    /// The pairs of a logical and a PDF page, in order of the logical pages.
    pub closed spec fn view(&self) -> Seq<(u32, u32)> {
        self.entries@
    }

    #[verifier::type_invariant]
    spec fn well_formed(self) -> bool {
        is_sorted(self.entries@)
    }

    /// The map that knows no page.
    pub fn empty() -> (r: Self)
        ensures
            r@ == Seq::<(u32, u32)>::empty(),
    {
        PageNumberMap { entries: Vec::new() }
    }

    /// Builds the map from the texts of all pages, starting at `body_start`
    /// (the 1-based PDF page where the first chapter begins).
    pub fn build(pages: &[&str], body_start: u32) -> (r: Self)
        ensures
            r@ == sanitized(page_index(text::str_texts(pages@), body_start)),
            is_sorted(r@),
    {
        let mut entries: Vec<(u32, u32)> = Vec::new();
        let ghost all = text::str_texts(pages@);
        let mut i: usize = 0;
        while i < pages.len()
            invariant
                i <= pages@.len(),
                all == text::str_texts(pages@),
                is_sorted(entries@),
                entries@ == page_index(all.take(i as int), body_start),
            decreases pages@.len() - i,
        {
            let pdf_page: u32 = ((i as u64 + 1) % 0x1_0000_0000) as u32;
            proof {
                assert(all.take(i + 1).drop_last() =~= all.take(i as int));
                assert(all[i as int] == pages@[i as int]@);
            }
            if pdf_page >= body_start {
                if let Some(logical) = extract_page_number(pages[i]) {
                    add_entry(&mut entries, logical, pdf_page);
                }
            }
            i += 1;
        }
        proof {
            assert(all.take(i as int) =~= all);
        }
        PageNumberMap { entries: sanitize(entries) }
    }

    /// Whether a logical page lies within the map's range: at the last page
    /// that it knows, or before it.
    pub fn covers(&self, logical: u32) -> (r: bool)
        ensures
            r == is_covered(self@, logical),
    {
        self.entries.len() > 0 && logical <= self.entries[self.entries.len() - 1].0
    }

    /// Returns the 1-based PDF page for a logical page number.
    ///
    /// Finds the nearest entry at the requested page or later and walks back
    /// from it. Blank pages are not in the PDF, so the offset of that entry
    /// already accounts for them. Behind the last entry the answer extends
    /// forward from it; [`PageNumberMap::covers`] tells where that begins.
    pub fn get_pdf_page(&self, logical: u32) -> (r: Option<u32>)
        ensures
            r == lookup(self@, logical),
    {
        proof {
            use_type_invariant(self);
        }
        if self.entries.len() == 0 {
            return None;
        }
        let mut low: usize = 0;
        let mut high: usize = self.entries.len();
        while low < high
            invariant
                low <= high <= self.entries@.len(),
                is_sorted(self.entries@),
                forall|j: int| 0 <= j < low ==> self.entries@[j].0 < logical,
                forall|j: int| high <= j < self.entries@.len() ==> self.entries@[j].0 >= logical,
            decreases high - low,
        {
            let middle: usize = low + (high - low) / 2;
            if self.entries[middle].0 < logical {
                proof {
                    assert forall|j: int| 0 <= j <= middle implies self.entries@[j].0
                        < logical by {
                        assert(self.entries@[j].0 <= self.entries@[middle as int].0);
                    }
                }
                low = middle + 1;
            } else {
                proof {
                    assert forall|j: int|
                        middle <= j < self.entries@.len() implies self.entries@[j].0
                        >= logical by {
                        assert(self.entries@[middle as int].0 <= self.entries@[j].0);
                    }
                }
                high = middle;
            }
        }
        proof {
            lemma_entries_below(self.entries@, logical, low as nat);
        }
        if low < self.entries.len() {
            let (l_ref, p_ref) = self.entries[low];
            let pdf: i64 = p_ref as i64 - (l_ref as i64 - logical as i64);
            if pdf > 0 {
                return Some(pdf as u32);
            }
        }
        let (l_last, p_last) = self.entries[self.entries.len() - 1];
        if logical >= l_last {
            return Some(p_last.wrapping_add(logical - l_last));
        }
        None
    }
}

impl Clone for PageNumberMap {
    fn clone(&self) -> (r: Self)
        ensures
            r@ == self@,
    {
        proof {
            use_type_invariant(self);
        }
        let mut entries: Vec<(u32, u32)> = Vec::new();
        let mut i: usize = 0;
        while i < self.entries.len()
            invariant
                i <= self.entries@.len(),
                entries@ == self.entries@.take(i as int),
            decreases self.entries@.len() - i,
        {
            entries.push(self.entries[i]);
            proof {
                assert(self.entries@.take(i + 1) =~= self.entries@.take(i as int).push(
                    self.entries@[i as int],
                ));
            }
            i += 1;
        }
        proof {
            assert(self.entries@.take(i as int) =~= self.entries@);
        }
        PageNumberMap { entries }
    }
}

} // verus!
